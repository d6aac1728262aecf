//! Variable-length integer codec.
//!
//! The two signed integer wire types used pervasively as lengths, ids and
//! small-magnitude values. The wire form is little-endian groups of 7 bits,
//! with the high bit of each byte as a continuation flag: 1 to 5 bytes for
//! the 32-bit variant, 1 to 10 for the 64-bit variant. A value is encoded
//! via its unsigned bit pattern, so negatives round-trip exactly.

use vstd::prelude::*;
use crate::error::VarIntError;
use crate::reader::Reader;

verus! {

/// 128 to the power `k`: the weight of the `k`-th 7-bit group.
pub open spec fn pow128(k: nat) -> nat
    decreases k,
{
    if k == 0 {
        1
    } else {
        128 * pow128((k - 1) as nat)
    }
}

/// The unsigned bit pattern of a 32-bit signed value.
pub open spec fn u32_bits(v: i32) -> nat {
    ((v as int) % 0x1_0000_0000) as nat
}

/// The unsigned bit pattern of a 64-bit signed value.
pub open spec fn u64_bits(v: i64) -> nat {
    ((v as int) % 0x1_0000_0000_0000_0000) as nat
}

/// The 32-bit signed value whose unsigned bit pattern is `n` (mod 2^32).
pub open spec fn i32_of_bits(n: nat) -> int {
    let m = n % 0x1_0000_0000;
    if m < 0x8000_0000 {
        m as int
    } else {
        m - 0x1_0000_0000
    }
}

/// The 64-bit signed value whose unsigned bit pattern is `n` (mod 2^64).
pub open spec fn i64_of_bits(n: nat) -> int {
    let m = n % 0x1_0000_0000_0000_0000;
    if m < 0x8000_0000_0000_0000 {
        m as int
    } else {
        m - 0x1_0000_0000_0000_0000
    }
}

/// The encoding of an unsigned value: emit the low 7 bits with the
/// continuation bit set while more than 7 bits remain, then the last
/// group with the continuation bit clear. Always at least one byte.
pub open spec fn varnum_wire(v: nat) -> Seq<u8>
    decreases v,
{
    if v < 128 {
        seq![v as u8]
    } else {
        seq![((v % 128) + 128) as u8] + varnum_wire(v / 128)
    }
}

/// The wire form of a 32-bit signed value.
pub open spec fn varint_wire(v: i32) -> Seq<u8> {
    varnum_wire(u32_bits(v))
}

/// The wire form of a 64-bit signed value.
pub open spec fn varlong_wire(v: i64) -> Seq<u8> {
    varnum_wire(u64_bits(v))
}

/// Decoding: accumulate 7-bit groups until a byte with the continuation
/// bit clear; fail with `NotEnoughBytes` on an exhausted source and with
/// `TooManyBytes` when more than `max` groups appear. Returns the decoded
/// unsigned value and the number of bytes consumed.
pub open spec fn varnum_parse(s: Seq<u8>, max: nat) -> Result<(nat, nat), VarIntError>
    decreases max,
{
    if s.len() == 0 {
        Err(VarIntError::NotEnoughBytes)
    } else if s[0] < 128 {
        Ok((s[0] as nat, 1))
    } else if max <= 1 {
        Err(VarIntError::TooManyBytes)
    } else {
        match varnum_parse(s.skip(1), (max - 1) as nat) {
            Ok((v, n)) => Ok((((s[0] - 128) + 128 * v) as nat, (n + 1) as nat)),
            Err(e) => Err(e),
        }
    }
}

/// Parse of the 32-bit variant: at most 5 groups.
pub open spec fn varint_parse(s: Seq<u8>) -> Result<(nat, nat), VarIntError> {
    varnum_parse(s, 5)
}

/// Parse of the 64-bit variant: at most 10 groups.
pub open spec fn varlong_parse(s: Seq<u8>) -> Result<(nat, nat), VarIntError> {
    varnum_parse(s, 10)
}

proof fn lemma_pow128_values()
    ensures
        pow128(0) == 1,
        pow128(1) == 128,
        pow128(2) == 0x4000,
        pow128(3) == 0x200000,
        pow128(4) == 0x10000000,
        pow128(5) == 0x800000000,
        pow128(6) == 0x40000000000,
        pow128(7) == 0x2000000000000,
        pow128(8) == 0x100000000000000,
        pow128(9) == 0x8000000000000000,
        pow128(10) == 0x400000000000000000,
{
    assert(pow128(0) == 1);
    assert(pow128(1) == 128 * pow128(0));
    assert(pow128(2) == 128 * pow128(1));
    assert(pow128(3) == 128 * pow128(2));
    assert(pow128(4) == 128 * pow128(3));
    assert(pow128(5) == 128 * pow128(4));
    assert(pow128(6) == 128 * pow128(5));
    assert(pow128(7) == 128 * pow128(6));
    assert(pow128(8) == 128 * pow128(7));
    assert(pow128(9) == 128 * pow128(8));
    assert(pow128(10) == 128 * pow128(9));
}

proof fn lemma_pow128_pos(k: nat)
    ensures
        pow128(k) >= 1,
    decreases k,
{
    if k > 0 {
        lemma_pow128_pos((k - 1) as nat);
    }
}

proof fn lemma_pow128_le(a: nat, b: nat)
    requires
        a <= b,
    ensures
        0 < pow128(a) <= pow128(b),
    decreases b,
{
    lemma_pow128_pos(a);
    if a < b {
        lemma_pow128_le(a, (b - 1) as nat);
        assert(pow128(b) == 128 * pow128((b - 1) as nat));
    }
}

/// The wire form of a value below `pow128(k)` takes at most `k` bytes.
proof fn lemma_varnum_wire_len(v: nat, k: nat)
    requires
        1 <= k,
        v < pow128(k),
    ensures
        1 <= varnum_wire(v).len() <= k,
    decreases k,
{
    if v < 128 {
    } else {
        assert(pow128(k) == 128 * pow128((k - 1) as nat));
        lemma_varnum_wire_len(v / 128, (k - 1) as nat);
    }
}

/// Decoding inverts encoding, whatever bytes follow the encoded value.
proof fn lemma_varnum_round_trip(v: nat, max: nat, rest: Seq<u8>)
    requires
        varnum_wire(v).len() <= max,
    ensures
        varnum_parse(varnum_wire(v) + rest, max) == Ok::<(nat, nat), VarIntError>(
            (v, varnum_wire(v).len()),
        ),
    decreases v,
{
    let s = varnum_wire(v) + rest;
    if v < 128 {
        assert(s[0] == v as u8);
    } else {
        let b: u8 = ((v % 128) + 128) as u8;
        assert(s[0] == b);
        assert(b >= 128);
        assert(varnum_wire(v).len() == 1 + varnum_wire(v / 128).len());
        lemma_varnum_round_trip(v / 128, (max - 1) as nat, rest);
        assert(s.skip(1) =~= varnum_wire(v / 128) + rest);
        vstd::arithmetic::div_mod::lemma_fundamental_div_mod(v as int, 128);
    }
}

/// Round trip of the 32-bit variant: for every `i32`, decoding the wire
/// form (with any trailing bytes) yields exactly the encoded bit pattern
/// and consumes exactly the wire form, and the bit pattern denotes the
/// original signed value.
pub proof fn lemma_varint_round_trip(v: i32, rest: Seq<u8>)
    ensures
        varint_parse(varint_wire(v) + rest) == Ok::<(nat, nat), VarIntError>(
            (u32_bits(v), varint_wire(v).len() as nat),
        ),
        i32_of_bits(u32_bits(v)) == v as int,
        1 <= varint_wire(v).len() <= 5,
{
    lemma_pow128_values();
    assert(u32_bits(v) < 0x1_0000_0000);
    lemma_varnum_wire_len(u32_bits(v), 5);
    lemma_varnum_round_trip(u32_bits(v), 5, rest);
}

/// Round trip of the 64-bit variant.
pub proof fn lemma_varlong_round_trip(v: i64, rest: Seq<u8>)
    ensures
        varlong_parse(varlong_wire(v) + rest) == Ok::<(nat, nat), VarIntError>(
            (u64_bits(v), varlong_wire(v).len() as nat),
        ),
        i64_of_bits(u64_bits(v)) == v as int,
        1 <= varlong_wire(v).len() <= 10,
{
    lemma_pow128_values();
    assert(u64_bits(v) < 0x1_0000_0000_0000_0000);
    lemma_varnum_wire_len(u64_bits(v), 10);
    lemma_varnum_round_trip(u64_bits(v), 10, rest);
}

/// A 32-bit signed integer on the wire: 1 to 5 bytes.
#[derive(Copy, Clone, Debug, Default, PartialEq, Eq, PartialOrd, Ord, Structural)]
pub struct VarInt(pub i32);

/// A 64-bit signed integer on the wire: 1 to 10 bytes.
#[derive(Copy, Clone, Debug, Default, PartialEq, Eq, PartialOrd, Ord, Structural)]
pub struct VarLong(pub i64);

/// Emit the wire form of an unsigned value onto the sink.
fn write_varnum(writer: &mut Vec<u8>, value: u64)
    ensures
        final(writer)@ == old(writer)@ + varnum_wire(value as nat),
{
    let mut v: u64 = value;
    loop
        invariant
            writer@ + varnum_wire(v as nat) == old(writer)@ + varnum_wire(value as nat),
        decreases v,
    {
        if v < 128 {
            let ghost pre = writer@;
            writer.push(v as u8);
            proof {
                assert(varnum_wire(v as nat) == seq![v as u8]);
                assert(writer@ + Seq::<u8>::empty() =~= writer@);
                assert(writer@ =~= pre + varnum_wire(v as nat));
            }
            return ;
        }
        let b: u8 = ((v % 128) + 128) as u8;
        let ghost pre = writer@;
        let ghost vpre = v as nat;
        writer.push(b);
        v = v / 128;
        proof {
            assert(varnum_wire(vpre) == seq![b] + varnum_wire(v as nat));
            assert(writer@ + varnum_wire(v as nat) =~= pre + varnum_wire(vpre));
        }
    }
}

/// Read an unsigned value of at most `max` groups from the source.
fn read_varnum(reader: &mut Reader, max: usize) -> (r: Result<u128, VarIntError>)
    requires
        old(reader).wf(),
        1 <= max <= 10,
    ensures
        final(reader).wf(),
        final(reader).data@ == old(reader).data@,
        final(reader).pos >= old(reader).pos,
        match r {
            Ok(v) => varnum_parse(old(reader).rest(), max as nat) == Ok::<(nat, nat), VarIntError>(
                (v as nat, (final(reader).pos - old(reader).pos) as nat),
            ),
            Err(e) => {
                &&& varnum_parse(old(reader).rest(), max as nat) == Err::<(nat, nat), VarIntError>(e)
                &&& final(reader).pos == old(reader).pos + (match e {
                    VarIntError::NotEnoughBytes => old(reader).rest().len(),
                    VarIntError::TooManyBytes => max as nat,
                })
            },
        },
{
    let ghost rest0 = old(reader).rest();
    let mut acc: u128 = 0;
    let mut mult: u128 = 1;
    let mut count: usize = 0;
    proof {
        lemma_pow128_values();
    }
    loop
        invariant
            reader.wf(),
            reader.data@ == old(reader).data@,
            reader.pos == old(reader).pos + count,
            count < max,
            1 <= max <= 10,
            rest0 == old(reader).rest(),
            reader.rest() == rest0.skip(count as int),
            mult == pow128(count as nat),
            acc < mult,
            match varnum_parse(reader.rest(), (max - count) as nat) {
                Ok(p) => varnum_parse(rest0, max as nat) == Ok::<(nat, nat), VarIntError>(
                    ((acc + mult * p.0) as nat, (count + p.1) as nat),
                ),
                Err(e) => varnum_parse(rest0, max as nat) == Err::<(nat, nat), VarIntError>(e),
            },
        decreases max - count,
    {
        proof {
            lemma_pow128_values();
            lemma_pow128_le(count as nat, 9);
        }
        let ghost rest_pre = reader.rest();
        match reader.read_one() {
            None => {
                proof {
                    assert(varnum_parse(rest_pre, (max - count) as nat) == Err::<(nat, nat), VarIntError>(
                        VarIntError::NotEnoughBytes,
                    ));
                }
                return Err(VarIntError::NotEnoughBytes);
            },
            Some(b) => {
                if b < 128 {
                    proof {
                        assert(varnum_parse(rest_pre, (max - count) as nat) == Ok::<(nat, nat), VarIntError>(
                            (b as nat, 1),
                        ));
                        vstd::arithmetic::mul::lemma_mul_upper_bound(
                            mult as int,
                            0x8000000000000000,
                            b as int,
                            127,
                        );
                    }
                    let value: u128 = acc + mult * (b as u128);
                    return Ok(value);
                }
                if count + 1 == max {
                    proof {
                        assert(rest_pre[0] >= 128);
                        assert(varnum_parse(rest_pre, (max - count) as nat) == Err::<(nat, nat), VarIntError>(
                            VarIntError::TooManyBytes,
                        ));
                    }
                    return Err(VarIntError::TooManyBytes);
                }
                let ghost acc_pre = acc as nat;
                let ghost mult_pre = mult as nat;
                proof {
                    vstd::arithmetic::mul::lemma_mul_upper_bound(
                        mult as int,
                        0x8000000000000000,
                        (b - 128) as int,
                        127,
                    );
                    vstd::arithmetic::mul::lemma_mul_left_inequality(
                        mult as int,
                        (b - 128) as int,
                        127,
                    );
                }
                acc = acc + mult * ((b - 128) as u128);
                mult = mult * 128;
                count = count + 1;
                proof {
                    assert(reader.rest() =~= rest0.skip(count as int));
                    assert(varnum_parse(rest_pre, (max - count + 1) as nat) == (
                    match varnum_parse(rest_pre.skip(1), (max - count) as nat) {
                        Ok((v, n)) => Ok::<(nat, nat), VarIntError>(
                            (((rest_pre[0] - 128) + 128 * v) as nat, (n + 1) as nat),
                        ),
                        Err(e) => Err(e),
                    }));
                    assert(rest_pre.skip(1) =~= reader.rest());
                    match varnum_parse(reader.rest(), (max - count) as nat) {
                        Ok(p) => {
                            let v = p.0;
                            assert(mult_pre * ((b - 128) + 128 * v) == mult_pre * (b - 128) + (mult_pre
                                * 128) * v) by (nonlinear_arith);
                            assert(acc + mult * v == acc_pre + mult_pre * ((b - 128) + 128 * v));
                        },
                        Err(_) => {},
                    }
                }
            },
        }
    }
}

impl VarInt {
    /// Append the wire form of this value to the sink. Always succeeds:
    /// the wire form of any `i32` is 1 to 5 bytes.
    pub fn write(self, writer: &mut Vec<u8>)
        ensures
            final(writer)@ == old(writer)@ + varint_wire(self.0),
    {
        let bits: u32 = if self.0 >= 0 {
            self.0 as u32
        } else {
            ((self.0 as i64) + 0x1_0000_0000i64) as u32
        };
        proof {
            assert(bits as nat == u32_bits(self.0));
        }
        write_varnum(writer, bits as u64);
    }

    /// Decode one value from the source. Consumes exactly the bytes of one
    /// wire integer on success; fails with `NotEnoughBytes` on an exhausted
    /// source and `TooManyBytes` past 5 groups.
    pub fn read(reader: &mut Reader) -> (r: Result<Self, VarIntError>)
        requires
            old(reader).wf(),
        ensures
            final(reader).wf(),
            final(reader).data@ == old(reader).data@,
            final(reader).pos >= old(reader).pos,
            match r {
                Ok(v) => varint_parse(old(reader).rest()) matches Ok(p) && v.0 as int == i32_of_bits(
                    p.0,
                ) && final(reader).pos == old(reader).pos + p.1,
                Err(e) => {
                    &&& varint_parse(old(reader).rest()) == Err::<(nat, nat), VarIntError>(e)
                    &&& final(reader).pos == old(reader).pos + (match e {
                        VarIntError::NotEnoughBytes => old(reader).rest().len(),
                        VarIntError::TooManyBytes => 5nat,
                    })
                },
            },
    {
        match read_varnum(reader, 5) {
            Err(e) => Err(e),
            Ok(v) => {
                let t: u64 = (v % 0x1_0000_0000) as u64;
                let out: i32 = if t < 0x8000_0000 {
                    t as i32
                } else {
                    ((t as i64) - 0x1_0000_0000i64) as i32
                };
                Ok(VarInt(out))
            },
        }
    }
}

impl VarLong {
    /// Append the wire form of this value to the sink. Always succeeds:
    /// the wire form of any `i64` is 1 to 10 bytes.
    pub fn write(self, writer: &mut Vec<u8>)
        ensures
            final(writer)@ == old(writer)@ + varlong_wire(self.0),
    {
        let bits: u64 = if self.0 >= 0 {
            self.0 as u64
        } else {
            ((self.0 as i128) + 0x1_0000_0000_0000_0000i128) as u64
        };
        proof {
            assert(bits as nat == u64_bits(self.0));
        }
        write_varnum(writer, bits);
    }

    /// Decode one value from the source: at most 10 groups.
    pub fn read(reader: &mut Reader) -> (r: Result<Self, VarIntError>)
        requires
            old(reader).wf(),
        ensures
            final(reader).wf(),
            final(reader).data@ == old(reader).data@,
            final(reader).pos >= old(reader).pos,
            match r {
                Ok(v) => varlong_parse(old(reader).rest()) matches Ok(p) && v.0 as int == i64_of_bits(
                    p.0,
                ) && final(reader).pos == old(reader).pos + p.1,
                Err(e) => {
                    &&& varlong_parse(old(reader).rest()) == Err::<(nat, nat), VarIntError>(e)
                    &&& final(reader).pos == old(reader).pos + (match e {
                        VarIntError::NotEnoughBytes => old(reader).rest().len(),
                        VarIntError::TooManyBytes => 10nat,
                    })
                },
            },
    {
        match read_varnum(reader, 10) {
            Err(e) => Err(e),
            Ok(v) => {
                let t: u64 = (v % 0x1_0000_0000_0000_0000) as u64;
                let out: i64 = if t < 0x8000_0000_0000_0000 {
                    t as i64
                } else {
                    proof {
                        assert(t - 0x1_0000_0000_0000_0000 >= i64::MIN);
                    }
                    ((t as i128) - 0x1_0000_0000_0000_0000i128) as i64
                };
                Ok(VarLong(out))
            },
        }
    }
}

} // verus!
