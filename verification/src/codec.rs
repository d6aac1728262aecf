//! The field codec: every wire-representable type writes itself to a byte
//! sink and reads itself from a byte source, symmetrically.
//!
//! Each implementation fixes four specifications: a mathematical model of
//! the value (`M`, `model`), a well-formedness condition (`wf`, what the
//! wire format can carry), the exact byte encoding (`wire`), and the decode
//! function (`dec`). The executable `minecraft_write` and `minecraft_read`
//! are verified against `wire` and `dec`.

use vstd::prelude::*;
use vstd::string::StrSliceExecFns;
use crate::error::{DecodeError, varint_err, varint_err_to_decode};
use crate::reader::Reader;
use crate::varint::{
    VarInt, VarLong, varnum_wire, varint_parse, varlong_parse, varint_wire, varlong_wire,
    i32_of_bits, i64_of_bits,
};

verus! {

/// 256 to the power `k`: the weight of the `k`-th byte (from the low end)
/// in a big-endian fixed-width encoding.
pub open spec fn pow256(k: nat) -> nat
    decreases k,
{
    if k == 0 {
        1
    } else {
        256 * pow256((k - 1) as nat)
    }
}

/// The `n`-byte big-endian encoding of `v` (mod 256^n): most significant
/// byte first.
pub open spec fn be_bytes(v: nat, n: nat) -> Seq<u8>
    decreases n,
{
    if n == 0 {
        Seq::empty()
    } else {
        be_bytes(v / 256, (n - 1) as nat) + seq![(v % 256) as u8]
    }
}

/// The unsigned value of a big-endian byte sequence.
pub open spec fn be_val(s: Seq<u8>) -> nat
    decreases s.len(),
{
    if s.len() == 0 {
        0
    } else {
        (256 * be_val(s.drop_last()) + s.last()) as nat
    }
}

/// The unsigned bit pattern of a signed value, for modulus `m`.
pub open spec fn sbits(v: int, m: int) -> nat {
    (v % m) as nat
}

/// The signed value whose unsigned bit pattern is `n`, for modulus `m`:
/// values at or above `m / 2` denote negatives.
pub open spec fn signed_of_bits(n: nat, m: int) -> int {
    if n < m / 2 {
        n as int
    } else {
        n - m
    }
}

pub proof fn lemma_pow256_values()
    ensures
        pow256(0) == 1,
        pow256(1) == 0x100,
        pow256(2) == 0x10000,
        pow256(4) == 0x100000000,
        pow256(8) == 0x10000000000000000,
        pow256(16) == 0x100000000000000000000000000000000,
{
    assert(pow256(1) == 256 * pow256(0));
    assert(pow256(2) == 256 * pow256(1));
    assert(pow256(3) == 256 * pow256(2));
    assert(pow256(4) == 256 * pow256(3));
    assert(pow256(5) == 256 * pow256(4));
    assert(pow256(6) == 256 * pow256(5));
    assert(pow256(7) == 256 * pow256(6));
    assert(pow256(8) == 256 * pow256(7));
    assert(pow256(9) == 256 * pow256(8));
    assert(pow256(10) == 256 * pow256(9));
    assert(pow256(11) == 256 * pow256(10));
    assert(pow256(12) == 256 * pow256(11));
    assert(pow256(13) == 256 * pow256(12));
    assert(pow256(14) == 256 * pow256(13));
    assert(pow256(15) == 256 * pow256(14));
    assert(pow256(16) == 256 * pow256(15));
}

proof fn lemma_pow256_pos(k: nat)
    ensures
        pow256(k) >= 1,
    decreases k,
{
    if k > 0 {
        lemma_pow256_pos((k - 1) as nat);
    }
}

proof fn lemma_pow256_le(a: nat, b: nat)
    requires
        a <= b,
    ensures
        0 < pow256(a) <= pow256(b),
    decreases b,
{
    lemma_pow256_pos(a);
    if a < b {
        lemma_pow256_le(a, (b - 1) as nat);
        assert(pow256(b) == 256 * pow256((b - 1) as nat));
    }
}

/// A big-endian encoding is exactly `n` bytes.
pub proof fn lemma_be_bytes_len(v: nat, n: nat)
    ensures
        be_bytes(v, n).len() == n,
    decreases n,
{
    if n > 0 {
        lemma_be_bytes_len(v / 256, (n - 1) as nat);
    }
}

/// Reading back an `n`-byte big-endian encoding yields the value.
pub proof fn lemma_be_round_trip(v: nat, n: nat)
    requires
        v < pow256(n),
    ensures
        be_bytes(v, n).len() == n,
        be_val(be_bytes(v, n)) == v,
    decreases n,
{
    lemma_be_bytes_len(v, n);
    if n == 0 {
    } else {
        assert(pow256(n) == 256 * pow256((n - 1) as nat));
        vstd::arithmetic::div_mod::lemma_multiply_divide_lt(v as int, 256, pow256((n - 1) as nat) as int);
        lemma_be_round_trip(v / 256, (n - 1) as nat);
        let s = be_bytes(v, n);
        assert(s.drop_last() =~= be_bytes(v / 256, (n - 1) as nat));
        assert(s.last() == (v % 256) as u8);
        vstd::arithmetic::div_mod::lemma_fundamental_div_mod(v as int, 256);
    }
}

/// Append the `n`-byte big-endian encoding of `v` to the sink.
pub(crate) fn write_be(writer: &mut Vec<u8>, v: u128, n: usize)
    requires
        n <= 16,
        (v as nat) < pow256(n as nat),
    ensures
        final(writer)@ == old(writer)@ + be_bytes(v as nat, n as nat),
{
    let mut tmp: Vec<u8> = Vec::new();
    let mut x: u128 = v;
    let mut i: usize = 0;
    while i < n
        invariant
            i <= n,
            be_bytes(v as nat, n as nat) == be_bytes(x as nat, (n - i) as nat) + tmp@.reverse(),
        decreases n - i,
    {
        let ghost xpre = x as nat;
        let ghost tpre = tmp@;
        tmp.push((x % 256) as u8);
        x = x / 256;
        i = i + 1;
        proof {
            assert(be_bytes(xpre, (n - i + 1) as nat) == be_bytes(x as nat, (n - i) as nat) + seq![
                (xpre % 256) as u8,
            ]);
            assert(tmp@.reverse() =~= seq![(xpre % 256) as u8] + tpre.reverse());
            assert((be_bytes(x as nat, (n - i) as nat) + seq![(xpre % 256) as u8])
                + tpre.reverse() =~= be_bytes(x as nat, (n - i) as nat) + (seq![
                (xpre % 256) as u8,
            ] + tpre.reverse()));
        }
    }
    proof {
        assert(be_bytes(x as nat, 0) =~= Seq::<u8>::empty());
        assert(Seq::<u8>::empty() + tmp@.reverse() =~= tmp@.reverse());
        lemma_be_bytes_len(v as nat, n as nat);
    }
    let mut j: usize = 0;
    while j < n
        invariant
            j <= n,
            n == tmp@.len(),
            tmp@.reverse() == be_bytes(v as nat, n as nat),
            writer@ == old(writer)@ + be_bytes(v as nat, n as nat).take(j as int),
        decreases n - j,
    {
        writer.push(tmp[n - 1 - j]);
        j = j + 1;
        proof {
            assert(tmp@[n - j] == tmp@.reverse()[j - 1]);
            assert(writer@ =~= old(writer)@ + be_bytes(v as nat, n as nat).take(j as int));
        }
    }
    proof {
        assert(be_bytes(v as nat, n as nat).take(n as int) =~= be_bytes(v as nat, n as nat));
    }
}

/// Read `n` bytes big-endian from the source.
pub(crate) fn read_be(reader: &mut Reader, n: usize) -> (r: Result<u128, DecodeError>)
    requires
        old(reader).wf(),
        n <= 16,
    ensures
        final(reader).wf(),
        final(reader).data@ == old(reader).data@,
        match r {
            Ok(v) => {
                &&& old(reader).rest().len() >= n
                &&& v as nat == be_val(old(reader).rest().take(n as int))
                &&& (v as nat) < pow256(n as nat)
                &&& final(reader).pos == old(reader).pos + n
                &&& final(reader).rest() == old(reader).rest().skip(n as int)
            },
            Err(e) => {
                &&& e == DecodeError::NotEnoughBytes
                &&& old(reader).rest().len() < n
                &&& final(reader).pos == old(reader).pos
            },
        },
{
    if n > reader.remaining() {
        return Err(DecodeError::NotEnoughBytes);
    }
    let ghost rest0 = reader.rest();
    let mut acc: u128 = 0;
    let mut i: usize = 0;
    proof {
        lemma_pow256_values();
        assert(be_val(rest0.take(0)) == 0);
    }
    while i < n
        invariant
            reader.wf(),
            reader.data@ == old(reader).data@,
            reader.pos == old(reader).pos + i,
            i <= n <= 16,
            rest0 == old(reader).rest(),
            rest0.len() >= n,
            reader.rest() == rest0.skip(i as int),
            acc as nat == be_val(rest0.take(i as int)),
            (acc as nat) < pow256(i as nat),
        decreases n - i,
    {
        proof {
            lemma_pow256_values();
            lemma_pow256_le((i + 1) as nat, 16);
            assert(pow256((i + 1) as nat) == 256 * pow256(i as nat));
        }
        let b = match reader.read_one() {
            Some(b) => b,
            None => {
                proof {
                    assert(false);
                }
                return Err(DecodeError::NotEnoughBytes);
            },
        };
        proof {
            assert(rest0.skip(i as int)[0] == rest0[i as int]);
        }
        acc = acc * 256 + (b as u128);
        i = i + 1;
        proof {
            assert(rest0.take(i as int).drop_last() =~= rest0.take(i - 1));
            assert(rest0.take(i as int).last() == rest0[i - 1]);
            assert(reader.rest() =~= rest0.skip(i as int));
        }
    }
    Ok(acc)
}

/// A wire-representable type: symmetric write/read with exact byte-level
/// specifications.
pub trait MinecraftIo: Sized {
    /// The mathematical model of a value.
    type M;

    /// The model of this value.
    spec fn model(&self) -> Self::M;

    /// What the wire format can carry (e.g. lengths that fit the prefix).
    spec fn wf(&self) -> bool;

    /// The exact byte encoding of this value.
    spec fn wire(&self) -> Seq<u8>;

    /// The decode function: the model of the decoded value and the number
    /// of bytes consumed, or the error, for any input bytes.
    spec fn dec(s: Seq<u8>) -> Result<(Self::M, nat), DecodeError>;

    /// Append this value's wire form to the sink.
    fn minecraft_write(&self, writer: &mut Vec<u8>)
        requires
            self.wf(),
        ensures
            final(writer)@ == old(writer)@ + self.wire(),
    ;

    /// Decode one value from the source: exactly what `Self::dec` says of
    /// the unconsumed bytes.
    fn minecraft_read(reader: &mut Reader) -> (r: Result<Self, DecodeError>)
        requires
            old(reader).wf(),
        ensures
            final(reader).wf(),
            final(reader).data@ == old(reader).data@,
            final(reader).pos >= old(reader).pos,
            match r {
                Ok(v) => v.wf() && Self::dec(old(reader).rest()) == Ok::<(Self::M, nat), DecodeError>(
                    (v.model(), (final(reader).pos - old(reader).pos) as nat),
                ),
                Err(e) => Self::dec(old(reader).rest()) == Err::<(Self::M, nat), DecodeError>(e),
            },
    ;
}


impl MinecraftIo for u8 {
    type M = u8;

    open spec fn model(&self) -> u8 {
        *self
    }

    open spec fn wf(&self) -> bool {
        true
    }

    open spec fn wire(&self) -> Seq<u8> {
        be_bytes(*self as nat, 1)
    }

    open spec fn dec(s: Seq<u8>) -> Result<(u8, nat), DecodeError> {
        if s.len() < 1 {
            Err(DecodeError::NotEnoughBytes)
        } else {
            Ok((be_val(s.take(1)) as u8, 1))
        }
    }

    fn minecraft_write(&self, writer: &mut Vec<u8>) {
        proof {
            lemma_pow256_values();
        }
        write_be(writer, *self as u128, 1);
    }

    fn minecraft_read(reader: &mut Reader) -> (r: Result<Self, DecodeError>) {
        proof {
            lemma_pow256_values();
        }
        match read_be(reader, 1) {
            Ok(v) => Ok(v as u8),
            Err(e) => Err(e),
        }
    }
}

impl MinecraftIo for u16 {
    type M = u16;

    open spec fn model(&self) -> u16 {
        *self
    }

    open spec fn wf(&self) -> bool {
        true
    }

    open spec fn wire(&self) -> Seq<u8> {
        be_bytes(*self as nat, 2)
    }

    open spec fn dec(s: Seq<u8>) -> Result<(u16, nat), DecodeError> {
        if s.len() < 2 {
            Err(DecodeError::NotEnoughBytes)
        } else {
            Ok((be_val(s.take(2)) as u16, 2))
        }
    }

    fn minecraft_write(&self, writer: &mut Vec<u8>) {
        proof {
            lemma_pow256_values();
        }
        write_be(writer, *self as u128, 2);
    }

    fn minecraft_read(reader: &mut Reader) -> (r: Result<Self, DecodeError>) {
        proof {
            lemma_pow256_values();
        }
        match read_be(reader, 2) {
            Ok(v) => Ok(v as u16),
            Err(e) => Err(e),
        }
    }
}

impl MinecraftIo for u32 {
    type M = u32;

    open spec fn model(&self) -> u32 {
        *self
    }

    open spec fn wf(&self) -> bool {
        true
    }

    open spec fn wire(&self) -> Seq<u8> {
        be_bytes(*self as nat, 4)
    }

    open spec fn dec(s: Seq<u8>) -> Result<(u32, nat), DecodeError> {
        if s.len() < 4 {
            Err(DecodeError::NotEnoughBytes)
        } else {
            Ok((be_val(s.take(4)) as u32, 4))
        }
    }

    fn minecraft_write(&self, writer: &mut Vec<u8>) {
        proof {
            lemma_pow256_values();
        }
        write_be(writer, *self as u128, 4);
    }

    fn minecraft_read(reader: &mut Reader) -> (r: Result<Self, DecodeError>) {
        proof {
            lemma_pow256_values();
        }
        match read_be(reader, 4) {
            Ok(v) => Ok(v as u32),
            Err(e) => Err(e),
        }
    }
}

impl MinecraftIo for u64 {
    type M = u64;

    open spec fn model(&self) -> u64 {
        *self
    }

    open spec fn wf(&self) -> bool {
        true
    }

    open spec fn wire(&self) -> Seq<u8> {
        be_bytes(*self as nat, 8)
    }

    open spec fn dec(s: Seq<u8>) -> Result<(u64, nat), DecodeError> {
        if s.len() < 8 {
            Err(DecodeError::NotEnoughBytes)
        } else {
            Ok((be_val(s.take(8)) as u64, 8))
        }
    }

    fn minecraft_write(&self, writer: &mut Vec<u8>) {
        proof {
            lemma_pow256_values();
        }
        write_be(writer, *self as u128, 8);
    }

    fn minecraft_read(reader: &mut Reader) -> (r: Result<Self, DecodeError>) {
        proof {
            lemma_pow256_values();
        }
        match read_be(reader, 8) {
            Ok(v) => Ok(v as u64),
            Err(e) => Err(e),
        }
    }
}

impl MinecraftIo for u128 {
    type M = u128;

    open spec fn model(&self) -> u128 {
        *self
    }

    open spec fn wf(&self) -> bool {
        true
    }

    open spec fn wire(&self) -> Seq<u8> {
        be_bytes(*self as nat, 16)
    }

    open spec fn dec(s: Seq<u8>) -> Result<(u128, nat), DecodeError> {
        if s.len() < 16 {
            Err(DecodeError::NotEnoughBytes)
        } else {
            Ok((be_val(s.take(16)) as u128, 16))
        }
    }

    fn minecraft_write(&self, writer: &mut Vec<u8>) {
        proof {
            lemma_pow256_values();
        }
        write_be(writer, *self as u128, 16);
    }

    fn minecraft_read(reader: &mut Reader) -> (r: Result<Self, DecodeError>) {
        proof {
            lemma_pow256_values();
        }
        match read_be(reader, 16) {
            Ok(v) => Ok(v as u128),
            Err(e) => Err(e),
        }
    }
}

impl MinecraftIo for i8 {
    type M = i8;

    open spec fn model(&self) -> i8 {
        *self
    }

    open spec fn wf(&self) -> bool {
        true
    }

    open spec fn wire(&self) -> Seq<u8> {
        be_bytes(sbits(*self as int, 0x100), 1)
    }

    open spec fn dec(s: Seq<u8>) -> Result<(i8, nat), DecodeError> {
        if s.len() < 1 {
            Err(DecodeError::NotEnoughBytes)
        } else {
            Ok((signed_of_bits(be_val(s.take(1)), 0x100) as i8, 1))
        }
    }

    fn minecraft_write(&self, writer: &mut Vec<u8>) {
        proof {
            lemma_pow256_values();
        }
        let bits: u128 = if *self >= 0 {
            *self as u128
        } else {
            ((*self as i16) + 0x100i16) as u128
        };
        proof {
            assert(bits as nat == sbits(*self as int, 0x100));
        }
        write_be(writer, bits, 1);
    }

    fn minecraft_read(reader: &mut Reader) -> (r: Result<Self, DecodeError>) {
        proof {
            lemma_pow256_values();
        }
        match read_be(reader, 1) {
            Ok(v) => {
                let out: i8 = if v < 0x80 {
                    v as i8
                } else {
                    ((v as i16) - 0x100i16) as i8
                };
                proof {
                    assert(out as int == signed_of_bits(v as nat, 0x100));
                }
                Ok(out)
            },
            Err(e) => Err(e),
        }
    }
}

impl MinecraftIo for i16 {
    type M = i16;

    open spec fn model(&self) -> i16 {
        *self
    }

    open spec fn wf(&self) -> bool {
        true
    }

    open spec fn wire(&self) -> Seq<u8> {
        be_bytes(sbits(*self as int, 0x10000), 2)
    }

    open spec fn dec(s: Seq<u8>) -> Result<(i16, nat), DecodeError> {
        if s.len() < 2 {
            Err(DecodeError::NotEnoughBytes)
        } else {
            Ok((signed_of_bits(be_val(s.take(2)), 0x10000) as i16, 2))
        }
    }

    fn minecraft_write(&self, writer: &mut Vec<u8>) {
        proof {
            lemma_pow256_values();
        }
        let bits: u128 = if *self >= 0 {
            *self as u128
        } else {
            ((*self as i32) + 0x10000i32) as u128
        };
        proof {
            assert(bits as nat == sbits(*self as int, 0x10000));
        }
        write_be(writer, bits, 2);
    }

    fn minecraft_read(reader: &mut Reader) -> (r: Result<Self, DecodeError>) {
        proof {
            lemma_pow256_values();
        }
        match read_be(reader, 2) {
            Ok(v) => {
                let out: i16 = if v < 0x8000 {
                    v as i16
                } else {
                    ((v as i32) - 0x10000i32) as i16
                };
                proof {
                    assert(out as int == signed_of_bits(v as nat, 0x10000));
                }
                Ok(out)
            },
            Err(e) => Err(e),
        }
    }
}

impl MinecraftIo for i32 {
    type M = i32;

    open spec fn model(&self) -> i32 {
        *self
    }

    open spec fn wf(&self) -> bool {
        true
    }

    open spec fn wire(&self) -> Seq<u8> {
        be_bytes(sbits(*self as int, 0x100000000), 4)
    }

    open spec fn dec(s: Seq<u8>) -> Result<(i32, nat), DecodeError> {
        if s.len() < 4 {
            Err(DecodeError::NotEnoughBytes)
        } else {
            Ok((signed_of_bits(be_val(s.take(4)), 0x100000000) as i32, 4))
        }
    }

    fn minecraft_write(&self, writer: &mut Vec<u8>) {
        proof {
            lemma_pow256_values();
        }
        let bits: u128 = if *self >= 0 {
            *self as u128
        } else {
            ((*self as i64) + 0x100000000i64) as u128
        };
        proof {
            assert(bits as nat == sbits(*self as int, 0x100000000));
        }
        write_be(writer, bits, 4);
    }

    fn minecraft_read(reader: &mut Reader) -> (r: Result<Self, DecodeError>) {
        proof {
            lemma_pow256_values();
        }
        match read_be(reader, 4) {
            Ok(v) => {
                let out: i32 = if v < 0x80000000 {
                    v as i32
                } else {
                    ((v as i64) - 0x100000000i64) as i32
                };
                proof {
                    assert(out as int == signed_of_bits(v as nat, 0x100000000));
                }
                Ok(out)
            },
            Err(e) => Err(e),
        }
    }
}

impl MinecraftIo for i64 {
    type M = i64;

    open spec fn model(&self) -> i64 {
        *self
    }

    open spec fn wf(&self) -> bool {
        true
    }

    open spec fn wire(&self) -> Seq<u8> {
        be_bytes(sbits(*self as int, 0x10000000000000000), 8)
    }

    open spec fn dec(s: Seq<u8>) -> Result<(i64, nat), DecodeError> {
        if s.len() < 8 {
            Err(DecodeError::NotEnoughBytes)
        } else {
            Ok((signed_of_bits(be_val(s.take(8)), 0x10000000000000000) as i64, 8))
        }
    }

    fn minecraft_write(&self, writer: &mut Vec<u8>) {
        proof {
            lemma_pow256_values();
        }
        let bits: u128 = if *self >= 0 {
            *self as u128
        } else {
            ((*self as i128) + 0x10000000000000000i128) as u128
        };
        proof {
            assert(bits as nat == sbits(*self as int, 0x10000000000000000));
        }
        write_be(writer, bits, 8);
    }

    fn minecraft_read(reader: &mut Reader) -> (r: Result<Self, DecodeError>) {
        proof {
            lemma_pow256_values();
        }
        match read_be(reader, 8) {
            Ok(v) => {
                let out: i64 = if v < 0x8000000000000000 {
                    v as i64
                } else {
                    ((v as i128) - 0x10000000000000000i128) as i64
                };
                proof {
                    assert(out as int == signed_of_bits(v as nat, 0x10000000000000000));
                }
                Ok(out)
            },
            Err(e) => Err(e),
        }
    }
}

impl MinecraftIo for i128 {
    type M = i128;

    open spec fn model(&self) -> i128 {
        *self
    }

    open spec fn wf(&self) -> bool {
        true
    }

    open spec fn wire(&self) -> Seq<u8> {
        be_bytes(sbits(*self as int, pow256(16) as int), 16)
    }

    open spec fn dec(s: Seq<u8>) -> Result<(i128, nat), DecodeError> {
        if s.len() < 16 {
            Err(DecodeError::NotEnoughBytes)
        } else {
            Ok((signed_of_bits(be_val(s.take(16)), pow256(16) as int) as i128, 16))
        }
    }

    fn minecraft_write(&self, writer: &mut Vec<u8>) {
        proof {
            lemma_pow256_values();
        }
        let bits: u128 = if *self >= 0 {
            *self as u128
        } else {
            ((*self - i128::MIN) as u128) + 0x80000000000000000000000000000000u128
        };
        proof {
            assert(bits as nat == sbits(*self as int, pow256(16) as int));
        }
        write_be(writer, bits, 16);
    }

    fn minecraft_read(reader: &mut Reader) -> (r: Result<Self, DecodeError>) {
        proof {
            lemma_pow256_values();
        }
        match read_be(reader, 16) {
            Ok(v) => {
                let out: i128 = if v < 0x80000000000000000000000000000000u128 {
                    v as i128
                } else {
                    ((v - 0x80000000000000000000000000000000u128) as i128) + i128::MIN
                };
                proof {
                    lemma_pow256_values();
                    assert(out as int == signed_of_bits(v as nat, pow256(16) as int));
                }
                Ok(out)
            },
            Err(e) => Err(e),
        }
    }
}

impl MinecraftIo for bool {
    type M = bool;

    open spec fn model(&self) -> bool {
        *self
    }

    open spec fn wf(&self) -> bool {
        true
    }

    open spec fn wire(&self) -> Seq<u8> {
        if *self {
            seq![1u8]
        } else {
            seq![0u8]
        }
    }

    open spec fn dec(s: Seq<u8>) -> Result<(bool, nat), DecodeError> {
        if s.len() == 0 {
            Err(DecodeError::NotEnoughBytes)
        } else if s[0] == 0 {
            Ok((false, 1))
        } else if s[0] == 1 {
            Ok((true, 1))
        } else {
            Err(DecodeError::InvalidDiscriminant)
        }
    }

    fn minecraft_write(&self, writer: &mut Vec<u8>) {
        let b: u8 = if *self {
            1
        } else {
            0
        };
        writer.push(b);
        proof {
            assert(writer@ =~= old(writer)@ + self.wire());
        }
    }

    fn minecraft_read(reader: &mut Reader) -> (r: Result<Self, DecodeError>) {
        match reader.read_one() {
            None => Err(DecodeError::NotEnoughBytes),
            Some(b) => {
                if b == 0 {
                    Ok(false)
                } else if b == 1 {
                    Ok(true)
                } else {
                    Err(DecodeError::InvalidDiscriminant)
                }
            },
        }
    }
}

impl MinecraftIo for VarInt {
    type M = VarInt;

    open spec fn model(&self) -> VarInt {
        *self
    }

    open spec fn wf(&self) -> bool {
        true
    }

    open spec fn wire(&self) -> Seq<u8> {
        varint_wire(self.0)
    }

    open spec fn dec(s: Seq<u8>) -> Result<(VarInt, nat), DecodeError> {
        match varint_parse(s) {
            Ok(p) => Ok((VarInt(i32_of_bits(p.0) as i32), p.1)),
            Err(e) => Err(varint_err(e)),
        }
    }

    fn minecraft_write(&self, writer: &mut Vec<u8>) {
        VarInt::write(*self, writer);
    }

    fn minecraft_read(reader: &mut Reader) -> (r: Result<Self, DecodeError>) {
        match VarInt::read(reader) {
            Ok(v) => Ok(v),
            Err(e) => Err(varint_err_to_decode(e)),
        }
    }
}

impl MinecraftIo for VarLong {
    type M = VarLong;

    open spec fn model(&self) -> VarLong {
        *self
    }

    open spec fn wf(&self) -> bool {
        true
    }

    open spec fn wire(&self) -> Seq<u8> {
        varlong_wire(self.0)
    }

    open spec fn dec(s: Seq<u8>) -> Result<(VarLong, nat), DecodeError> {
        match varlong_parse(s) {
            Ok(p) => Ok((VarLong(i64_of_bits(p.0) as i64), p.1)),
            Err(e) => Err(varint_err(e)),
        }
    }

    fn minecraft_write(&self, writer: &mut Vec<u8>) {
        VarLong::write(*self, writer);
    }

    fn minecraft_read(reader: &mut Reader) -> (r: Result<Self, DecodeError>) {
        match VarLong::read(reader) {
            Ok(v) => Ok(v),
            Err(e) => Err(varint_err_to_decode(e)),
        }
    }
}


/// Inverting the bit pattern of a signed value in `[-m/2, m/2)` yields the
/// value back.
pub proof fn lemma_sbits_round_trip(v: int, m: int)
    requires
        0 < m,
        m % 2 == 0,
        -m / 2 <= v < m / 2,
    ensures
        sbits(v, m) < m,
        signed_of_bits(sbits(v, m), m) == v,
{
    if v >= 0 {
        vstd::arithmetic::div_mod::lemma_small_mod(v as nat, m as nat);
    } else {
        vstd::arithmetic::div_mod::lemma_mod_multiples_vanish(1, v, m);
        vstd::arithmetic::div_mod::lemma_small_mod((v + m) as nat, m as nat);
    }
}

/// Relies on `String::from_utf8`: on success the returned string's UTF-8
/// encoding is exactly the input bytes (std documents that `from_utf8`
/// returns the string viewing those bytes); it fails exactly when the bytes
/// are not valid UTF-8.
#[verifier::external_body]
fn string_from_utf8(bytes: Vec<u8>) -> (r: Option<String>)
    ensures
        match r {
            Some(s) => vstd::utf8::valid_utf8(bytes@) && vstd::utf8::encode_utf8(s@) == bytes@,
            None => !vstd::utf8::valid_utf8(bytes@),
        },
{
    match String::from_utf8(bytes) {
        Ok(s) => Some(s),
        Err(_) => None,
    }
}

impl MinecraftIo for String {
    type M = Seq<char>;

    open spec fn model(&self) -> Seq<char> {
        self@
    }

    /// The byte length must fit the 32-bit length prefix.
    open spec fn wf(&self) -> bool {
        vstd::utf8::encode_utf8(self@).len() < 0x80000000
    }

    /// A variable-length byte-count prefix, then the UTF-8 bytes.
    open spec fn wire(&self) -> Seq<u8> {
        varnum_wire(vstd::utf8::encode_utf8(self@).len()) + vstd::utf8::encode_utf8(self@)
    }

    open spec fn dec(s: Seq<u8>) -> Result<(Seq<char>, nat), DecodeError> {
        match varint_parse(s) {
            Err(e) => Err(varint_err(e)),
            Ok((lv, ln)) => {
                let len = i32_of_bits(lv);
                if len < 0 {
                    Err(DecodeError::BadLength)
                } else if ln + len > s.len() {
                    Err(DecodeError::NotEnoughBytes)
                } else {
                    let bytes = s.subrange(ln as int, ln + len);
                    if vstd::utf8::valid_utf8(bytes) {
                        Ok((vstd::utf8::decode_utf8(bytes), (ln + len) as nat))
                    } else {
                        Err(DecodeError::InvalidUtf8)
                    }
                }
            },
        }
    }

    fn minecraft_write(&self, writer: &mut Vec<u8>) {
        let bytes = self.as_str().as_bytes_vec();
        let n = bytes.len();
        proof {
            assert(crate::varint::u32_bits(n as i32) == n as nat);
        }
        VarInt(n as i32).write(writer);
        writer.extend_from_slice(bytes.as_slice());
        proof {
            assert(writer@ =~= old(writer)@ + self.wire());
        }
    }

    fn minecraft_read(reader: &mut Reader) -> (r: Result<Self, DecodeError>) {
        let ghost rest0 = reader.rest();
        let len_v = match VarInt::read(reader) {
            Ok(v) => v,
            Err(e) => {
                return Err(varint_err_to_decode(e));
            },
        };
        if len_v.0 < 0 {
            return Err(DecodeError::BadLength);
        }
        let n = len_v.0 as usize;
        let ghost ln = (reader.pos - old(reader).pos) as nat;
        let bytes = match reader.take(n) {
            Some(b) => b,
            None => {
                return Err(DecodeError::NotEnoughBytes);
            },
        };
        proof {
            assert(bytes@ =~= rest0.subrange(ln as int, ln + n));
        }
        match string_from_utf8(bytes) {
            Some(s) => {
                proof {
                    vstd::utf8::encode_utf8_decode_utf8(s@);
                }
                Ok(s)
            },
            None => Err(DecodeError::InvalidUtf8),
        }
    }
}

/// The wire form of a string: the variable-length count of its UTF-8 bytes,
/// then those bytes. Decoding an encoded string (with any trailing bytes)
/// yields the same character sequence and consumes exactly the wire form.
pub proof fn lemma_string_round_trip(s: &String, rest: Seq<u8>)
    requires
        s.wf(),
    ensures
        <String as MinecraftIo>::dec(s.wire() + rest) == Ok::<(Seq<char>, nat), DecodeError>(
            (s@, s.wire().len() as nat),
        ),
{
    let bytes = vstd::utf8::encode_utf8(s@);
    let n = bytes.len() as i32;
    assert(crate::varint::u32_bits(n) == bytes.len());
    crate::varint::lemma_varint_round_trip(n, bytes + rest);
    let w = s.wire() + rest;
    assert(w =~= varint_wire(n) + (bytes + rest));
    let ln = varint_wire(n).len();
    assert(i32_of_bits(crate::varint::u32_bits(n)) == n as int);
    assert(w.subrange(ln as int, ln + n) =~= bytes);
    vstd::utf8::encode_utf8_valid_utf8(s@);
    vstd::utf8::encode_utf8_decode_utf8(s@);
}


/// The models of a sequence of values.
pub open spec fn models_of<T: MinecraftIo>(s: Seq<T>) -> Seq<T::M> {
    s.map_values(|t: T| t.model())
}

/// Every value of the sequence is wire-writable.
pub open spec fn all_wf<T: MinecraftIo>(s: Seq<T>) -> bool {
    forall|i: int| 0 <= i < s.len() ==> #[trigger] s[i].wf()
}

/// The concatenated wire forms of a sequence of values.
pub open spec fn wire_concat<T: MinecraftIo>(s: Seq<T>) -> Seq<u8>
    decreases s.len(),
{
    if s.len() == 0 {
        Seq::empty()
    } else {
        s[0].wire() + wire_concat(s.skip(1))
    }
}

/// Appending one value appends its wire form.
pub proof fn lemma_wire_concat_snoc<T: MinecraftIo>(s: Seq<T>, x: T)
    ensures
        wire_concat(s.push(x)) == wire_concat(s) + x.wire(),
    decreases s.len(),
{
    if s.len() == 0 {
        assert(s.push(x)[0] == x);
        assert(s.push(x).skip(1) =~= Seq::<T>::empty());
        assert(wire_concat(Seq::<T>::empty()) =~= Seq::<u8>::empty());
        assert(x.wire() + Seq::<u8>::empty() =~= x.wire());
        assert(wire_concat(s.push(x)) =~= x.wire());
        assert(wire_concat(s) + x.wire() =~= x.wire());
    } else {
        assert(s.push(x).skip(1) =~= s.skip(1).push(x));
        lemma_wire_concat_snoc(s.skip(1), x);
        assert(s.push(x)[0] == s[0]);
        assert((s[0].wire() + wire_concat(s.skip(1))) + x.wire() =~= s[0].wire() + (wire_concat(
            s.skip(1),
        ) + x.wire()));
    }
}

/// Decoding values until the source is exhausted (the length-implicit
/// sequence policy): each element must consume at least one byte.
pub open spec fn seq_dec<T: MinecraftIo>(s: Seq<u8>) -> Result<(Seq<T::M>, nat), DecodeError>
    decreases s.len(),
{
    if s.len() == 0 {
        Ok((Seq::empty(), 0))
    } else {
        match T::dec(s) {
            Err(e) => Err(e),
            Ok((m, n)) => if n == 0 || n > s.len() {
                Err(DecodeError::BadLength)
            } else {
                match seq_dec::<T>(s.skip(n as int)) {
                    Err(e) => Err(e),
                    Ok((ms, k)) => Ok((seq![m] + ms, (n + k) as nat)),
                }
            },
        }
    }
}

/// Decoding a given number of values (the length-prefixed sequence policy).
pub open spec fn seq_dec_n<T: MinecraftIo>(s: Seq<u8>, count: nat) -> Result<
    (Seq<T::M>, nat),
    DecodeError,
>
    decreases count,
{
    if count == 0 {
        Ok((Seq::empty(), 0))
    } else {
        match T::dec(s) {
            Err(e) => Err(e),
            Ok((m, n)) => if n > s.len() {
                Err(DecodeError::BadLength)
            } else {
                match seq_dec_n::<T>(s.skip(n as int), (count - 1) as nat) {
                    Err(e) => Err(e),
                    Ok((ms, k)) => Ok((seq![m] + ms, (n + k) as nat)),
                }
            },
        }
    }
}

/// Write every value of the vector in order.
pub(crate) fn write_all<T: MinecraftIo>(elems: &Vec<T>, writer: &mut Vec<u8>)
    requires
        all_wf(elems@),
    ensures
        final(writer)@ == old(writer)@ + wire_concat(elems@),
{
    let mut i: usize = 0;
    while i < elems.len()
        invariant
            all_wf(elems@),
            i <= elems@.len(),
            writer@ == old(writer)@ + wire_concat(elems@.take(i as int)),
        decreases elems@.len() - i,
    {
        let ghost pre = writer@;
        elems[i].minecraft_write(writer);
        i = i + 1;
        proof {
            assert(elems@.take(i as int) =~= elems@.take(i - 1).push(elems@[i - 1]));
            lemma_wire_concat_snoc(elems@.take(i - 1), elems@[i - 1]);
            assert(writer@ =~= old(writer)@ + wire_concat(elems@.take(i as int)));
        }
    }
    proof {
        assert(elems@.take(elems@.len() as int) =~= elems@);
    }
}

impl<T: MinecraftIo> MinecraftIo for Option<T> {
    type M = Option<T::M>;

    open spec fn model(&self) -> Option<T::M> {
        match self {
            Option::None => None,
            Option::Some(v) => Some(v.model()),
        }
    }

    open spec fn wf(&self) -> bool {
        match self {
            Option::None => true,
            Option::Some(v) => v.wf(),
        }
    }

    /// A tail-optional value: absent means zero bytes, no presence flag.
    open spec fn wire(&self) -> Seq<u8> {
        match self {
            Option::None => Seq::empty(),
            Option::Some(v) => v.wire(),
        }
    }

    /// The reader cannot tell absence from a truncated stream, so the
    /// generic decode always reads a present value; a packet whose field is
    /// conditionally present must branch on an earlier field itself.
    open spec fn dec(s: Seq<u8>) -> Result<(Option<T::M>, nat), DecodeError> {
        match T::dec(s) {
            Err(e) => Err(e),
            Ok((m, n)) => Ok((Some(m), n)),
        }
    }

    fn minecraft_write(&self, writer: &mut Vec<u8>) {
        match self {
            Option::None => {
                proof {
                    assert(writer@ + Seq::<u8>::empty() =~= writer@);
                }
            },
            Option::Some(v) => {
                v.minecraft_write(writer);
            },
        }
    }

    fn minecraft_read(reader: &mut Reader) -> (r: Result<Self, DecodeError>) {
        match T::minecraft_read(reader) {
            Ok(v) => Ok(Some(v)),
            Err(e) => Err(e),
        }
    }
}

impl<T: MinecraftIo> MinecraftIo for Vec<T> {
    type M = Seq<T::M>;

    open spec fn model(&self) -> Seq<T::M> {
        models_of(self@)
    }

    open spec fn wf(&self) -> bool {
        all_wf(self@)
    }

    /// A length-implicit sequence: the elements back to back, no count.
    open spec fn wire(&self) -> Seq<u8> {
        wire_concat(self@)
    }

    open spec fn dec(s: Seq<u8>) -> Result<(Seq<T::M>, nat), DecodeError> {
        seq_dec::<T>(s)
    }

    fn minecraft_write(&self, writer: &mut Vec<u8>) {
        write_all(self, writer);
    }

    fn minecraft_read(reader: &mut Reader) -> (r: Result<Self, DecodeError>) {
        let ghost s0 = reader.rest();
        let ghost p0 = reader.pos;
        let mut out: Vec<T> = Vec::new();
        loop
            invariant
                reader.wf(),
                reader.data@ == old(reader).data@,
                reader.pos >= p0,
                p0 == old(reader).pos,
                s0 == old(reader).rest(),
                reader.rest() == s0.skip(reader.pos - p0),
                all_wf(out@),
                match seq_dec::<T>(reader.rest()) {
                    Ok(p) => seq_dec::<T>(s0) == Ok::<(Seq<T::M>, nat), DecodeError>(
                        (models_of(out@) + p.0, (reader.pos - p0 + p.1) as nat),
                    ),
                    Err(e) => seq_dec::<T>(s0) == Err::<(Seq<T::M>, nat), DecodeError>(e),
                },
            decreases reader.data@.len() - reader.pos,
        {
            let remaining = reader.remaining();
            if remaining == 0 {
                proof {
                    assert(models_of(out@) + Seq::<T::M>::empty() =~= models_of(out@));
                }
                return Ok(out);
            }
            let ppre = reader.pos;
            let ghost rest_pre = reader.rest();
            match T::minecraft_read(reader) {
                Err(e) => {
                    return Err(e);
                },
                Ok(v) => {
                    if reader.pos == ppre {
                        proof {
                            assert(seq_dec::<T>(rest_pre) == Err::<(Seq<T::M>, nat), DecodeError>(
                                DecodeError::BadLength,
                            ));
                        }
                        return Err(DecodeError::BadLength);
                    }
                    let ghost n = (reader.pos - ppre) as nat;
                    let ghost out_pre = out@;
                    out.push(v);
                    proof {
                        assert(reader.rest() =~= s0.skip(reader.pos - p0));
                        assert(reader.rest() =~= rest_pre.skip(n as int));
                        assert(n <= rest_pre.len());
                        assert(seq_dec::<T>(rest_pre) == (match seq_dec::<T>(
                            rest_pre.skip(n as int),
                        ) {
                            Ok((ms, k)) => Ok::<(Seq<T::M>, nat), DecodeError>(
                                (seq![v.model()] + ms, (n + k) as nat),
                            ),
                            Err(e) => Err(e),
                        }));
                        assert(models_of(out@) =~= models_of(out_pre).push(v.model()));
                        match seq_dec::<T>(reader.rest()) {
                            Ok(p) => {
                                assert(models_of(out_pre) + (seq![v.model()] + p.0) =~= models_of(
                                    out@,
                                ) + p.0);
                            },
                            Err(_) => {},
                        }
                    }
                },
            }
        }
    }
}

impl<A: MinecraftIo, B: MinecraftIo> MinecraftIo for (A, B) {
    type M = (A::M, B::M);

    open spec fn model(&self) -> (A::M, B::M) {
        (self.0.model(), self.1.model())
    }

    open spec fn wf(&self) -> bool {
        self.0.wf() && self.1.wf()
    }

    /// Each element in positional order.
    open spec fn wire(&self) -> Seq<u8> {
        self.0.wire() + self.1.wire()
    }

    open spec fn dec(s: Seq<u8>) -> Result<((A::M, B::M), nat), DecodeError> {
        match A::dec(s) {
            Err(e) => Err(e),
            Ok((ma, na)) => match B::dec(s.skip(na as int)) {
                Err(e) => Err(e),
                Ok((mb, nb)) => Ok(((ma, mb), (na + nb) as nat)),
            },
        }
    }

    fn minecraft_write(&self, writer: &mut Vec<u8>) {
        self.0.minecraft_write(writer);
        self.1.minecraft_write(writer);
        proof {
            assert(writer@ =~= old(writer)@ + self.wire());
        }
    }

    fn minecraft_read(reader: &mut Reader) -> (r: Result<Self, DecodeError>) {
        let ghost s0 = reader.rest();
        let ghost p0 = reader.pos;
        let a = match A::minecraft_read(reader) {
            Ok(a) => a,
            Err(e) => {
                return Err(e);
            },
        };
        proof {
            assert(reader.rest() =~= s0.skip(reader.pos - p0));
        }
        let b = match B::minecraft_read(reader) {
            Ok(b) => b,
            Err(e) => {
                return Err(e);
            },
        };
        Ok((a, b))
    }
}

impl<A: MinecraftIo, B: MinecraftIo, C: MinecraftIo> MinecraftIo for (A, B, C) {
    type M = (A::M, B::M, C::M);

    open spec fn model(&self) -> (A::M, B::M, C::M) {
        (self.0.model(), self.1.model(), self.2.model())
    }

    open spec fn wf(&self) -> bool {
        self.0.wf() && self.1.wf() && self.2.wf()
    }

    /// Each element in positional order.
    open spec fn wire(&self) -> Seq<u8> {
        self.0.wire() + self.1.wire() + self.2.wire()
    }

    open spec fn dec(s: Seq<u8>) -> Result<((A::M, B::M, C::M), nat), DecodeError> {
        match A::dec(s) {
            Err(e) => Err(e),
            Ok((ma, na)) => match B::dec(s.skip(na as int)) {
                Err(e) => Err(e),
                Ok((mb, nb)) => match C::dec(s.skip(na + nb as int)) {
                    Err(e) => Err(e),
                    Ok((mc, nc)) => Ok(((ma, mb, mc), (na + nb + nc) as nat)),
                },
            },
        }
    }

    fn minecraft_write(&self, writer: &mut Vec<u8>) {
        self.0.minecraft_write(writer);
        self.1.minecraft_write(writer);
        self.2.minecraft_write(writer);
        proof {
            assert(writer@ =~= old(writer)@ + self.wire());
        }
    }

    fn minecraft_read(reader: &mut Reader) -> (r: Result<Self, DecodeError>) {
        let ghost s0 = reader.rest();
        let ghost p0 = reader.pos;
        let a = match A::minecraft_read(reader) {
            Ok(a) => a,
            Err(e) => {
                return Err(e);
            },
        };
        proof {
            assert(reader.rest() =~= s0.skip(reader.pos - p0));
        }
        let ghost pa = reader.pos;
        let b = match B::minecraft_read(reader) {
            Ok(b) => b,
            Err(e) => {
                return Err(e);
            },
        };
        proof {
            assert(reader.rest() =~= s0.skip(reader.pos - p0));
            assert(s0.skip(reader.pos - p0) =~= s0.skip(pa - p0).skip(reader.pos - pa));
        }
        let c = match C::minecraft_read(reader) {
            Ok(c) => c,
            Err(e) => {
                return Err(e);
            },
        };
        Ok((a, b, c))
    }
}


/// Round trip of the single-byte boolean field.
pub proof fn lemma_bool_round_trip(v: bool, rest: Seq<u8>)
    ensures
        <bool as MinecraftIo>::dec(v.wire() + rest) == Ok::<(bool, nat), DecodeError>((v, 1)),
{
    assert((v.wire() + rest)[0] == v.wire()[0]);
}

/// Round trip of a 2-byte unsigned field.
pub proof fn lemma_u16_round_trip(v: u16, rest: Seq<u8>)
    ensures
        v.wire().len() == 2,
        <u16 as MinecraftIo>::dec(v.wire() + rest) == Ok::<(u16, nat), DecodeError>((v, 2)),
{
    lemma_pow256_values();
    lemma_be_round_trip(v as nat, 2);
    assert((v.wire() + rest).take(2) =~= v.wire());
}

/// Round trip of a 4-byte signed field.
pub proof fn lemma_i32_round_trip(v: i32, rest: Seq<u8>)
    ensures
        v.wire().len() == 4,
        <i32 as MinecraftIo>::dec(v.wire() + rest) == Ok::<(i32, nat), DecodeError>((v, 4)),
{
    lemma_pow256_values();
    lemma_sbits_round_trip(v as int, 0x100000000);
    lemma_be_round_trip(sbits(v as int, 0x100000000), 4);
    assert((v.wire() + rest).take(4) =~= v.wire());
}

/// Round trip of an 8-byte signed field.
pub proof fn lemma_i64_round_trip(v: i64, rest: Seq<u8>)
    ensures
        v.wire().len() == 8,
        <i64 as MinecraftIo>::dec(v.wire() + rest) == Ok::<(i64, nat), DecodeError>((v, 8)),
{
    lemma_pow256_values();
    lemma_sbits_round_trip(v as int, 0x10000000000000000);
    lemma_be_round_trip(sbits(v as int, 0x10000000000000000), 8);
    assert((v.wire() + rest).take(8) =~= v.wire());
}

/// Round trip of a variable-length integer field.
pub proof fn lemma_varint_field_round_trip(v: VarInt, rest: Seq<u8>)
    ensures
        1 <= v.wire().len() <= 5,
        <VarInt as MinecraftIo>::dec(v.wire() + rest) == Ok::<(VarInt, nat), DecodeError>(
            (v, v.wire().len() as nat),
        ),
{
    crate::varint::lemma_varint_round_trip(v.0, rest);
}

/// Round trip of a counted sequence of 4-byte signed fields.
pub proof fn lemma_i32_seq_round_trip(ss: Seq<i32>, rest: Seq<u8>)
    ensures
        wire_concat(ss).len() == 4 * ss.len(),
        seq_dec_n::<i32>(wire_concat(ss) + rest, ss.len()) == Ok::<(Seq<i32>, nat), DecodeError>(
            (ss, wire_concat(ss).len() as nat),
        ),
    decreases ss.len(),
{
    if ss.len() == 0 {
        assert(wire_concat(ss) =~= Seq::<u8>::empty());
        assert(wire_concat(ss) + rest =~= rest);
        assert(ss =~= Seq::<i32>::empty());
        assert(seq_dec_n::<i32>(rest, 0) == Ok::<(Seq<i32>, nat), DecodeError>((Seq::empty(), 0)));
    } else {
        let tail = wire_concat(ss.skip(1)) + rest;
        lemma_i32_round_trip(ss[0], tail);
        let w = wire_concat(ss) + rest;
        assert(w =~= ss[0].wire() + tail);
        lemma_i32_seq_round_trip(ss.skip(1), rest);
        assert(w.skip(4) =~= tail);
        assert(seq![ss[0]] + ss.skip(1) =~= ss);
    }
}

} // verus!
