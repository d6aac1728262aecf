//! The protocol's wire types beyond plain integers: packed block positions,
//! quantized angles, 128-bit uuids, string newtypes, byte blobs, and the
//! inventory slot value.

use vstd::prelude::*;
use crate::codec::{
    MinecraftIo, be_bytes, be_val, sbits, signed_of_bits, pow256, lemma_pow256_values,
    lemma_be_round_trip, lemma_sbits_round_trip, models_of, all_wf, wire_concat, seq_dec_n,
    write_all,
};
use core::marker::PhantomData;
use crate::error::DecodeError;
use crate::nbtio::{Nbt, nbt_extent};
use crate::reader::Reader;
use crate::varint::{VarInt, varint_wire, i32_of_bits, u32_bits};

verus! {

/// A block position: three signed integers packed into one 64-bit wire
/// value. `x` occupies the top 26 bits, `z` the next 26, `y` the low 12.
/// Values outside the representable ranges wrap (the packing masks), they
/// are not an error; decode reproduces signed values by sign extension.
#[derive(Copy, Clone, Default, Debug, PartialEq, Eq, Structural)]
pub struct Position {
    pub x: i32,
    pub y: i32,
    pub z: i32,
}

/// The packed 64-bit value of a position.
pub open spec fn position_packed(p: Position) -> nat {
    (sbits(p.x as int, 0x4000000) * 0x4000000000 + sbits(p.z as int, 0x4000000) * 0x1000 + sbits(
        p.y as int,
        0x1000,
    )) as nat
}

/// The low 26 bits of a signed coordinate.
fn bits26(v: i32) -> (r: u64)
    ensures
        r as nat == sbits(v as int, 0x4000000),
        r < 0x4000000,
{
    let w: i64 = (v as i64) + 0x80000000i64;
    let r = (w as u64) % 0x4000000;
    proof {
        vstd::arithmetic::div_mod::lemma_mod_multiples_vanish(32, v as int, 0x4000000);
    }
    r
}

/// The low 12 bits of a signed coordinate.
fn bits12(v: i32) -> (r: u64)
    ensures
        r as nat == sbits(v as int, 0x1000),
        r < 0x1000,
{
    let w: i64 = (v as i64) + 0x80000000i64;
    let r = (w as u64) % 0x1000;
    proof {
        vstd::arithmetic::div_mod::lemma_mod_multiples_vanish(0x80000, v as int, 0x1000);
    }
    r
}

/// Sign-extend a 26-bit pattern.
fn sext26(bits: u64) -> (r: i32)
    requires
        bits < 0x4000000,
    ensures
        r as int == signed_of_bits(bits as nat, 0x4000000),
{
    if bits < 0x2000000 {
        bits as i32
    } else {
        ((bits as i64) - 0x4000000i64) as i32
    }
}

/// Sign-extend a 12-bit pattern.
fn sext12(bits: u64) -> (r: i32)
    requires
        bits < 0x1000,
    ensures
        r as int == signed_of_bits(bits as nat, 0x1000),
{
    if bits < 0x800 {
        bits as i32
    } else {
        ((bits as i64) - 0x1000i64) as i32
    }
}

impl MinecraftIo for Position {
    type M = Position;

    open spec fn model(&self) -> Position {
        *self
    }

    open spec fn wf(&self) -> bool {
        true
    }

    open spec fn wire(&self) -> Seq<u8> {
        be_bytes(position_packed(*self), 8)
    }

    open spec fn dec(s: Seq<u8>) -> Result<(Position, nat), DecodeError> {
        if s.len() < 8 {
            Err(DecodeError::NotEnoughBytes)
        } else {
            let v = be_val(s.take(8));
            Ok(
                (
                    Position {
                        x: signed_of_bits(v / 0x4000000000, 0x4000000) as i32,
                        y: signed_of_bits(v % 0x1000, 0x1000) as i32,
                        z: signed_of_bits((v / 0x1000) % 0x4000000, 0x4000000) as i32,
                    },
                    8,
                ),
            )
        }
    }

    fn minecraft_write(&self, writer: &mut Vec<u8>) {
        let xb = bits26(self.x);
        let zb = bits26(self.z);
        let yb = bits12(self.y);
        let packed: u64 = xb * 0x4000000000 + zb * 0x1000 + yb;
        proof {
            lemma_pow256_values();
            assert(packed as nat == position_packed(*self));
        }
        crate::codec::write_be(writer, packed as u128, 8);
    }

    fn minecraft_read(reader: &mut Reader) -> (r: Result<Self, DecodeError>) {
        proof {
            lemma_pow256_values();
        }
        let v: u64 = match crate::codec::read_be(reader, 8) {
            Ok(v) => v as u64,
            Err(e) => {
                return Err(e);
            },
        };
        let xb: u64 = v / 0x4000000000;
        let zb: u64 = (v / 0x1000) % 0x4000000;
        let yb: u64 = v % 0x1000;
        proof {
            vstd::arithmetic::div_mod::lemma_multiply_divide_lt(v as int, 0x4000000000, 0x4000000);
        }
        Ok(Position { x: sext26(xb), y: sext12(yb), z: sext26(zb) })
    }
}

/// Position round trip: for `x`,`z` in `[-2^25, 2^25)` and `y` in
/// `[-2^11, 2^11)`, decoding the 8-byte wire form (with any trailing
/// bytes) yields the same coordinates.
pub proof fn lemma_position_round_trip(p: Position, rest: Seq<u8>)
    requires
        -0x2000000 <= p.x < 0x2000000,
        -0x2000000 <= p.z < 0x2000000,
        -0x800 <= p.y < 0x800,
    ensures
        Position::dec(p.wire() + rest) == Ok::<(Position, nat), DecodeError>((p, 8)),
{
    lemma_pow256_values();
    lemma_sbits_round_trip(p.x as int, 0x4000000);
    lemma_sbits_round_trip(p.z as int, 0x4000000);
    lemma_sbits_round_trip(p.y as int, 0x1000);
    let xb = sbits(p.x as int, 0x4000000);
    let zb = sbits(p.z as int, 0x4000000);
    let yb = sbits(p.y as int, 0x1000);
    let v = position_packed(p);
    assert(v < pow256(8));
    lemma_be_round_trip(v, 8);
    let w = p.wire() + rest;
    assert(w.take(8) =~= p.wire());
    assert(v == xb * 0x4000000000 + (zb * 0x1000 + yb));
    vstd::arithmetic::div_mod::lemma_fundamental_div_mod_converse(
        v as int,
        0x4000000000,
        xb as int,
        (zb * 0x1000 + yb) as int,
    );
    vstd::arithmetic::div_mod::lemma_fundamental_div_mod_converse(
        v as int,
        0x1000,
        (xb * 0x4000000 + zb) as int,
        yb as int,
    );
    vstd::arithmetic::div_mod::lemma_fundamental_div_mod_converse(
        (xb * 0x4000000 + zb) as int,
        0x4000000,
        xb as int,
        zb as int,
    );
}

/// A rotation angle, quantized to 256 steps per turn: the wire form is the
/// single step-count byte. The (lossy, floating-point) conversion between
/// radians and steps belongs to the caller; the codec carries the byte.
#[derive(Copy, Clone, Default, Debug, PartialEq, Eq, PartialOrd, Ord, Structural)]
pub struct Angle(pub u8);

impl MinecraftIo for Angle {
    type M = Angle;

    open spec fn model(&self) -> Angle {
        *self
    }

    open spec fn wf(&self) -> bool {
        true
    }

    open spec fn wire(&self) -> Seq<u8> {
        seq![self.0]
    }

    open spec fn dec(s: Seq<u8>) -> Result<(Angle, nat), DecodeError> {
        if s.len() == 0 {
            Err(DecodeError::NotEnoughBytes)
        } else {
            Ok((Angle(s[0]), 1))
        }
    }

    fn minecraft_write(&self, writer: &mut Vec<u8>) {
        writer.push(self.0);
        proof {
            assert(writer@ =~= old(writer)@ + self.wire());
        }
    }

    fn minecraft_read(reader: &mut Reader) -> (r: Result<Self, DecodeError>) {
        match reader.read_one() {
            Some(b) => Ok(Angle(b)),
            None => Err(DecodeError::NotEnoughBytes),
        }
    }
}

/// A 128-bit universally unique identifier, big-endian on the wire.
#[derive(Copy, Clone, Default, Debug, PartialEq, Eq, Hash, Structural)]
pub struct Uuid(pub u128);

impl MinecraftIo for Uuid {
    type M = Uuid;

    open spec fn model(&self) -> Uuid {
        *self
    }

    open spec fn wf(&self) -> bool {
        true
    }

    open spec fn wire(&self) -> Seq<u8> {
        be_bytes(self.0 as nat, 16)
    }

    open spec fn dec(s: Seq<u8>) -> Result<(Uuid, nat), DecodeError> {
        if s.len() < 16 {
            Err(DecodeError::NotEnoughBytes)
        } else {
            Ok((Uuid(be_val(s.take(16)) as u128), 16))
        }
    }

    fn minecraft_write(&self, writer: &mut Vec<u8>) {
        proof {
            lemma_pow256_values();
        }
        crate::codec::write_be(writer, self.0, 16);
    }

    fn minecraft_read(reader: &mut Reader) -> (r: Result<Self, DecodeError>) {
        proof {
            lemma_pow256_values();
        }
        match crate::codec::read_be(reader, 16) {
            Ok(v) => Ok(Uuid(v)),
            Err(e) => Err(e),
        }
    }
}

/// A namespaced identifier: a length-prefixed UTF-8 string on the wire.
#[derive(Clone, Default, Debug, PartialEq, Eq)]
pub struct Identifier(pub String);

impl MinecraftIo for Identifier {
    type M = Seq<char>;

    open spec fn model(&self) -> Seq<char> {
        self.0@
    }

    open spec fn wf(&self) -> bool {
        self.0.wf()
    }

    open spec fn wire(&self) -> Seq<u8> {
        self.0.wire()
    }

    open spec fn dec(s: Seq<u8>) -> Result<(Seq<char>, nat), DecodeError> {
        <String as MinecraftIo>::dec(s)
    }

    fn minecraft_write(&self, writer: &mut Vec<u8>) {
        self.0.minecraft_write(writer);
    }

    fn minecraft_read(reader: &mut Reader) -> (r: Result<Self, DecodeError>) {
        match <String as MinecraftIo>::minecraft_read(reader) {
            Ok(s) => Ok(Identifier(s)),
            Err(e) => Err(e),
        }
    }
}

/// A chat message: a length-prefixed UTF-8 string on the wire.
#[derive(Clone, Default, Debug, PartialEq, Eq)]
pub struct Chat(pub String);

impl MinecraftIo for Chat {
    type M = Seq<char>;

    open spec fn model(&self) -> Seq<char> {
        self.0@
    }

    open spec fn wf(&self) -> bool {
        self.0.wf()
    }

    open spec fn wire(&self) -> Seq<u8> {
        self.0.wire()
    }

    open spec fn dec(s: Seq<u8>) -> Result<(Seq<char>, nat), DecodeError> {
        <String as MinecraftIo>::dec(s)
    }

    fn minecraft_write(&self, writer: &mut Vec<u8>) {
        self.0.minecraft_write(writer);
    }

    fn minecraft_read(reader: &mut Reader) -> (r: Result<Self, DecodeError>) {
        match <String as MinecraftIo>::minecraft_read(reader) {
            Ok(s) => Ok(Chat(s)),
            Err(e) => Err(e),
        }
    }
}

/// A trailing blob: raw bytes with no length prefix, extending to the end
/// of the enclosing frame.
#[derive(Clone, Debug, Default, PartialEq, Eq)]
pub struct ByteArray(pub Vec<u8>);

impl ByteArray {
    /// An empty blob.
    pub fn new() -> (r: Self)
        ensures
            r.0@ == Seq::<u8>::empty(),
    {
        ByteArray(Vec::new())
    }

    /// The underlying bytes.
    pub fn into_inner(self) -> (r: Vec<u8>)
        ensures
            r@ == self.0@,
    {
        self.0
    }
}

impl MinecraftIo for ByteArray {
    type M = Seq<u8>;

    open spec fn model(&self) -> Seq<u8> {
        self.0@
    }

    open spec fn wf(&self) -> bool {
        true
    }

    open spec fn wire(&self) -> Seq<u8> {
        self.0@
    }

    /// Consumes everything that is left.
    open spec fn dec(s: Seq<u8>) -> Result<(Seq<u8>, nat), DecodeError> {
        Ok((s, s.len()))
    }

    fn minecraft_write(&self, writer: &mut Vec<u8>) {
        writer.extend_from_slice(self.0.as_slice());
    }

    fn minecraft_read(reader: &mut Reader) -> (r: Result<Self, DecodeError>) {
        let n = reader.remaining();
        match reader.take(n) {
            Some(bytes) => {
                proof {
                    assert(old(reader).rest().take(n as int) =~= old(reader).rest());
                }
                Ok(ByteArray(bytes))
            },
            None => {
                proof {
                    assert(false);
                }
                Err(DecodeError::NotEnoughBytes)
            },
        }
    }
}

/// An inventory slot: empty, or an item with id, count and an optional
/// compound tag. The wire form is a presence byte, then (only when
/// present) the item id, the count byte, and either the end-tag byte 0
/// (no compound tag) or exactly one compound tag.
#[derive(Clone, Debug, Default, PartialEq)]
pub enum Slot {
    #[default]
    Nothing,
    Item { id: VarInt, count: i8, nbt: Option<Nbt> },
}

impl MinecraftIo for Slot {
    type M = Option<(VarInt, i8, Option<Seq<u8>>)>;

    open spec fn model(&self) -> Option<(VarInt, i8, Option<Seq<u8>>)> {
        match self {
            Slot::Nothing => None,
            Slot::Item { id, count, nbt } => Some(
                (
                    *id,
                    *count,
                    match nbt {
                        Option::None => None,
                        Option::Some(n) => Some(n.0@),
                    },
                ),
            ),
        }
    }

    open spec fn wf(&self) -> bool {
        match self {
            Slot::Nothing => true,
            Slot::Item { id, count, nbt } => match nbt {
                Option::None => true,
                Option::Some(n) => n.wf(),
            },
        }
    }

    open spec fn wire(&self) -> Seq<u8> {
        match self {
            Slot::Nothing => seq![0u8],
            Slot::Item { id, count, nbt } => seq![1u8] + varint_wire(id.0) + be_bytes(
                sbits(*count as int, 0x100),
                1,
            ) + (match nbt {
                Option::None => seq![0u8],
                Option::Some(n) => n.0@,
            }),
        }
    }

    open spec fn dec(s: Seq<u8>) -> Result<(Self::M, nat), DecodeError> {
        match <bool as MinecraftIo>::dec(s) {
            Err(e) => Err(e),
            Ok((present, n1)) => if !present {
                Ok((None, n1))
            } else {
                match <VarInt as MinecraftIo>::dec(s.skip(n1 as int)) {
                    Err(e) => Err(e),
                    Ok((id, n2)) => match <i8 as MinecraftIo>::dec(s.skip(n1 + n2 as int)) {
                        Err(e) => Err(e),
                        Ok((count, n3)) => {
                            let t = s.skip(n1 + n2 + n3 as int);
                            if t.len() == 0 {
                                Err(DecodeError::NotEnoughBytes)
                            } else if t[0] == 0 {
                                Ok((Some((id, count, None)), (n1 + n2 + n3 + 1) as nat))
                            } else {
                                match <Nbt as MinecraftIo>::dec(t) {
                                    Err(e) => Err(e),
                                    Ok((tag, n4)) => Ok(
                                        (Some((id, count, Some(tag))), (n1 + n2 + n3 + n4) as nat),
                                    ),
                                }
                            }
                        },
                    },
                }
            },
        }
    }

    fn minecraft_write(&self, writer: &mut Vec<u8>) {
        match self {
            Slot::Nothing => {
                writer.push(0u8);
                proof {
                    assert(writer@ =~= old(writer)@ + self.wire());
                }
            },
            Slot::Item { id, count, nbt } => {
                writer.push(1u8);
                id.minecraft_write(writer);
                count.minecraft_write(writer);
                match nbt {
                    Option::None => writer.push(0u8),
                    Option::Some(n) => n.minecraft_write(writer),
                }
                proof {
                    assert(writer@ =~= old(writer)@ + self.wire());
                }
            },
        }
    }

    fn minecraft_read(reader: &mut Reader) -> (r: Result<Self, DecodeError>) {
        let ghost s0 = reader.rest();
        let ghost p0 = reader.pos;
        let present = match <bool as MinecraftIo>::minecraft_read(reader) {
            Ok(b) => b,
            Err(e) => {
                return Err(e);
            },
        };
        if !present {
            return Ok(Slot::Nothing);
        }
        proof {
            assert(reader.rest() =~= s0.skip(reader.pos - p0));
        }
        let ghost n1 = (reader.pos - p0) as nat;
        let id = match <VarInt as MinecraftIo>::minecraft_read(reader) {
            Ok(v) => v,
            Err(e) => {
                return Err(e);
            },
        };
        proof {
            assert(reader.rest() =~= s0.skip(reader.pos - p0));
        }
        let ghost n2 = (reader.pos - p0 - n1) as nat;
        let count = match <i8 as MinecraftIo>::minecraft_read(reader) {
            Ok(v) => v,
            Err(e) => {
                return Err(e);
            },
        };
        proof {
            assert(reader.rest() =~= s0.skip(reader.pos - p0));
        }
        let b = match reader.peek() {
            Some(b) => b,
            None => {
                return Err(DecodeError::NotEnoughBytes);
            },
        };
        if b == 0 {
            let _ = reader.read_one();
            Ok(Slot::Item { id, count, nbt: None })
        } else {
            match <Nbt as MinecraftIo>::minecraft_read(reader) {
                Ok(tag) => Ok(Slot::Item { id, count, nbt: Some(tag) }),
                Err(e) => Err(e),
            }
        }
    }
}

/// Slot round trip: a well-formed slot decodes back to its model and
/// consumes exactly its wire form, whatever bytes follow. The empty slot
/// stays empty, an absent compound tag stays absent — none materializes —
/// and a present tag comes back byte-identical.
pub proof fn lemma_slot_round_trip(s: &Slot, rest: Seq<u8>)
    requires
        s.wf(),
    ensures
        Slot::dec(s.wire() + rest) == Ok::<(<Slot as MinecraftIo>::M, nat), DecodeError>(
            (s.model(), s.wire().len() as nat),
        ),
{
    lemma_pow256_values();
    let w = s.wire() + rest;
    match s {
        Slot::Nothing => {
            assert(w[0] == 0);
        },
        Slot::Item { id, count, nbt } => {
            let idw = varint_wire(id.0);
            let cntw = be_bytes(sbits(*count as int, 0x100), 1);
            let nbtw = match nbt {
                Option::None => seq![0u8],
                Option::Some(nb) => nb.0@,
            };
            let tail1 = idw + (cntw + (nbtw + rest));
            assert(w =~= seq![1u8] + tail1);
            assert(w[0] == 1);
            assert(w.skip(1) =~= tail1);
            crate::varint::lemma_varint_round_trip(id.0, cntw + (nbtw + rest));
            assert(i32_of_bits(u32_bits(id.0)) == id.0 as int);
            let n2 = idw.len() as nat;
            assert(w.skip(1).skip(n2 as int) =~= cntw + (nbtw + rest));
            assert(w.skip(1 + n2 as int) =~= cntw + (nbtw + rest));
            lemma_sbits_round_trip(*count as int, 0x100);
            lemma_be_round_trip(sbits(*count as int, 0x100), 1);
            assert((cntw + (nbtw + rest)).take(1) =~= cntw);
            let t = w.skip(1 + n2 as int + 1);
            assert(t =~= nbtw + rest);
            match nbt {
                Option::None => {
                    assert(t[0] == 0);
                    assert(s.wire().len() == 1 + n2 as int + 1 + 1);
                },
                Option::Some(nb) => {
                    assert(nbt_extent(nb.0@) == Some(nb.0@.len() as nat));
                    assert(nb.0@.len() >= 3);
                    assert(nb.0@[0] == 10);
                    assert(t[0] == 10);
                    assert(t =~= nb.wire() + rest);
                    crate::nbtio::lemma_nbt_round_trip(nb, rest);
                    assert(s.wire().len() == 1 + n2 as int + 1 + nb.0@.len());
                },
            }
        },
    }
}

/// A wire type that can carry an element count: the length prefix of the
/// length-prefixed arrays.
pub trait Index: MinecraftIo {
    /// The count this value denotes.
    spec fn spec_index(&self) -> int;

    /// The count a model denotes.
    spec fn model_index(m: Self::M) -> int;

    /// The largest count the prefix can carry.
    spec fn max_index() -> int;

    /// The prefix value that denotes a given count.
    spec fn spec_of_index(n: int) -> Self;

    /// The model of a value denotes the value's own count, and a count
    /// never exceeds what the prefix can carry nor the platform's
    /// addressable size.
    proof fn lemma_index_model(&self)
        ensures
            Self::model_index(self.model()) == self.spec_index(),
            self.spec_index() <= Self::max_index(),
            self.spec_index() <= usize::MAX,
    ;

    /// The count this value denotes, when it is a count at all.
    fn checked_index(self) -> (r: Option<usize>)
        ensures
            match r {
                Some(i) => i as int == self.spec_index() && 0 <= self.spec_index(),
                None => self.spec_index() < 0,
            },
    ;

    /// The count this value denotes. The caller answers for the value
    /// denoting a real count.
    fn into_index(self) -> (r: usize)
        requires
            0 <= self.spec_index() <= usize::MAX,
        ensures
            r as int == self.spec_index(),
    ;

    /// The prefix value for a given count.
    fn to_value(index: usize) -> (r: Self)
        requires
            index as int <= Self::max_index(),
        ensures
            r == Self::spec_of_index(index as int),
            r.wf(),
            r.spec_index() == index as int,
    ;
}

impl Index for VarInt {
    open spec fn spec_index(&self) -> int {
        self.0 as int
    }

    open spec fn model_index(m: VarInt) -> int {
        m.0 as int
    }

    open spec fn max_index() -> int {
        0x7fffffff
    }

    open spec fn spec_of_index(n: int) -> VarInt {
        VarInt(n as i32)
    }

    proof fn lemma_index_model(&self) {
    }

    fn checked_index(self) -> (r: Option<usize>) {
        if self.0 >= 0 {
            Some(self.0 as usize)
        } else {
            None
        }
    }

    fn into_index(self) -> (r: usize) {
        self.0 as usize
    }

    fn to_value(index: usize) -> (r: Self) {
        VarInt(index as i32)
    }
}

/// A sequence whose wire form is an element count (of prefix type `T`)
/// followed by that many elements.
#[derive(Debug)]
pub struct LengthPrefixedArray<T: Index, U> {
    pub value: Vec<U>,
    pub _index: PhantomData<T>,
}

impl<T: Index, U> LengthPrefixedArray<T, U> {
    /// Wrap a vector of elements.
    pub fn from_vec(value: Vec<U>) -> (r: Self)
        ensures
            r.value@ == value@,
    {
        LengthPrefixedArray { value, _index: PhantomData }
    }
}

impl<T: Index, U: MinecraftIo> MinecraftIo for LengthPrefixedArray<T, U> {
    type M = Seq<U::M>;

    open spec fn model(&self) -> Seq<U::M> {
        models_of(self.value@)
    }

    open spec fn wf(&self) -> bool {
        all_wf(self.value@) && self.value@.len() <= T::max_index()
    }

    open spec fn wire(&self) -> Seq<u8> {
        T::spec_of_index(self.value@.len() as int).wire() + wire_concat(self.value@)
    }

    open spec fn dec(s: Seq<u8>) -> Result<(Seq<U::M>, nat), DecodeError> {
        match T::dec(s) {
            Err(e) => Err(e),
            Ok((m, n)) => {
                let count = T::model_index(m);
                if count < 0 {
                    Err(DecodeError::BadLength)
                } else {
                    match seq_dec_n::<U>(s.skip(n as int), count as nat) {
                        Err(e) => Err(e),
                        Ok((ms, k)) => Ok((ms, (n + k) as nat)),
                    }
                }
            },
        }
    }

    fn minecraft_write(&self, writer: &mut Vec<u8>) {
        let prefix = T::to_value(self.value.len());
        prefix.minecraft_write(writer);
        write_all(&self.value, writer);
        proof {
            assert(writer@ =~= old(writer)@ + self.wire());
        }
    }

    fn minecraft_read(reader: &mut Reader) -> (r: Result<Self, DecodeError>) {
        let ghost s0 = reader.rest();
        let ghost p0 = reader.pos;
        let prefix = match T::minecraft_read(reader) {
            Ok(v) => v,
            Err(e) => {
                return Err(e);
            },
        };
        proof {
            prefix.lemma_index_model();
        }
        let count = match prefix.checked_index() {
            Some(c) => c,
            None => {
                return Err(DecodeError::BadLength);
            },
        };
        let ghost s1 = reader.rest();
        let ghost p1 = reader.pos;
        proof {
            assert(s1 =~= s0.skip(p1 - p0));
        }
        let mut out: Vec<U> = Vec::new();
        let mut i: usize = 0;
        while i < count
            invariant
                reader.wf(),
                reader.data@ == old(reader).data@,
                p0 == old(reader).pos,
                s0 == old(reader).rest(),
                p0 <= p1 <= reader.pos,
                i <= count,
                count as int == T::model_index(prefix.model()),
                count <= T::max_index(),
                T::dec(s0) == Ok::<(T::M, nat), DecodeError>((prefix.model(), (p1 - p0) as nat)),
                s1 == s0.skip(p1 - p0),
                reader.rest() == s1.skip(reader.pos - p1),
                all_wf(out@),
                out@.len() == i,
                match seq_dec_n::<U>(reader.rest(), (count - i) as nat) {
                    Ok(p) => seq_dec_n::<U>(s1, count as nat) == Ok::<(Seq<U::M>, nat), DecodeError>(
                        (models_of(out@) + p.0, (reader.pos - p1 + p.1) as nat),
                    ),
                    Err(e) => seq_dec_n::<U>(s1, count as nat) == Err::<(Seq<U::M>, nat), DecodeError>(
                        e,
                    ),
                },
            decreases count - i,
        {
            let ghost rest_pre = reader.rest();
            let ghost ppre = reader.pos;
            let elem = match U::minecraft_read(reader) {
                Ok(v) => v,
                Err(e) => {
                    proof {
                        assert(seq_dec_n::<U>(rest_pre, (count - i) as nat) == Err::<
                            (Seq<U::M>, nat),
                            DecodeError,
                        >(e));
                    }
                    return Err(e);
                },
            };
            let ghost n = (reader.pos - ppre) as nat;
            let ghost out_pre = out@;
            out.push(elem);
            i = i + 1;
            proof {
                assert(reader.rest() =~= rest_pre.skip(n as int));
                assert(reader.rest() =~= s1.skip(reader.pos - p1));
                assert(n <= rest_pre.len());
                assert(seq_dec_n::<U>(rest_pre, (count - i + 1) as nat) == (match seq_dec_n::<U>(
                    rest_pre.skip(n as int),
                    (count - i) as nat,
                ) {
                    Ok((ms, k)) => Ok::<(Seq<U::M>, nat), DecodeError>(
                        (seq![elem.model()] + ms, (n + k) as nat),
                    ),
                    Err(e) => Err(e),
                }));
                assert(models_of(out@) =~= models_of(out_pre).push(elem.model()));
                match seq_dec_n::<U>(reader.rest(), (count - i) as nat) {
                    Ok(p) => {
                        assert(models_of(out_pre) + (seq![elem.model()] + p.0) =~= models_of(out@)
                            + p.0);
                    },
                    Err(_) => {},
                }
            }
        }
        proof {
            assert(seq_dec_n::<U>(reader.rest(), 0) == Ok::<(Seq<U::M>, nat), DecodeError>(
                (Seq::empty(), 0),
            ));
            assert(models_of(out@) + Seq::<U::M>::empty() =~= models_of(out@));
        }
        Ok(LengthPrefixedArray { value: out, _index: PhantomData })
    }
}

/// A byte blob whose wire form is a byte count (of prefix type `T`)
/// followed by that many raw bytes.
#[derive(Debug)]
pub struct LengthPrefixedByteArray<T: Index> {
    pub value: Vec<u8>,
    pub _index: PhantomData<T>,
}

impl<T: Index> LengthPrefixedByteArray<T> {
    /// Wrap a byte vector.
    pub fn from_vec(value: Vec<u8>) -> (r: Self)
        ensures
            r.value@ == value@,
    {
        LengthPrefixedByteArray { value, _index: PhantomData }
    }
}

impl<T: Index> MinecraftIo for LengthPrefixedByteArray<T> {
    type M = Seq<u8>;

    open spec fn model(&self) -> Seq<u8> {
        self.value@
    }

    open spec fn wf(&self) -> bool {
        self.value@.len() <= T::max_index()
    }

    open spec fn wire(&self) -> Seq<u8> {
        T::spec_of_index(self.value@.len() as int).wire() + self.value@
    }

    open spec fn dec(s: Seq<u8>) -> Result<(Seq<u8>, nat), DecodeError> {
        match T::dec(s) {
            Err(e) => Err(e),
            Ok((m, n)) => {
                let count = T::model_index(m);
                if count < 0 {
                    Err(DecodeError::BadLength)
                } else if n + count > s.len() {
                    Err(DecodeError::NotEnoughBytes)
                } else {
                    Ok((s.subrange(n as int, n + count), (n + count) as nat))
                }
            },
        }
    }

    fn minecraft_write(&self, writer: &mut Vec<u8>) {
        let prefix = T::to_value(self.value.len());
        prefix.minecraft_write(writer);
        writer.extend_from_slice(self.value.as_slice());
        proof {
            assert(writer@ =~= old(writer)@ + self.wire());
        }
    }

    fn minecraft_read(reader: &mut Reader) -> (r: Result<Self, DecodeError>) {
        let ghost s0 = reader.rest();
        let ghost p0 = reader.pos;
        let prefix = match T::minecraft_read(reader) {
            Ok(v) => v,
            Err(e) => {
                return Err(e);
            },
        };
        proof {
            prefix.lemma_index_model();
        }
        let count = match prefix.checked_index() {
            Some(c) => c,
            None => {
                return Err(DecodeError::BadLength);
            },
        };
        let ghost n = (reader.pos - p0) as nat;
        let bytes = match reader.take(count) {
            Some(b) => b,
            None => {
                return Err(DecodeError::NotEnoughBytes);
            },
        };
        proof {
            assert(bytes@ =~= s0.subrange(n as int, n + count));
        }
        Ok(LengthPrefixedByteArray { value: bytes, _index: PhantomData })
    }
}

/// Round trip of the quantized angle: one byte, exactly.
pub proof fn lemma_angle_round_trip(v: Angle, rest: Seq<u8>)
    ensures
        v.wire().len() == 1,
        Angle::dec(v.wire() + rest) == Ok::<(Angle, nat), DecodeError>((v, 1)),
{
    assert((v.wire() + rest)[0] == v.0);
}

/// Round trip of the 16-byte uuid field.
pub proof fn lemma_uuid_round_trip(v: Uuid, rest: Seq<u8>)
    ensures
        v.wire().len() == 16,
        Uuid::dec(v.wire() + rest) == Ok::<(Uuid, nat), DecodeError>((v, 16)),
{
    lemma_pow256_values();
    lemma_be_round_trip(v.0 as nat, 16);
    assert((v.wire() + rest).take(16) =~= v.wire());
}

} // verus!
