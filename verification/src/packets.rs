//! The packet catalog's records: each packet is a plain record of
//! field-codec-capable fields, with a dedicated decode routine, because
//! some fields are present or counted according to an earlier field of the
//! same packet — a packet decode is not a fold over independent fields.

use vstd::prelude::*;
use crate::codec::{
    MinecraftIo, wire_concat, seq_dec_n, lemma_bool_round_trip, lemma_u16_round_trip,
    lemma_i32_round_trip, lemma_i64_round_trip, lemma_varint_field_round_trip,
    lemma_i32_seq_round_trip, lemma_string_round_trip,
};
use crate::types::{lemma_angle_round_trip, lemma_uuid_round_trip};
use crate::error::DecodeError;
use crate::reader::Reader;
use crate::types::{Angle, Uuid};
use crate::varint::VarInt;

verus! {

/// A packet body: symmetric write/read against exact byte specifications,
/// parameterized by the negotiated protocol version (the catalog of this
/// crate does not vary by version; the parameter is threaded through for
/// packets that will).
pub trait PacketIo: Sized {
    /// The mathematical model of a packet.
    type M;

    /// The model of this packet.
    spec fn model(&self) -> Self::M;

    /// What the wire format can carry (length bounds, and fields that must
    /// agree with the sibling field that announces them).
    spec fn wf(&self) -> bool;

    /// The exact body encoding.
    spec fn wire(&self) -> Seq<u8>;

    /// The body decode function.
    spec fn dec(s: Seq<u8>) -> Result<(Self::M, nat), DecodeError>;

    /// Append this packet's body to the sink.
    fn minecraft_write(&self, writer: &mut Vec<u8>, protocol_version: i32)
        requires
            self.wf(),
        ensures
            final(writer)@ == old(writer)@ + self.wire(),
    ;

    /// Decode one body from the source: exactly what `Self::dec` says of
    /// the unconsumed bytes.
    fn minecraft_read(reader: &mut Reader, protocol_version: i32) -> (r: Result<Self, DecodeError>)
        requires
            old(reader).wf(),
        ensures
            final(reader).wf(),
            final(reader).data@ == old(reader).data@,
            final(reader).pos >= old(reader).pos,
            match r {
                Ok(v) => v.wf() && Self::dec(old(reader).rest()) == Ok::<(Self::M, nat), DecodeError>(
                    (v.model(), (final(reader).pos - old(reader).pos) as nat),
                ),
                Err(e) => Self::dec(old(reader).rest()) == Err::<(Self::M, nat), DecodeError>(e),
            },
    ;
}

/// Opens a connection: the declared protocol version, the server address
/// and port, and the state the connection moves to next (1 for status
/// queries, 2 for login).
#[derive(Clone, Debug, Default, PartialEq)]
pub struct Handshake {
    pub protocol_version: VarInt,
    pub server_address: String,
    pub server_port: u16,
    pub next_state: VarInt,
}

impl PacketIo for Handshake {
    type M = (VarInt, Seq<char>, u16, VarInt);

    open spec fn model(&self) -> (VarInt, Seq<char>, u16, VarInt) {
        (self.protocol_version, self.server_address@, self.server_port, self.next_state)
    }

    open spec fn wf(&self) -> bool {
        &&& self.server_address.wf()
        &&& (self.next_state.0 == 1 || self.next_state.0 == 2)
    }

    open spec fn wire(&self) -> Seq<u8> {
        self.protocol_version.wire() + self.server_address.wire() + self.server_port.wire()
            + self.next_state.wire()
    }

    open spec fn dec(s: Seq<u8>) -> Result<(Self::M, nat), DecodeError> {
        match <VarInt as MinecraftIo>::dec(s) {
            Err(e) => Err(e),
            Ok((pv, n1)) => match <String as MinecraftIo>::dec(s.skip(n1 as int)) {
                Err(e) => Err(e),
                Ok((addr, n2)) => match <u16 as MinecraftIo>::dec(s.skip(n1 + n2 as int)) {
                    Err(e) => Err(e),
                    Ok((port, n3)) => match <VarInt as MinecraftIo>::dec(
                        s.skip(n1 + n2 + n3 as int),
                    ) {
                        Err(e) => Err(e),
                        Ok((ns, n4)) => if ns.0 == 1 || ns.0 == 2 {
                            Ok(((pv, addr, port, ns), (n1 + n2 + n3 + n4) as nat))
                        } else {
                            Err(DecodeError::InvalidDiscriminant)
                        },
                    },
                },
            },
        }
    }

    fn minecraft_write(&self, writer: &mut Vec<u8>, protocol_version: i32) {
        self.protocol_version.minecraft_write(writer);
        self.server_address.minecraft_write(writer);
        self.server_port.minecraft_write(writer);
        self.next_state.minecraft_write(writer);
        proof {
            assert(writer@ =~= old(writer)@ + self.wire());
        }
    }

    fn minecraft_read(reader: &mut Reader, protocol_version: i32) -> (r: Result<Self, DecodeError>) {
        let ghost s0 = reader.rest();
        let ghost p0 = reader.pos;
        let pv = match <VarInt as MinecraftIo>::minecraft_read(reader) {
            Ok(v) => v,
            Err(e) => {
                return Err(e);
            },
        };
        proof {
            assert(reader.rest() =~= s0.skip(reader.pos - p0));
        }
        let addr = match <String as MinecraftIo>::minecraft_read(reader) {
            Ok(v) => v,
            Err(e) => {
                return Err(e);
            },
        };
        proof {
            assert(reader.rest() =~= s0.skip(reader.pos - p0));
        }
        let port = match <u16 as MinecraftIo>::minecraft_read(reader) {
            Ok(v) => v,
            Err(e) => {
                return Err(e);
            },
        };
        proof {
            assert(reader.rest() =~= s0.skip(reader.pos - p0));
        }
        let ns = match <VarInt as MinecraftIo>::minecraft_read(reader) {
            Ok(v) => v,
            Err(e) => {
                return Err(e);
            },
        };
        if ns.0 == 1 || ns.0 == 2 {
            Ok(Handshake { protocol_version: pv, server_address: addr, server_port: port, next_state: ns })
        } else {
            Err(DecodeError::InvalidDiscriminant)
        }
    }
}

/// Asks for the server's status; carries no fields.
#[derive(Copy, Clone, Debug, Default, PartialEq, Eq, Structural)]
pub struct StatusRequest {}

impl PacketIo for StatusRequest {
    type M = ();

    open spec fn model(&self) -> () {
        ()
    }

    open spec fn wf(&self) -> bool {
        true
    }

    open spec fn wire(&self) -> Seq<u8> {
        Seq::empty()
    }

    open spec fn dec(s: Seq<u8>) -> Result<((), nat), DecodeError> {
        Ok(((), 0))
    }

    fn minecraft_write(&self, writer: &mut Vec<u8>, protocol_version: i32) {
        proof {
            assert(writer@ + Seq::<u8>::empty() =~= writer@);
        }
    }

    fn minecraft_read(reader: &mut Reader, protocol_version: i32) -> (r: Result<Self, DecodeError>) {
        Ok(StatusRequest {})
    }
}

/// The server's status, as one JSON document in a string field.
#[derive(Clone, Debug, Default, PartialEq)]
pub struct StatusResponse {
    pub json_data: String,
}

impl PacketIo for StatusResponse {
    type M = Seq<char>;

    open spec fn model(&self) -> Seq<char> {
        self.json_data@
    }

    open spec fn wf(&self) -> bool {
        self.json_data.wf()
    }

    open spec fn wire(&self) -> Seq<u8> {
        self.json_data.wire()
    }

    open spec fn dec(s: Seq<u8>) -> Result<(Seq<char>, nat), DecodeError> {
        <String as MinecraftIo>::dec(s)
    }

    fn minecraft_write(&self, writer: &mut Vec<u8>, protocol_version: i32) {
        self.json_data.minecraft_write(writer);
    }

    fn minecraft_read(reader: &mut Reader, protocol_version: i32) -> (r: Result<Self, DecodeError>) {
        match <String as MinecraftIo>::minecraft_read(reader) {
            Ok(s) => Ok(StatusResponse { json_data: s }),
            Err(e) => Err(e),
        }
    }
}

/// A liveness probe from the client: an opaque 64-bit payload the server
/// echoes back.
#[derive(Copy, Clone, Debug, Default, PartialEq, Eq, Structural)]
pub struct StatusPing {
    pub payload: i64,
}

impl PacketIo for StatusPing {
    type M = i64;

    open spec fn model(&self) -> i64 {
        self.payload
    }

    open spec fn wf(&self) -> bool {
        true
    }

    open spec fn wire(&self) -> Seq<u8> {
        self.payload.wire()
    }

    open spec fn dec(s: Seq<u8>) -> Result<(i64, nat), DecodeError> {
        <i64 as MinecraftIo>::dec(s)
    }

    fn minecraft_write(&self, writer: &mut Vec<u8>, protocol_version: i32) {
        self.payload.minecraft_write(writer);
    }

    fn minecraft_read(reader: &mut Reader, protocol_version: i32) -> (r: Result<Self, DecodeError>) {
        match <i64 as MinecraftIo>::minecraft_read(reader) {
            Ok(v) => Ok(StatusPing { payload: v }),
            Err(e) => Err(e),
        }
    }
}

/// The echo of a ping's payload.
#[derive(Copy, Clone, Debug, Default, PartialEq, Eq, Structural)]
pub struct StatusPong {
    pub payload: i64,
}

impl PacketIo for StatusPong {
    type M = i64;

    open spec fn model(&self) -> i64 {
        self.payload
    }

    open spec fn wf(&self) -> bool {
        true
    }

    open spec fn wire(&self) -> Seq<u8> {
        self.payload.wire()
    }

    open spec fn dec(s: Seq<u8>) -> Result<(i64, nat), DecodeError> {
        <i64 as MinecraftIo>::dec(s)
    }

    fn minecraft_write(&self, writer: &mut Vec<u8>, protocol_version: i32) {
        self.payload.minecraft_write(writer);
    }

    fn minecraft_read(reader: &mut Reader, protocol_version: i32) -> (r: Result<Self, DecodeError>) {
        match <i64 as MinecraftIo>::minecraft_read(reader) {
            Ok(v) => Ok(StatusPong { payload: v }),
            Err(e) => Err(e),
        }
    }
}

/// Ends the connection, with a human-readable reason.
#[derive(Clone, Debug, Default, PartialEq)]
pub struct Disconnect {
    pub reason: String,
}

impl PacketIo for Disconnect {
    type M = Seq<char>;

    open spec fn model(&self) -> Seq<char> {
        self.reason@
    }

    open spec fn wf(&self) -> bool {
        self.reason.wf()
    }

    open spec fn wire(&self) -> Seq<u8> {
        self.reason.wire()
    }

    open spec fn dec(s: Seq<u8>) -> Result<(Seq<char>, nat), DecodeError> {
        <String as MinecraftIo>::dec(s)
    }

    fn minecraft_write(&self, writer: &mut Vec<u8>, protocol_version: i32) {
        self.reason.minecraft_write(writer);
    }

    fn minecraft_read(reader: &mut Reader, protocol_version: i32) -> (r: Result<Self, DecodeError>) {
        match <String as MinecraftIo>::minecraft_read(reader) {
            Ok(s) => Ok(Disconnect { reason: s }),
            Err(e) => Err(e),
        }
    }
}

/// Completes a login: the player's uuid and name. Receiving it moves the
/// connection to the play state.
#[derive(Clone, Debug, Default, PartialEq)]
pub struct LoginSuccess {
    pub uuid: Uuid,
    pub username: String,
}

impl PacketIo for LoginSuccess {
    type M = (Uuid, Seq<char>);

    open spec fn model(&self) -> (Uuid, Seq<char>) {
        (self.uuid, self.username@)
    }

    open spec fn wf(&self) -> bool {
        self.username.wf()
    }

    open spec fn wire(&self) -> Seq<u8> {
        self.uuid.wire() + self.username.wire()
    }

    open spec fn dec(s: Seq<u8>) -> Result<(Self::M, nat), DecodeError> {
        match <Uuid as MinecraftIo>::dec(s) {
            Err(e) => Err(e),
            Ok((u, n1)) => match <String as MinecraftIo>::dec(s.skip(n1 as int)) {
                Err(e) => Err(e),
                Ok((name, n2)) => Ok(((u, name), (n1 + n2) as nat)),
            },
        }
    }

    fn minecraft_write(&self, writer: &mut Vec<u8>, protocol_version: i32) {
        self.uuid.minecraft_write(writer);
        self.username.minecraft_write(writer);
        proof {
            assert(writer@ =~= old(writer)@ + self.wire());
        }
    }

    fn minecraft_read(reader: &mut Reader, protocol_version: i32) -> (r: Result<Self, DecodeError>) {
        let ghost s0 = reader.rest();
        let ghost p0 = reader.pos;
        let u = match <Uuid as MinecraftIo>::minecraft_read(reader) {
            Ok(v) => v,
            Err(e) => {
                return Err(e);
            },
        };
        proof {
            assert(reader.rest() =~= s0.skip(reader.pos - p0));
        }
        match <String as MinecraftIo>::minecraft_read(reader) {
            Ok(name) => Ok(LoginSuccess { uuid: u, username: name }),
            Err(e) => Err(e),
        }
    }
}

/// An absolute entity move with rotation.
#[derive(Copy, Clone, Debug, Default, PartialEq, Eq, Structural)]
pub struct EntityPositionAndRotation {
    pub entity_id: VarInt,
    pub x: i32,
    pub y: i32,
    pub z: i32,
    pub pitch: Angle,
    pub yaw: Angle,
}

impl PacketIo for EntityPositionAndRotation {
    type M = (VarInt, i32, i32, i32, Angle, Angle);

    open spec fn model(&self) -> Self::M {
        (self.entity_id, self.x, self.y, self.z, self.pitch, self.yaw)
    }

    open spec fn wf(&self) -> bool {
        true
    }

    open spec fn wire(&self) -> Seq<u8> {
        self.entity_id.wire() + self.x.wire() + self.y.wire() + self.z.wire() + self.pitch.wire()
            + self.yaw.wire()
    }

    open spec fn dec(s: Seq<u8>) -> Result<(Self::M, nat), DecodeError> {
        match <VarInt as MinecraftIo>::dec(s) {
            Err(e) => Err(e),
            Ok((eid, n1)) => match <(i32, i32, i32) as MinecraftIo>::dec(s.skip(n1 as int)) {
                Err(e) => Err(e),
                Ok(((x, y, z), n2)) => match <(Angle, Angle) as MinecraftIo>::dec(
                    s.skip(n1 + n2 as int),
                ) {
                    Err(e) => Err(e),
                    Ok(((pitch, yaw), n3)) => Ok(
                        ((eid, x, y, z, pitch, yaw), (n1 + n2 + n3) as nat),
                    ),
                },
            },
        }
    }

    fn minecraft_write(&self, writer: &mut Vec<u8>, protocol_version: i32) {
        self.entity_id.minecraft_write(writer);
        self.x.minecraft_write(writer);
        self.y.minecraft_write(writer);
        self.z.minecraft_write(writer);
        self.pitch.minecraft_write(writer);
        self.yaw.minecraft_write(writer);
        proof {
            assert(writer@ =~= old(writer)@ + self.wire());
        }
    }

    fn minecraft_read(reader: &mut Reader, protocol_version: i32) -> (r: Result<Self, DecodeError>) {
        let ghost s0 = reader.rest();
        let ghost p0 = reader.pos;
        let eid = match <VarInt as MinecraftIo>::minecraft_read(reader) {
            Ok(v) => v,
            Err(e) => {
                return Err(e);
            },
        };
        proof {
            assert(reader.rest() =~= s0.skip(reader.pos - p0));
        }
        let xyz = match <(i32, i32, i32) as MinecraftIo>::minecraft_read(reader) {
            Ok(v) => v,
            Err(e) => {
                return Err(e);
            },
        };
        proof {
            assert(reader.rest() =~= s0.skip(reader.pos - p0));
        }
        match <(Angle, Angle) as MinecraftIo>::minecraft_read(reader) {
            Ok((pitch, yaw)) => Ok(
                EntityPositionAndRotation {
                    entity_id: eid,
                    x: xyz.0,
                    y: xyz.1,
                    z: xyz.2,
                    pitch,
                    yaw,
                },
            ),
            Err(e) => Err(e),
        }
    }
}

/// A packet with context-dependent fields: a value that is present only
/// when the flag before it is set, and an array whose element count is the
/// field before it. Decoding threads the earlier fields into the later
/// reads.
#[derive(Clone, Debug, Default, PartialEq)]
pub struct SomethingOptional {
    pub thing_exists: bool,
    pub thing: Option<i32>,
    pub thing_count: VarInt,
    pub things: Vec<i32>,
}

impl PacketIo for SomethingOptional {
    type M = (bool, Option<i32>, VarInt, Seq<i32>);

    open spec fn model(&self) -> Self::M {
        (self.thing_exists, self.thing, self.thing_count, self.things@)
    }

    /// The announcing fields agree with what they announce.
    open spec fn wf(&self) -> bool {
        &&& self.thing_exists == self.thing is Some
        &&& self.thing_count.0 as int == self.things@.len()
        &&& 0 <= self.thing_count.0
    }

    open spec fn wire(&self) -> Seq<u8> {
        self.thing_exists.wire() + (match self.thing {
            Option::None => Seq::<u8>::empty(),
            Option::Some(v) => v.wire(),
        }) + self.thing_count.wire() + wire_concat(self.things@)
    }

    open spec fn dec(s: Seq<u8>) -> Result<(Self::M, nat), DecodeError> {
        match <bool as MinecraftIo>::dec(s) {
            Err(e) => Err(e),
            Ok((exists, n1)) => {
                let thing_r = if exists {
                    match <i32 as MinecraftIo>::dec(s.skip(n1 as int)) {
                        Err(e) => Err(e),
                        Ok((v, n)) => Ok((Some(v), n)),
                    }
                } else {
                    Ok((None::<i32>, 0nat))
                };
                match thing_r {
                    Err(e) => Err(e),
                    Ok((thing, n2)) => match <VarInt as MinecraftIo>::dec(s.skip(n1 + n2 as int)) {
                        Err(e) => Err(e),
                        Ok((count, n3)) => if count.0 < 0 {
                            Err(DecodeError::BadLength)
                        } else {
                            match seq_dec_n::<i32>(s.skip(n1 + n2 + n3 as int), count.0 as nat) {
                                Err(e) => Err(e),
                                Ok((ms, n4)) => Ok(
                                    ((exists, thing, count, ms), (n1 + n2 + n3 + n4) as nat),
                                ),
                            }
                        },
                    },
                }
            },
        }
    }

    fn minecraft_write(&self, writer: &mut Vec<u8>, protocol_version: i32) {
        self.thing_exists.minecraft_write(writer);
        match &self.thing {
            Option::None => {},
            Option::Some(v) => {
                v.minecraft_write(writer);
            },
        }
        self.thing_count.minecraft_write(writer);
        crate::codec::write_all(&self.things, writer);
        proof {
            assert(writer@ =~= old(writer)@ + self.wire());
        }
    }

    fn minecraft_read(reader: &mut Reader, protocol_version: i32) -> (r: Result<Self, DecodeError>) {
        let ghost s0 = reader.rest();
        let ghost p0 = reader.pos;
        let exists = match <bool as MinecraftIo>::minecraft_read(reader) {
            Ok(v) => v,
            Err(e) => {
                return Err(e);
            },
        };
        proof {
            assert(reader.rest() =~= s0.skip(reader.pos - p0));
        }
        let thing: Option<i32> = if exists {
            match <i32 as MinecraftIo>::minecraft_read(reader) {
                Ok(v) => Some(v),
                Err(e) => {
                    return Err(e);
                },
            }
        } else {
            None
        };
        proof {
            assert(reader.rest() =~= s0.skip(reader.pos - p0));
        }
        let count = match <VarInt as MinecraftIo>::minecraft_read(reader) {
            Ok(v) => v,
            Err(e) => {
                return Err(e);
            },
        };
        if count.0 < 0 {
            return Err(DecodeError::BadLength);
        }
        let n = count.0 as usize;
        let ghost s1 = reader.rest();
        let ghost p1 = reader.pos;
        proof {
            assert(s1 =~= s0.skip(p1 - p0));
        }
        let mut things: Vec<i32> = Vec::new();
        let mut i: usize = 0;
        while i < n
            invariant
                reader.wf(),
                reader.data@ == old(reader).data@,
                p0 == old(reader).pos,
                s0 == old(reader).rest(),
                p0 <= p1 <= reader.pos,
                i <= n,
                s1 == s0.skip(p1 - p0),
                reader.rest() == s1.skip(reader.pos - p1),
                things@.len() == i,
                Self::dec(s0) == (match seq_dec_n::<i32>(s1, n as nat) {
                    Ok((ms, k)) => Ok::<(Self::M, nat), DecodeError>(
                        ((exists, thing, count, ms), (p1 - p0 + k) as nat),
                    ),
                    Err(e) => Err(e),
                }),
                match seq_dec_n::<i32>(reader.rest(), (n - i) as nat) {
                    Ok(p) => seq_dec_n::<i32>(s1, n as nat) == Ok::<(Seq<i32>, nat), DecodeError>(
                        (things@ + p.0, (reader.pos - p1 + p.1) as nat),
                    ),
                    Err(e) => seq_dec_n::<i32>(s1, n as nat) == Err::<(Seq<i32>, nat), DecodeError>(
                        e,
                    ),
                },
            decreases n - i,
        {
            let ghost rest_pre = reader.rest();
            let ghost ppre = reader.pos;
            let elem = match <i32 as MinecraftIo>::minecraft_read(reader) {
                Ok(v) => v,
                Err(e) => {
                    proof {
                        assert(seq_dec_n::<i32>(rest_pre, (n - i) as nat) == Err::<
                            (Seq<i32>, nat),
                            DecodeError,
                        >(e));
                    }
                    return Err(e);
                },
            };
            let ghost m = (reader.pos - ppre) as nat;
            let ghost things_pre = things@;
            things.push(elem);
            i = i + 1;
            proof {
                assert(reader.rest() =~= rest_pre.skip(m as int));
                assert(reader.rest() =~= s1.skip(reader.pos - p1));
                assert(m <= rest_pre.len());
                assert(seq_dec_n::<i32>(rest_pre, (n - i + 1) as nat) == (match seq_dec_n::<i32>(
                    rest_pre.skip(m as int),
                    (n - i) as nat,
                ) {
                    Ok((ms, k)) => Ok::<(Seq<i32>, nat), DecodeError>(
                        (seq![elem] + ms, (m + k) as nat),
                    ),
                    Err(e) => Err(e),
                }));
                match seq_dec_n::<i32>(reader.rest(), (n - i) as nat) {
                    Ok(p) => {
                        assert(things_pre + (seq![elem] + p.0) =~= things@ + p.0);
                    },
                    Err(_) => {},
                }
            }
        }
        proof {
            assert(seq_dec_n::<i32>(reader.rest(), 0) == Ok::<(Seq<i32>, nat), DecodeError>(
                (Seq::empty(), 0),
            ));
            assert(things@ + Seq::<i32>::empty() =~= things@);
        }
        Ok(SomethingOptional { thing_exists: exists, thing, thing_count: count, things })
    }
}


proof fn lemma_i32_triple_round_trip(v: (i32, i32, i32), rest: Seq<u8>)
    ensures
        v.wire().len() == 12,
        <(i32, i32, i32) as MinecraftIo>::dec(v.wire() + rest) == Ok::<
            ((i32, i32, i32), nat),
            DecodeError,
        >((v, 12)),
{
    let w = v.wire() + rest;
    lemma_i32_round_trip(v.0, v.1.wire() + (v.2.wire() + rest));
    assert(w =~= v.0.wire() + (v.1.wire() + (v.2.wire() + rest)));
    assert(w.skip(4) =~= v.1.wire() + (v.2.wire() + rest));
    lemma_i32_round_trip(v.1, v.2.wire() + rest);
    assert(w.skip(8) =~= v.2.wire() + rest);
    lemma_i32_round_trip(v.2, rest);
}

proof fn lemma_angle_pair_round_trip(v: (Angle, Angle), rest: Seq<u8>)
    ensures
        v.wire().len() == 2,
        <(Angle, Angle) as MinecraftIo>::dec(v.wire() + rest) == Ok::<
            ((Angle, Angle), nat),
            DecodeError,
        >((v, 2)),
{
    let w = v.wire() + rest;
    lemma_angle_round_trip(v.0, v.1.wire() + rest);
    assert(w =~= v.0.wire() + (v.1.wire() + rest));
    assert(w.skip(1) =~= v.1.wire() + rest);
    lemma_angle_round_trip(v.1, rest);
}

/// Handshake round trip: decoding an encoded handshake (with any trailing
/// bytes) yields its model and consumes exactly its body.
pub proof fn lemma_handshake_round_trip(p: &Handshake, rest: Seq<u8>)
    requires
        p.wf(),
    ensures
        Handshake::dec(p.wire() + rest) == Ok::<(<Handshake as PacketIo>::M, nat), DecodeError>(
            (p.model(), p.wire().len() as nat),
        ),
{
    let w = p.wire() + rest;
    let w1 = p.protocol_version.wire();
    let w2 = p.server_address.wire();
    let w3 = p.server_port.wire();
    let w4 = p.next_state.wire();
    lemma_varint_field_round_trip(p.protocol_version, w2 + (w3 + (w4 + rest)));
    assert(w =~= w1 + (w2 + (w3 + (w4 + rest))));
    let n1 = w1.len();
    assert(w.skip(n1 as int) =~= w2 + (w3 + (w4 + rest)));
    lemma_string_round_trip(&p.server_address, w3 + (w4 + rest));
    let n2 = w2.len();
    assert(w.skip(n1 as int + n2 as int) =~= w3 + (w4 + rest));
    lemma_u16_round_trip(p.server_port, w4 + rest);
    assert(w.skip(n1 as int + n2 as int + 2) =~= w4 + rest);
    lemma_varint_field_round_trip(p.next_state, rest);
}

/// Status request round trip: no fields, no bytes.
pub proof fn lemma_status_request_round_trip(p: &StatusRequest, rest: Seq<u8>)
    ensures
        StatusRequest::dec(p.wire() + rest) == Ok::<
            (<StatusRequest as PacketIo>::M, nat),
            DecodeError,
        >((p.model(), p.wire().len() as nat)),
{
}

/// Status response round trip.
pub proof fn lemma_status_response_round_trip(p: &StatusResponse, rest: Seq<u8>)
    requires
        p.wf(),
    ensures
        StatusResponse::dec(p.wire() + rest) == Ok::<
            (<StatusResponse as PacketIo>::M, nat),
            DecodeError,
        >((p.model(), p.wire().len() as nat)),
{
    lemma_string_round_trip(&p.json_data, rest);
}

/// Status ping round trip.
pub proof fn lemma_status_ping_round_trip(p: &StatusPing, rest: Seq<u8>)
    ensures
        StatusPing::dec(p.wire() + rest) == Ok::<(<StatusPing as PacketIo>::M, nat), DecodeError>(
            (p.model(), p.wire().len() as nat),
        ),
{
    lemma_i64_round_trip(p.payload, rest);
}

/// Status pong round trip.
pub proof fn lemma_status_pong_round_trip(p: &StatusPong, rest: Seq<u8>)
    ensures
        StatusPong::dec(p.wire() + rest) == Ok::<(<StatusPong as PacketIo>::M, nat), DecodeError>(
            (p.model(), p.wire().len() as nat),
        ),
{
    lemma_i64_round_trip(p.payload, rest);
}

/// Disconnect round trip.
pub proof fn lemma_disconnect_round_trip(p: &Disconnect, rest: Seq<u8>)
    requires
        p.wf(),
    ensures
        Disconnect::dec(p.wire() + rest) == Ok::<(<Disconnect as PacketIo>::M, nat), DecodeError>(
            (p.model(), p.wire().len() as nat),
        ),
{
    lemma_string_round_trip(&p.reason, rest);
}

/// Login success round trip.
pub proof fn lemma_login_success_round_trip(p: &LoginSuccess, rest: Seq<u8>)
    requires
        p.wf(),
    ensures
        LoginSuccess::dec(p.wire() + rest) == Ok::<
            (<LoginSuccess as PacketIo>::M, nat),
            DecodeError,
        >((p.model(), p.wire().len() as nat)),
{
    let w = p.wire() + rest;
    lemma_uuid_round_trip(p.uuid, p.username.wire() + rest);
    assert(w =~= p.uuid.wire() + (p.username.wire() + rest));
    assert(w.skip(16) =~= p.username.wire() + rest);
    lemma_string_round_trip(&p.username, rest);
}

/// Entity move round trip.
pub proof fn lemma_entity_position_round_trip(p: &EntityPositionAndRotation, rest: Seq<u8>)
    ensures
        EntityPositionAndRotation::dec(p.wire() + rest) == Ok::<
            (<EntityPositionAndRotation as PacketIo>::M, nat),
            DecodeError,
        >((p.model(), p.wire().len() as nat)),
{
    let w = p.wire() + rest;
    let idw = p.entity_id.wire();
    let xyz = (p.x, p.y, p.z);
    let angles = (p.pitch, p.yaw);
    lemma_varint_field_round_trip(p.entity_id, xyz.wire() + (angles.wire() + rest));
    assert(w =~= idw + (xyz.wire() + (angles.wire() + rest)));
    let n1 = idw.len();
    assert(w.skip(n1 as int) =~= xyz.wire() + (angles.wire() + rest));
    lemma_i32_triple_round_trip(xyz, angles.wire() + rest);
    assert(w.skip(n1 as int + 12) =~= angles.wire() + rest);
    lemma_angle_pair_round_trip(angles, rest);
}

/// Round trip of the context-dependent packet: the conditional field and
/// the counted array decode back exactly as announced by their siblings.
pub proof fn lemma_something_optional_round_trip(p: &SomethingOptional, rest: Seq<u8>)
    requires
        p.wf(),
    ensures
        SomethingOptional::dec(p.wire() + rest) == Ok::<
            (<SomethingOptional as PacketIo>::M, nat),
            DecodeError,
        >((p.model(), p.wire().len() as nat)),
{
    let w = p.wire() + rest;
    let optw = match p.thing {
        Option::None => Seq::<u8>::empty(),
        Option::Some(v) => v.wire(),
    };
    let cntw = p.thing_count.wire();
    let elemsw = wire_concat(p.things@);
    lemma_bool_round_trip(p.thing_exists, optw + (cntw + (elemsw + rest)));
    assert(w =~= p.thing_exists.wire() + (optw + (cntw + (elemsw + rest))));
    assert(w.skip(1) =~= optw + (cntw + (elemsw + rest)));
    let n2 = optw.len();
    match p.thing {
        Option::None => {
            assert(w.skip(1) =~= cntw + (elemsw + rest));
        },
        Option::Some(v) => {
            lemma_i32_round_trip(v, cntw + (elemsw + rest));
        },
    }
    assert(w.skip(1 + n2 as int) =~= cntw + (elemsw + rest));
    lemma_varint_field_round_trip(p.thing_count, elemsw + rest);
    assert(w.skip(1 + n2 as int + cntw.len() as int) =~= elemsw + rest);
    lemma_i32_seq_round_trip(p.things@, rest);
}

} // verus!
