//! The connection state machine.
//!
//! A connection tracks its current state and the direction of the packets
//! it decodes, frames packets as `length | id | body`, and dispatches an
//! incoming frame through the packet catalog for the current direction and
//! state. An id with no catalog entry is a protocol error: the frame's body
//! cannot be interpreted, so the connection cannot resynchronize and is
//! marked terminated — as it is on every other decode failure.

use vstd::prelude::*;
use crate::error::{DecodeError, VarIntError, varint_err, varint_err_to_decode};
use crate::packets::{
    PacketIo, Handshake, StatusRequest, StatusResponse, StatusPing, StatusPong, Disconnect,
    LoginSuccess, EntityPositionAndRotation, SomethingOptional, lemma_handshake_round_trip,
    lemma_status_request_round_trip, lemma_status_response_round_trip, lemma_status_ping_round_trip,
    lemma_status_pong_round_trip, lemma_disconnect_round_trip, lemma_login_success_round_trip,
    lemma_entity_position_round_trip, lemma_something_optional_round_trip,
};
use crate::reader::Reader;
use crate::varint::{VarInt, varint_wire, varnum_wire, varint_parse, i32_of_bits, u32_bits};

verus! {

/// Which endpoint originates a packet: toward the server, or toward the
/// client.
#[derive(Copy, Clone, Debug, PartialEq, Eq, Structural)]
pub enum Direction {
    ServerBound,
    ClientBound,
}

/// The phase of a connection, gating which packet ids are legal.
#[derive(Copy, Clone, Debug, PartialEq, Eq, Structural)]
pub enum State {
    Handshake,
    Status,
    Login,
    Play,
}

/// The direction opposite to `d`: the packets an endpoint sends flow
/// against the ones it decodes.
pub open spec fn opposite(d: Direction) -> Direction {
    match d {
        Direction::ServerBound => Direction::ClientBound,
        Direction::ClientBound => Direction::ServerBound,
    }
}

/// One packet of the catalog.
#[derive(Clone, Debug, PartialEq)]
pub enum Packet {
    Handshake(Handshake),
    StatusRequest(StatusRequest),
    StatusResponse(StatusResponse),
    StatusPing(StatusPing),
    StatusPong(StatusPong),
    Disconnect(Disconnect),
    LoginSuccess(LoginSuccess),
    EntityPositionAndRotation(EntityPositionAndRotation),
    SomethingOptional(SomethingOptional),
}

/// The model of a packet: the variant with its body's model.
pub enum PacketModel {
    Handshake(<Handshake as PacketIo>::M),
    StatusRequest(<StatusRequest as PacketIo>::M),
    StatusResponse(<StatusResponse as PacketIo>::M),
    StatusPing(<StatusPing as PacketIo>::M),
    StatusPong(<StatusPong as PacketIo>::M),
    Disconnect(<Disconnect as PacketIo>::M),
    LoginSuccess(<LoginSuccess as PacketIo>::M),
    EntityPositionAndRotation(<EntityPositionAndRotation as PacketIo>::M),
    SomethingOptional(<SomethingOptional as PacketIo>::M),
}

pub open spec fn packet_model(p: &Packet) -> PacketModel {
    match p {
        Packet::Handshake(x) => PacketModel::Handshake(x.model()),
        Packet::StatusRequest(x) => PacketModel::StatusRequest(x.model()),
        Packet::StatusResponse(x) => PacketModel::StatusResponse(x.model()),
        Packet::StatusPing(x) => PacketModel::StatusPing(x.model()),
        Packet::StatusPong(x) => PacketModel::StatusPong(x.model()),
        Packet::Disconnect(x) => PacketModel::Disconnect(x.model()),
        Packet::LoginSuccess(x) => PacketModel::LoginSuccess(x.model()),
        Packet::EntityPositionAndRotation(x) => PacketModel::EntityPositionAndRotation(x.model()),
        Packet::SomethingOptional(x) => PacketModel::SomethingOptional(x.model()),
    }
}

pub open spec fn packet_wf(p: &Packet) -> bool {
    match p {
        Packet::Handshake(x) => x.wf(),
        Packet::StatusRequest(x) => x.wf(),
        Packet::StatusResponse(x) => x.wf(),
        Packet::StatusPing(x) => x.wf(),
        Packet::StatusPong(x) => x.wf(),
        Packet::Disconnect(x) => x.wf(),
        Packet::LoginSuccess(x) => x.wf(),
        Packet::EntityPositionAndRotation(x) => x.wf(),
        Packet::SomethingOptional(x) => x.wf(),
    }
}

/// The id of a packet, unique within its (direction, state) pair.
pub open spec fn packet_id(p: &Packet) -> int {
    match p {
        Packet::Handshake(_) => 0,
        Packet::StatusRequest(_) => 0,
        Packet::StatusResponse(_) => 0,
        Packet::StatusPing(_) => 1,
        Packet::StatusPong(_) => 1,
        Packet::Disconnect(_) => 0,
        Packet::LoginSuccess(_) => 2,
        Packet::EntityPositionAndRotation(_) => 0x0a,
        Packet::SomethingOptional(_) => 0x0b,
    }
}

/// The id of a packet (the catalog's variant-to-id direction).
pub fn packet_id_of(p: &Packet) -> (r: i32)
    ensures
        r as int == packet_id(p),
{
    match p {
        Packet::Handshake(_) => 0,
        Packet::StatusRequest(_) => 0,
        Packet::StatusResponse(_) => 0,
        Packet::StatusPing(_) => 1,
        Packet::StatusPong(_) => 1,
        Packet::Disconnect(_) => 0,
        Packet::LoginSuccess(_) => 2,
        Packet::EntityPositionAndRotation(_) => 0x0a,
        Packet::SomethingOptional(_) => 0x0b,
    }
}

/// The body encoding of a packet.
pub open spec fn packet_body_wire(p: &Packet) -> Seq<u8> {
    match p {
        Packet::Handshake(x) => x.wire(),
        Packet::StatusRequest(x) => x.wire(),
        Packet::StatusResponse(x) => x.wire(),
        Packet::StatusPing(x) => x.wire(),
        Packet::StatusPong(x) => x.wire(),
        Packet::Disconnect(x) => x.wire(),
        Packet::LoginSuccess(x) => x.wire(),
        Packet::EntityPositionAndRotation(x) => x.wire(),
        Packet::SomethingOptional(x) => x.wire(),
    }
}

/// Whether the packet belongs to the catalog of the given direction and
/// state.
pub open spec fn packet_fits(d: Direction, s: State, p: &Packet) -> bool {
    match (d, s, p) {
        (Direction::ServerBound, State::Handshake, Packet::Handshake(_)) => true,
        (Direction::ServerBound, State::Status, Packet::StatusRequest(_)) => true,
        (Direction::ServerBound, State::Status, Packet::StatusPing(_)) => true,
        (Direction::ClientBound, State::Status, Packet::StatusResponse(_)) => true,
        (Direction::ClientBound, State::Status, Packet::StatusPong(_)) => true,
        (Direction::ClientBound, State::Login, Packet::Disconnect(_)) => true,
        (Direction::ClientBound, State::Login, Packet::LoginSuccess(_)) => true,
        (Direction::ClientBound, State::Play, Packet::EntityPositionAndRotation(_)) => true,
        (Direction::ClientBound, State::Play, Packet::SomethingOptional(_)) => true,
        _ => false,
    }
}

/// Whether the catalog of the given direction and state has an entry for
/// the id.
pub open spec fn catalog_has(d: Direction, s: State, id: int) -> bool {
    match (d, s) {
        (Direction::ServerBound, State::Handshake) => id == 0,
        (Direction::ServerBound, State::Status) => id == 0 || id == 1,
        (Direction::ClientBound, State::Status) => id == 0 || id == 1,
        (Direction::ClientBound, State::Login) => id == 0 || id == 2,
        (Direction::ClientBound, State::Play) => id == 0x0a || id == 0x0b,
        _ => false,
    }
}

/// The decode of a packet body for a given direction, state and id.
pub open spec fn body_parse(d: Direction, s: State, id: int, body: Seq<u8>) -> Result<
    (PacketModel, nat),
    DecodeError,
> {
    if !catalog_has(d, s, id) {
        Err(DecodeError::UnknownPacketId)
    } else {
        match (d, s) {
            (Direction::ServerBound, State::Handshake) => match Handshake::dec(body) {
                Ok((m, n)) => Ok((PacketModel::Handshake(m), n)),
                Err(e) => Err(e),
            },
            (Direction::ServerBound, State::Status) => if id == 0 {
                match StatusRequest::dec(body) {
                    Ok((m, n)) => Ok((PacketModel::StatusRequest(m), n)),
                    Err(e) => Err(e),
                }
            } else {
                match StatusPing::dec(body) {
                    Ok((m, n)) => Ok((PacketModel::StatusPing(m), n)),
                    Err(e) => Err(e),
                }
            },
            (Direction::ClientBound, State::Status) => if id == 0 {
                match StatusResponse::dec(body) {
                    Ok((m, n)) => Ok((PacketModel::StatusResponse(m), n)),
                    Err(e) => Err(e),
                }
            } else {
                match StatusPong::dec(body) {
                    Ok((m, n)) => Ok((PacketModel::StatusPong(m), n)),
                    Err(e) => Err(e),
                }
            },
            (Direction::ClientBound, State::Login) => if id == 0 {
                match Disconnect::dec(body) {
                    Ok((m, n)) => Ok((PacketModel::Disconnect(m), n)),
                    Err(e) => Err(e),
                }
            } else {
                match LoginSuccess::dec(body) {
                    Ok((m, n)) => Ok((PacketModel::LoginSuccess(m), n)),
                    Err(e) => Err(e),
                }
            },
            (Direction::ClientBound, State::Play) => if id == 0x0a {
                match EntityPositionAndRotation::dec(body) {
                    Ok((m, n)) => Ok((PacketModel::EntityPositionAndRotation(m), n)),
                    Err(e) => Err(e),
                }
            } else {
                match SomethingOptional::dec(body) {
                    Ok((m, n)) => Ok((PacketModel::SomethingOptional(m), n)),
                    Err(e) => Err(e),
                }
            },
            _ => Err(DecodeError::UnknownPacketId),
        }
    }
}

/// The decode of one frame: a length prefix covering id and body, then the
/// id, then the body, which must fill the frame exactly.
pub open spec fn frame_parse(d: Direction, s: State, bytes: Seq<u8>) -> Result<
    (PacketModel, nat),
    DecodeError,
> {
    match varint_parse(bytes) {
        Err(e) => Err(varint_err(e)),
        Ok((lv, ln)) => {
            let len = i32_of_bits(lv);
            if len < 0 {
                Err(DecodeError::BadLength)
            } else if ln + len > bytes.len() {
                Err(DecodeError::NotEnoughBytes)
            } else {
                let frame = bytes.subrange(ln as int, ln + len);
                match varint_parse(frame) {
                    Err(e) => Err(varint_err(e)),
                    Ok((iv, iln)) => match body_parse(d, s, i32_of_bits(iv), frame.skip(iln as int)) {
                        Err(e) => Err(e),
                        Ok((m, bn)) => if iln + bn != len {
                            Err(DecodeError::TrailingBytes)
                        } else {
                            Ok((m, (ln + len) as nat))
                        },
                    },
                }
            }
        },
    }
}

/// The frame encoding of a packet: the length of `id | body`, then the id,
/// then the body.
pub open spec fn frame_wire(p: &Packet) -> Seq<u8> {
    let fr = varint_wire(packet_id(p) as i32) + packet_body_wire(p);
    varnum_wire(fr.len()) + fr
}

/// How many bytes of the source one frame-decode attempt consumes: the
/// whole frame when the length prefix is sound and covered by the source,
/// and the bytes up to the point of failure otherwise. Paired with the
/// error kind, this is the offset the connection owner gets to log before
/// closing.
pub open spec fn frame_stop(bytes: Seq<u8>) -> nat {
    match varint_parse(bytes) {
        Err(VarIntError::NotEnoughBytes) => bytes.len(),
        Err(VarIntError::TooManyBytes) => 5,
        Ok((lv, ln)) => {
            let len = i32_of_bits(lv);
            if len < 0 {
                ln
            } else if ln + len > bytes.len() {
                ln
            } else {
                (ln + len) as nat
            }
        },
    }
}

/// The state after a packet: the handshake's declared next state (1 for
/// status, 2 for login), play after a successful login, and otherwise the
/// state at hand. No transition returns to the handshake state.
pub open spec fn next_state(s: State, m: PacketModel) -> State {
    match m {
        PacketModel::Handshake(h) => if h.3.0 == 1 {
            State::Status
        } else {
            State::Login
        },
        PacketModel::LoginSuccess(_) => State::Play,
        _ => s,
    }
}

/// Whether a packet ends the connection.
pub open spec fn terminates(m: PacketModel) -> bool {
    m matches PacketModel::Disconnect(_)
}

/// A connection: the direction of the packets it decodes, its current
/// state, whether it has terminated, and the negotiated protocol version.
pub struct Connection {
    pub direction: Direction,
    pub state: State,
    pub terminated: bool,
    pub protocol_version: i32,
}

impl Connection {
    /// A fresh connection in the handshake state.
    pub fn new(direction: Direction, protocol_version: i32) -> (r: Connection)
        ensures
            r.direction == direction,
            r.state == State::Handshake,
            !r.terminated,
            r.protocol_version == protocol_version,
    {
        Connection { direction, state: State::Handshake, terminated: false, protocol_version }
    }
}

/// Decode one packet body by catalog entry.
fn read_body(d: Direction, s: State, id: i32, frame: &mut Reader, pv: i32) -> (r: Result<
    Packet,
    DecodeError,
>)
    requires
        old(frame).wf(),
    ensures
        final(frame).wf(),
        final(frame).data@ == old(frame).data@,
        final(frame).pos >= old(frame).pos,
        match r {
            Ok(p) => {
                &&& packet_wf(&p)
                &&& packet_fits(d, s, &p)
                &&& packet_id(&p) == id as int
                &&& body_parse(d, s, id as int, old(frame).rest()) == Ok::<
                    (PacketModel, nat),
                    DecodeError,
                >((packet_model(&p), (final(frame).pos - old(frame).pos) as nat))
            },
            Err(e) => body_parse(d, s, id as int, old(frame).rest()) == Err::<
                (PacketModel, nat),
                DecodeError,
            >(e),
        },
{
    match (d, s) {
        (Direction::ServerBound, State::Handshake) => {
            if id == 0 {
                match Handshake::minecraft_read(frame, pv) {
                    Ok(p) => Ok(Packet::Handshake(p)),
                    Err(e) => Err(e),
                }
            } else {
                Err(DecodeError::UnknownPacketId)
            }
        },
        (Direction::ServerBound, State::Status) => {
            if id == 0 {
                match StatusRequest::minecraft_read(frame, pv) {
                    Ok(p) => Ok(Packet::StatusRequest(p)),
                    Err(e) => Err(e),
                }
            } else if id == 1 {
                match StatusPing::minecraft_read(frame, pv) {
                    Ok(p) => Ok(Packet::StatusPing(p)),
                    Err(e) => Err(e),
                }
            } else {
                Err(DecodeError::UnknownPacketId)
            }
        },
        (Direction::ClientBound, State::Status) => {
            if id == 0 {
                match StatusResponse::minecraft_read(frame, pv) {
                    Ok(p) => Ok(Packet::StatusResponse(p)),
                    Err(e) => Err(e),
                }
            } else if id == 1 {
                match StatusPong::minecraft_read(frame, pv) {
                    Ok(p) => Ok(Packet::StatusPong(p)),
                    Err(e) => Err(e),
                }
            } else {
                Err(DecodeError::UnknownPacketId)
            }
        },
        (Direction::ClientBound, State::Login) => {
            if id == 0 {
                match Disconnect::minecraft_read(frame, pv) {
                    Ok(p) => Ok(Packet::Disconnect(p)),
                    Err(e) => Err(e),
                }
            } else if id == 2 {
                match LoginSuccess::minecraft_read(frame, pv) {
                    Ok(p) => Ok(Packet::LoginSuccess(p)),
                    Err(e) => Err(e),
                }
            } else {
                Err(DecodeError::UnknownPacketId)
            }
        },
        (Direction::ClientBound, State::Play) => {
            if id == 0x0a {
                match EntityPositionAndRotation::minecraft_read(frame, pv) {
                    Ok(p) => Ok(Packet::EntityPositionAndRotation(p)),
                    Err(e) => Err(e),
                }
            } else if id == 0x0b {
                match SomethingOptional::minecraft_read(frame, pv) {
                    Ok(p) => Ok(Packet::SomethingOptional(p)),
                    Err(e) => Err(e),
                }
            } else {
                Err(DecodeError::UnknownPacketId)
            }
        },
        _ => Err(DecodeError::UnknownPacketId),
    }
}

/// Decode one frame from the source and dispatch it through the catalog
/// for the connection's direction and current state. On success the
/// connection takes the packet's transition; on any failure it is marked
/// terminated, never silently resynchronized.
#[verifier::rlimit(100)]
pub fn read_packet(conn: &mut Connection, reader: &mut Reader) -> (r: Result<Packet, DecodeError>)
    requires
        !old(conn).terminated,
        old(reader).wf(),
    ensures
        final(reader).wf(),
        final(reader).data@ == old(reader).data@,
        final(reader).pos >= old(reader).pos,
        final(reader).pos == old(reader).pos + frame_stop(old(reader).rest()),
        final(conn).direction == old(conn).direction,
        final(conn).protocol_version == old(conn).protocol_version,
        match r {
            Ok(p) => {
                &&& packet_wf(&p)
                &&& packet_fits(old(conn).direction, old(conn).state, &p)
                &&& frame_parse(old(conn).direction, old(conn).state, old(reader).rest()) == Ok::<
                    (PacketModel, nat),
                    DecodeError,
                >((packet_model(&p), (final(reader).pos - old(reader).pos) as nat))
                &&& final(conn).state == next_state(old(conn).state, packet_model(&p))
                &&& final(conn).terminated == terminates(packet_model(&p))
            },
            Err(e) => {
                &&& frame_parse(old(conn).direction, old(conn).state, old(reader).rest()) == Err::<
                    (PacketModel, nat),
                    DecodeError,
                >(e)
                &&& final(conn).terminated
                &&& final(conn).state == old(conn).state
            },
        },
{
    let ghost s0 = reader.rest();
    let ghost p0 = reader.pos;
    let len_v = match VarInt::read(reader) {
        Ok(v) => v,
        Err(e) => {
            conn.terminated = true;
            return Err(varint_err_to_decode(e));
        },
    };
    if len_v.0 < 0 {
        conn.terminated = true;
        return Err(DecodeError::BadLength);
    }
    let flen = len_v.0 as usize;
    let ghost ln = (reader.pos - p0) as nat;
    let frame_bytes = match reader.take(flen) {
        Some(b) => b,
        None => {
            conn.terminated = true;
            return Err(DecodeError::NotEnoughBytes);
        },
    };
    proof {
        assert(frame_bytes@ =~= s0.subrange(ln as int, ln + flen));
    }
    let mut frame = Reader::new(frame_bytes);
    let id_v = match VarInt::read(&mut frame) {
        Ok(v) => v,
        Err(e) => {
            conn.terminated = true;
            return Err(varint_err_to_decode(e));
        },
    };
    let ghost iln = frame.pos as nat;
    proof {
        assert(frame.rest() =~= frame.data@.skip(iln as int));
    }
    let packet = match read_body(conn.direction, conn.state, id_v.0, &mut frame, conn.protocol_version) {
        Ok(p) => p,
        Err(e) => {
            conn.terminated = true;
            return Err(e);
        },
    };
    if frame.remaining() != 0 {
        conn.terminated = true;
        return Err(DecodeError::TrailingBytes);
    }
    match &packet {
        Packet::Handshake(h) => {
            if h.next_state.0 == 1 {
                conn.state = State::Status;
            } else {
                conn.state = State::Login;
            }
        },
        Packet::LoginSuccess(_) => {
            conn.state = State::Play;
        },
        Packet::Disconnect(_) => {
            conn.terminated = true;
        },
        _ => {},
    }
    Ok(packet)
}

/// Frame one packet onto the sink: the length of `id | body`, the id, the
/// body. The connection takes the packet's transition (an endpoint that
/// announces a state change switches its own catalog too). Fails exactly
/// when `id | body` outgrows the 32-bit length prefix, leaving the sink
/// and the connection unchanged.
pub fn write_packet(conn: &mut Connection, packet: &Packet, out: &mut Vec<u8>) -> (r: Result<
    (),
    DecodeError,
>)
    requires
        !old(conn).terminated,
        packet_wf(packet),
        packet_fits(opposite(old(conn).direction), old(conn).state, packet),
    ensures
        final(conn).direction == old(conn).direction,
        final(conn).protocol_version == old(conn).protocol_version,
        match r {
            Ok(_) => {
                &&& varint_wire(packet_id(packet) as i32).len() + packet_body_wire(packet).len()
                    < 0x80000000
                &&& final(out)@ == old(out)@ + frame_wire(packet)
                &&& final(conn).state == next_state(old(conn).state, packet_model(packet))
                &&& final(conn).terminated == terminates(packet_model(packet))
            },
            Err(e) => {
                &&& e == DecodeError::FrameTooLarge
                &&& varint_wire(packet_id(packet) as i32).len() + packet_body_wire(packet).len()
                    >= 0x80000000
                &&& final(out)@ == old(out)@
                &&& final(conn).state == old(conn).state
                &&& !final(conn).terminated
            },
        },
{
    let mut body: Vec<u8> = Vec::new();
    let id = packet_id_of(packet);
    VarInt(id).write(&mut body);
    match packet {
        Packet::Handshake(x) => x.minecraft_write(&mut body, conn.protocol_version),
        Packet::StatusRequest(x) => x.minecraft_write(&mut body, conn.protocol_version),
        Packet::StatusResponse(x) => x.minecraft_write(&mut body, conn.protocol_version),
        Packet::StatusPing(x) => x.minecraft_write(&mut body, conn.protocol_version),
        Packet::StatusPong(x) => x.minecraft_write(&mut body, conn.protocol_version),
        Packet::Disconnect(x) => x.minecraft_write(&mut body, conn.protocol_version),
        Packet::LoginSuccess(x) => x.minecraft_write(&mut body, conn.protocol_version),
        Packet::EntityPositionAndRotation(x) => x.minecraft_write(&mut body, conn.protocol_version),
        Packet::SomethingOptional(x) => x.minecraft_write(&mut body, conn.protocol_version),
    }
    proof {
        assert(body@ =~= varint_wire(packet_id(packet) as i32) + packet_body_wire(packet));
    }
    if body.len() >= 0x80000000usize {
        return Err(DecodeError::FrameTooLarge);
    }
    let total = VarInt(body.len() as i32);
    proof {
        assert(u32_bits(body.len() as i32) == body@.len());
    }
    total.write(out);
    out.extend_from_slice(body.as_slice());
    proof {
        assert(out@ =~= old(out)@ + frame_wire(packet));
    }
    match packet {
        Packet::Handshake(h) => {
            if h.next_state.0 == 1 {
                conn.state = State::Status;
            } else {
                conn.state = State::Login;
            }
        },
        Packet::LoginSuccess(_) => {
            conn.state = State::Play;
        },
        Packet::Disconnect(_) => {
            conn.terminated = true;
        },
        _ => {},
    }
    Ok(())
}

/// A raw frame around an arbitrary id and body.
pub open spec fn raw_frame(id: i32, body: Seq<u8>) -> Seq<u8> {
    let fr = varint_wire(id) + body;
    varnum_wire(fr.len()) + fr
}

/// Unknown-id rejection: a well-framed packet whose id has no catalog
/// entry for the direction and state at hand parses to the unknown-packet
/// error, whatever its body holds and whatever bytes follow the frame.
/// `read_packet` then returns that error and marks the connection
/// terminated.
pub proof fn lemma_unknown_id_rejected(
    d: Direction,
    s: State,
    id: i32,
    body: Seq<u8>,
    rest: Seq<u8>,
)
    requires
        !catalog_has(d, s, id as int),
        varint_wire(id).len() + body.len() < 0x80000000,
    ensures
        frame_parse(d, s, raw_frame(id, body) + rest) == Err::<(PacketModel, nat), DecodeError>(
            DecodeError::UnknownPacketId,
        ),
{
    let fr = varint_wire(id) + body;
    let lv = fr.len() as i32;
    assert(u32_bits(lv) == fr.len());
    crate::varint::lemma_varint_round_trip(lv, fr + rest);
    let w = raw_frame(id, body) + rest;
    assert(w =~= varint_wire(lv) + (fr + rest));
    let ln = varint_wire(lv).len();
    assert(i32_of_bits(u32_bits(lv)) == lv as int);
    assert(w.subrange(ln as int, ln + fr.len() as int) =~= fr);
    crate::varint::lemma_varint_round_trip(id, body);
    assert(i32_of_bits(u32_bits(id)) == id as int);
}

/// State gating: a play-state packet presented while the connection is in
/// the status state is rejected as an unknown packet — its id has no entry
/// in the status catalog, so the frame parses to the unknown-packet error.
pub proof fn lemma_state_gating_play_in_status(p: &Packet, rest: Seq<u8>)
    requires
        packet_fits(Direction::ClientBound, State::Play, p),
        varint_wire(packet_id(p) as i32).len() + packet_body_wire(p).len() < 0x80000000,
    ensures
        !catalog_has(Direction::ClientBound, State::Status, packet_id(p)),
        frame_parse(Direction::ClientBound, State::Status, frame_wire(p) + rest) == Err::<
            (PacketModel, nat),
            DecodeError,
        >(DecodeError::UnknownPacketId),
{
    lemma_unknown_id_rejected(
        Direction::ClientBound,
        State::Status,
        packet_id(p) as i32,
        packet_body_wire(p),
        rest,
    );
    assert(frame_wire(p) =~= raw_frame(packet_id(p) as i32, packet_body_wire(p)));
    assert(frame_wire(p) + rest =~= raw_frame(packet_id(p) as i32, packet_body_wire(p)) + rest);
}


/// Framing round trip: a well-formed packet of the catalog for the
/// direction and state at hand, once framed, parses back to its model and
/// consumes exactly its frame, whatever bytes follow. Together with the
/// contracts of `write_packet` and `read_packet` this ties the two ends of
/// a connection: what one side frames, the other side's dispatch decodes.
#[verifier::rlimit(100)]
pub proof fn lemma_frame_round_trip(d: Direction, s: State, p: &Packet, rest: Seq<u8>)
    requires
        packet_wf(p),
        packet_fits(d, s, p),
        varint_wire(packet_id(p) as i32).len() + packet_body_wire(p).len() < 0x80000000,
    ensures
        frame_parse(d, s, frame_wire(p) + rest) == Ok::<(PacketModel, nat), DecodeError>(
            (packet_model(p), frame_wire(p).len() as nat),
        ),
{
    let idw = varint_wire(packet_id(p) as i32);
    let bw = packet_body_wire(p);
    let fr = idw + bw;
    let lv = fr.len() as i32;
    assert(u32_bits(lv) == fr.len());
    crate::varint::lemma_varint_round_trip(lv, fr + rest);
    assert(frame_wire(p) == varint_wire(lv) + fr);
    let w = frame_wire(p) + rest;
    assert(w =~= varint_wire(lv) + (fr + rest));
    let ln = varint_wire(lv).len();
    assert(i32_of_bits(u32_bits(lv)) == lv as int);
    assert(w.subrange(ln as int, ln + fr.len() as int) =~= fr);
    crate::varint::lemma_varint_round_trip(packet_id(p) as i32, bw);
    assert(i32_of_bits(u32_bits(packet_id(p) as i32)) == packet_id(p));
    assert(fr.skip(idw.len() as int) =~= bw);
    assert(bw + Seq::<u8>::empty() =~= bw);
    match p {
        Packet::Handshake(x) => {
            lemma_handshake_round_trip(x, Seq::empty());
        },
        Packet::StatusRequest(x) => {
            lemma_status_request_round_trip(x, Seq::empty());
        },
        Packet::StatusResponse(x) => {
            lemma_status_response_round_trip(x, Seq::empty());
        },
        Packet::StatusPing(x) => {
            lemma_status_ping_round_trip(x, Seq::empty());
        },
        Packet::StatusPong(x) => {
            lemma_status_pong_round_trip(x, Seq::empty());
        },
        Packet::Disconnect(x) => {
            lemma_disconnect_round_trip(x, Seq::empty());
        },
        Packet::LoginSuccess(x) => {
            lemma_login_success_round_trip(x, Seq::empty());
        },
        Packet::EntityPositionAndRotation(x) => {
            lemma_entity_position_round_trip(x, Seq::empty());
        },
        Packet::SomethingOptional(x) => {
            lemma_something_optional_round_trip(x, Seq::empty());
        },
    }
}

} // verus!
