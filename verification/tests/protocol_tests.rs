//! Connection state machine tests: framing, dispatch, state transitions,
//! unknown-id rejection and state gating.

use mcproto::codec::MinecraftIo;
use mcproto::connection::{
    read_packet, write_packet, packet_id_of, Connection, Direction, Packet, State,
};
use mcproto::error::DecodeError;
use mcproto::packets::{
    Disconnect, EntityPositionAndRotation, Handshake, LoginSuccess, SomethingOptional, StatusPing,
    StatusPong, StatusRequest, StatusResponse,
};
use mcproto::reader::Reader;
use mcproto::types::{Angle, Uuid};
use mcproto::varint::VarInt;

fn frame_of(conn_direction: Direction, state: State, packet: &Packet) -> Vec<u8> {
    // Encode on a peer whose decode direction is opposite: it writes the
    // packets our connection reads.
    let mut peer = Connection::new(
        match conn_direction {
            Direction::ServerBound => Direction::ClientBound,
            Direction::ClientBound => Direction::ServerBound,
        },
        758,
    );
    peer.state = state;
    let mut out = vec![];
    write_packet(&mut peer, packet, &mut out).unwrap();
    out
}

#[test]
fn handshake_frame_bytes_and_transition() {
    let packet = Packet::Handshake(Handshake {
        protocol_version: VarInt(758),
        server_address: String::from("localhost"),
        server_port: 25565,
        next_state: VarInt(1),
    });
    let bytes = frame_of(Direction::ServerBound, State::Handshake, &packet);
    // length 16 | id 0 | varint 758 | "localhost" | port 25565 | next 1
    assert_eq!(
        bytes,
        vec![
            16, 0, 246, 5, 9, b'l', b'o', b'c', b'a', b'l', b'h', b'o', b's', b't', 99, 221, 1
        ]
    );

    let mut server = Connection::new(Direction::ServerBound, 758);
    assert_eq!(server.state, State::Handshake);
    let mut reader = Reader::new(bytes);
    let got = read_packet(&mut server, &mut reader).unwrap();
    assert_eq!(got, packet);
    assert_eq!(server.state, State::Status);
    assert!(!server.terminated);
}

#[test]
fn handshake_next_state_two_reaches_login() {
    let packet = Packet::Handshake(Handshake {
        protocol_version: VarInt(758),
        server_address: String::from("h"),
        server_port: 1,
        next_state: VarInt(2),
    });
    let bytes = frame_of(Direction::ServerBound, State::Handshake, &packet);
    let mut server = Connection::new(Direction::ServerBound, 758);
    let mut reader = Reader::new(bytes);
    read_packet(&mut server, &mut reader).unwrap();
    assert_eq!(server.state, State::Login);
}

#[test]
fn status_exchange_round_trips() {
    for packet in [
        Packet::StatusResponse(StatusResponse {
            json_data: String::from("{\"version\":{}}"),
        }),
        Packet::StatusPong(StatusPong { payload: -12345 }),
    ] {
        let bytes = frame_of(Direction::ClientBound, State::Status, &packet);
        let mut client = Connection::new(Direction::ClientBound, 758);
        client.state = State::Status;
        let mut reader = Reader::new(bytes);
        let got = read_packet(&mut client, &mut reader).unwrap();
        assert_eq!(got, packet);
        assert_eq!(client.state, State::Status);
        assert!(!client.terminated);
        assert_eq!(reader.remaining(), 0);
    }
    for packet in [
        Packet::StatusRequest(StatusRequest {}),
        Packet::StatusPing(StatusPing { payload: 77 }),
    ] {
        let bytes = frame_of(Direction::ServerBound, State::Status, &packet);
        let mut server = Connection::new(Direction::ServerBound, 758);
        server.state = State::Status;
        let mut reader = Reader::new(bytes);
        assert_eq!(read_packet(&mut server, &mut reader).unwrap(), packet);
    }
}

#[test]
fn login_success_reaches_play_and_disconnect_terminates() {
    let packet = Packet::LoginSuccess(LoginSuccess {
        uuid: Uuid(0x013fad7b475f55b4b2b70da6c41293a8),
        username: String::from("player"),
    });
    let bytes = frame_of(Direction::ClientBound, State::Login, &packet);
    let mut client = Connection::new(Direction::ClientBound, 758);
    client.state = State::Login;
    let mut reader = Reader::new(bytes);
    assert_eq!(read_packet(&mut client, &mut reader).unwrap(), packet);
    assert_eq!(client.state, State::Play);
    assert!(!client.terminated);

    let packet = Packet::Disconnect(Disconnect {
        reason: String::from("bye"),
    });
    let bytes = frame_of(Direction::ClientBound, State::Login, &packet);
    let mut client = Connection::new(Direction::ClientBound, 758);
    client.state = State::Login;
    let mut reader = Reader::new(bytes);
    assert_eq!(read_packet(&mut client, &mut reader).unwrap(), packet);
    assert!(client.terminated);
}

#[test]
fn play_packets_round_trip() {
    let packet = Packet::EntityPositionAndRotation(EntityPositionAndRotation {
        entity_id: VarInt(42),
        x: -5,
        y: 64,
        z: 1000000,
        pitch: Angle(128),
        yaw: Angle(0),
    });
    let bytes = frame_of(Direction::ClientBound, State::Play, &packet);
    let mut client = Connection::new(Direction::ClientBound, 758);
    client.state = State::Play;
    let mut reader = Reader::new(bytes);
    assert_eq!(read_packet(&mut client, &mut reader).unwrap(), packet);

    // The conditional field present, and the counted array.
    let packet = Packet::SomethingOptional(SomethingOptional {
        thing_exists: true,
        thing: Some(-7),
        thing_count: VarInt(3),
        things: vec![1, -2, 3],
    });
    let bytes = frame_of(Direction::ClientBound, State::Play, &packet);
    let mut client = Connection::new(Direction::ClientBound, 758);
    client.state = State::Play;
    let mut reader = Reader::new(bytes);
    assert_eq!(read_packet(&mut client, &mut reader).unwrap(), packet);

    // The conditional field absent: no bytes stand for it.
    let packet = Packet::SomethingOptional(SomethingOptional {
        thing_exists: false,
        thing: None,
        thing_count: VarInt(0),
        things: vec![],
    });
    let bytes = frame_of(Direction::ClientBound, State::Play, &packet);
    // presence byte + count byte + id byte = 3 bytes of frame body.
    assert_eq!(bytes, vec![3, 0x0b, 0, 0]);
    let mut client = Connection::new(Direction::ClientBound, 758);
    client.state = State::Play;
    let mut reader = Reader::new(bytes);
    assert_eq!(read_packet(&mut client, &mut reader).unwrap(), packet);
}

#[test]
fn unknown_id_terminates_connection() {
    // A frame with id 0x19, absent from every status-state catalog.
    let mut client = Connection::new(Direction::ClientBound, 758);
    client.state = State::Status;
    let mut reader = Reader::new(vec![2, 0x19, 0x00]);
    assert_eq!(
        read_packet(&mut client, &mut reader),
        Err(DecodeError::UnknownPacketId)
    );
    assert!(client.terminated);
    assert_eq!(client.state, State::Status);
}

#[test]
fn play_packet_in_status_state_is_rejected() {
    let packet = Packet::EntityPositionAndRotation(EntityPositionAndRotation {
        entity_id: VarInt(1),
        x: 0,
        y: 0,
        z: 0,
        pitch: Angle(0),
        yaw: Angle(0),
    });
    assert_eq!(packet_id_of(&packet), 0x0a);
    let bytes = frame_of(Direction::ClientBound, State::Play, &packet);
    let mut client = Connection::new(Direction::ClientBound, 758);
    client.state = State::Status;
    let mut reader = Reader::new(bytes);
    assert_eq!(
        read_packet(&mut client, &mut reader),
        Err(DecodeError::UnknownPacketId)
    );
    assert!(client.terminated);
}

#[test]
fn truncated_and_oversized_frames_are_rejected() {
    // Declared length exceeds the bytes available.
    let mut client = Connection::new(Direction::ClientBound, 758);
    client.state = State::Status;
    let mut reader = Reader::new(vec![10, 0x00, 0x01]);
    assert_eq!(
        read_packet(&mut client, &mut reader),
        Err(DecodeError::NotEnoughBytes)
    );
    assert!(client.terminated);
    // The reader stops right after the length prefix: the failure offset
    // that accompanies the error kind.
    assert_eq!(reader.pos, 1);

    // Bytes left over after the declared fields: a definition mismatch.
    let mut client = Connection::new(Direction::ClientBound, 758);
    client.state = State::Status;
    // length 10 | id 1 | pong payload (8 bytes) | one stray byte
    let mut bytes = vec![10, 0x01];
    bytes.extend_from_slice(&[0, 0, 0, 0, 0, 0, 0, 9]);
    bytes.push(0xEE);
    let mut reader = Reader::new(bytes);
    assert_eq!(
        read_packet(&mut client, &mut reader),
        Err(DecodeError::TrailingBytes)
    );
    assert!(client.terminated);
    // The reader stops at the end of the faulty frame.
    assert_eq!(reader.pos, 11);
}

#[test]
fn handshake_bad_next_state_is_rejected() {
    // A handshake declaring next-state 3: an out-of-range discriminant.
    let mut body = vec![0x00]; // packet id
    VarInt(758).write(&mut body);
    String::from("h").minecraft_write(&mut body);
    body.extend_from_slice(&[0x00, 0x01]); // port 1
    VarInt(3).write(&mut body);
    let mut bytes = vec![body.len() as u8];
    bytes.extend_from_slice(&body);
    let mut server = Connection::new(Direction::ServerBound, 758);
    let mut reader = Reader::new(bytes);
    assert_eq!(
        read_packet(&mut server, &mut reader),
        Err(DecodeError::InvalidDiscriminant)
    );
    assert!(server.terminated);
}
