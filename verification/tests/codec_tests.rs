//! Field-codec wire tests: each value's bytes, exactly.

use mcproto::codec::MinecraftIo;
use mcproto::nbtio::Nbt;
use mcproto::reader::Reader;
use mcproto::types::{Angle, LengthPrefixedArray, Position, Slot};
use mcproto::varint::VarInt;

#[test]
fn packet_test_write_u64() {
    let mut vec = vec![];
    64u64.minecraft_write(&mut vec);
    assert_eq!(vec, &[0, 0, 0, 0, 0, 0, 0, 64]);
}

#[test]
fn tests_test_write_u64() {
    let mut vec = vec![];
    64u64.minecraft_write(&mut vec);
    assert_eq!(vec, &[0, 0, 0, 0, 0, 0, 0, 64]);
}

#[test]
fn packet_test_write_string() {
    let mut vec = vec![];
    String::from("Hello World").minecraft_write(&mut vec);
    assert_eq!(vec, b"\x0bHello World");
}

#[test]
fn tests_test_write_string() {
    let mut vec = vec![];
    "Hello World".to_owned().minecraft_write(&mut vec);
    assert_eq!(vec, b"\x0bHello World");
}

#[test]
fn packet_test_write_position() {
    let mut vec = vec![];
    let position = Position { x: 1, y: 1, z: 1 };
    position.minecraft_write(&mut vec);
    assert_eq!(vec, &[0, 0, 0, 64, 0, 0, 16, 1]);
}

#[test]
fn tests_test_write_position() {
    let mut vec = vec![];
    let position = Position { x: 1, y: 1, z: 1 };
    position.minecraft_write(&mut vec);
    assert_eq!(vec, &[0, 0, 0, 64, 0, 0, 16, 1]);
}

#[test]
fn packet_test_write_array() {
    let mut vec = vec![];
    let numbers = vec![2u16, 3u16, 4u16, 5u16];
    numbers.minecraft_write(&mut vec);
    assert_eq!(vec, &[0, 2, 0, 3, 0, 4, 0, 5]);
}

#[test]
fn tests_test_write_array() {
    let mut vec = vec![];
    let numbers = LengthPrefixedArray::<VarInt, u16>::from_vec(vec![2u16, 3u16, 4u16, 5u16]);
    numbers.minecraft_write(&mut vec);
    assert_eq!(vec, vec![4, 0, 2, 0, 3, 0, 4, 0, 5]);
}

#[test]
fn packet_test_write_optional() {
    let mut vec = vec![];
    let mut maybe = Some(3i32);
    maybe.minecraft_write(&mut vec);
    assert_eq!(vec, &[0, 0, 0, 3]);

    vec.clear();
    maybe = None;
    maybe.minecraft_write(&mut vec);
    assert!(vec.is_empty());
}

#[test]
fn tests_test_write_optional() {
    let mut vec = vec![];
    let mut maybe = Some(3i32);
    maybe.minecraft_write(&mut vec);
    assert_eq!(vec, &[0, 0, 0, 3]);

    vec.clear();
    maybe = None;
    maybe.minecraft_write(&mut vec);
    assert!(vec.is_empty());
}

fn angle_steps_of_radians(radians: f32) -> u8 {
    (radians / (2. * std::f32::consts::PI) * 256.) as u8
}

#[test]
fn packet_test_write_angle() {
    let mut vec = vec![];
    let angle = Angle(angle_steps_of_radians(std::f32::consts::PI));
    angle.minecraft_write(&mut vec);
    assert_eq!(vec, &[128]);
}

#[test]
fn tests_test_write_angle() {
    let mut vec = vec![];
    let angle = Angle(angle_steps_of_radians(std::f32::consts::PI));
    angle.minecraft_write(&mut vec);
    assert_eq!(vec, &[128]);
}

#[test]
fn packet_test_write_uuid() {
    let mut vec = vec![];
    let uuid = uuid::Uuid::new_v5(&uuid::Uuid::NAMESPACE_DNS, b"testing");
    // 013fad7b-475f-55b4-b2b7-0da6c41293a8
    mcproto::types::Uuid(uuid.as_u128()).minecraft_write(&mut vec);
    assert_eq!(
        vec,
        &[1, 63, 173, 123, 71, 95, 85, 180, 178, 183, 13, 166, 196, 18, 147, 168]
    );
}

#[test]
fn tests_test_write_uuid() {
    let mut vec = vec![];
    let uuid = uuid::Uuid::new_v5(&uuid::Uuid::NAMESPACE_DNS, b"testing");
    // 013fad7b-475f-55b4-b2b7-0da6c41293a8
    mcproto::types::Uuid(uuid.as_u128()).minecraft_write(&mut vec);
    assert_eq!(
        vec,
        &[1, 63, 173, 123, 71, 95, 85, 180, 178, 183, 13, 166, 196, 18, 147, 168]
    );
}

fn simple_nbt_bytes() -> Vec<u8> {
    let mut blob = nbt::Blob::new();
    blob.insert("Key", "Value").unwrap();
    let mut bytes = vec![];
    blob.to_writer(&mut bytes).unwrap();
    bytes
}

#[test]
fn packet_test_write_simple_nbt() {
    let mut vec = vec![];
    let tag = Nbt(simple_nbt_bytes());
    tag.minecraft_write(&mut vec);
    assert_eq!(
        vec,
        &[10, 0, 0, 8, 0, 3, 75, 101, 121, 0, 5, 86, 97, 108, 117, 101, 0]
    );
}

#[test]
fn tests_test_write_simple_nbt() {
    let mut vec = vec![];
    let tag = Nbt(simple_nbt_bytes());
    tag.minecraft_write(&mut vec);
    assert_eq!(
        vec,
        &[10, 0, 0, 8, 0, 3, 75, 101, 121, 0, 5, 86, 97, 108, 117, 101, 0]
    );
}

#[test]
fn packet_test_write_slot() {
    let mut vec = vec![];
    let mut slot = Slot::Nothing;
    slot.minecraft_write(&mut vec);
    assert_eq!(vec, &[0]);

    vec.clear();
    slot = Slot::Item {
        id: VarInt(1),
        count: 1,
        nbt: None,
    };
    slot.minecraft_write(&mut vec);
    assert_eq!(vec, &[1, 1, 1, 0]);
}

#[test]
fn tests_test_write_slot() {
    let mut vec = vec![];
    let mut slot = Slot::Nothing;
    slot.minecraft_write(&mut vec);
    assert_eq!(vec, &[0]);

    vec.clear();
    slot = Slot::Item {
        id: VarInt(1),
        count: 1,
        nbt: None,
    };
    slot.minecraft_write(&mut vec);
    assert_eq!(vec, &[1, 1, 1, 0]);
}

#[test]
fn slot_round_trips_without_spurious_tag() {
    let slot = Slot::Item {
        id: VarInt(7),
        count: 3,
        nbt: None,
    };
    let mut vec = vec![];
    slot.minecraft_write(&mut vec);
    let mut reader = Reader::new(vec);
    let back = Slot::minecraft_read(&mut reader).unwrap();
    assert_eq!(back, slot);
    match back {
        Slot::Item { nbt, .. } => assert!(nbt.is_none()),
        Slot::Nothing => panic!(),
    }

    let mut vec = vec![];
    Slot::Nothing.minecraft_write(&mut vec);
    let mut reader = Reader::new(vec);
    assert_eq!(Slot::minecraft_read(&mut reader).unwrap(), Slot::Nothing);
}

#[test]
fn slot_with_tag_round_trips() {
    let slot = Slot::Item {
        id: VarInt(9),
        count: 2,
        nbt: Some(Nbt(simple_nbt_bytes())),
    };
    let mut vec = vec![];
    slot.minecraft_write(&mut vec);
    let mut reader = Reader::new(vec);
    let back = Slot::minecraft_read(&mut reader).unwrap();
    assert_eq!(back, slot);
}

#[test]
fn position_round_trips_at_range_edges() {
    for &(x, y, z) in &[
        (0, 0, 0),
        (1, 1, 1),
        (-1, -1, -1),
        (33554431, 2047, 33554431),
        (-33554432, -2048, -33554432),
        (12345, -90, -6789),
    ] {
        let p = Position { x, y, z };
        let mut vec = vec![];
        p.minecraft_write(&mut vec);
        assert_eq!(vec.len(), 8);
        let mut reader = Reader::new(vec);
        assert_eq!(Position::minecraft_read(&mut reader).unwrap(), p);
    }
}

#[test]
fn string_round_trips_and_rejects_bad_input() {
    let s = String::from("jalapen\u{0303}o \u{1F600}");
    let mut vec = vec![];
    s.minecraft_write(&mut vec);
    let mut reader = Reader::new(vec);
    assert_eq!(String::minecraft_read(&mut reader).unwrap(), s);

    // A length prefix exceeding the remaining buffer fails, it does not panic.
    let mut vec = vec![];
    VarInt(5).write(&mut vec);
    vec.extend_from_slice(b"ab");
    let mut reader = Reader::new(vec);
    assert_eq!(
        String::minecraft_read(&mut reader),
        Err(mcproto::error::DecodeError::NotEnoughBytes)
    );

    // Invalid UTF-8 is an error, not a panic.
    let mut vec = vec![];
    VarInt(2).write(&mut vec);
    vec.extend_from_slice(&[0xFF, 0xFE]);
    let mut reader = Reader::new(vec);
    assert_eq!(
        String::minecraft_read(&mut reader),
        Err(mcproto::error::DecodeError::InvalidUtf8)
    );

    // A negative length prefix is rejected.
    let mut vec = vec![];
    VarInt(-1).write(&mut vec);
    let mut reader = Reader::new(vec);
    assert_eq!(
        String::minecraft_read(&mut reader),
        Err(mcproto::error::DecodeError::BadLength)
    );
}

#[test]
fn bool_rejects_out_of_range_discriminant() {
    let mut reader = Reader::new(vec![2u8]);
    assert_eq!(
        bool::minecraft_read(&mut reader),
        Err(mcproto::error::DecodeError::InvalidDiscriminant)
    );
    let mut reader = Reader::new(vec![1u8, 0u8]);
    assert_eq!(bool::minecraft_read(&mut reader), Ok(true));
    assert_eq!(bool::minecraft_read(&mut reader), Ok(false));
}

#[test]
fn nbt_decode_consumes_one_compound_exactly() {
    let mut bytes = simple_nbt_bytes();
    let tail = [9u8, 9, 9];
    bytes.extend_from_slice(&tail);
    let mut reader = Reader::new(bytes.clone());
    let tag = Nbt::minecraft_read(&mut reader).unwrap();
    assert_eq!(tag.0, simple_nbt_bytes());
    assert_eq!(reader.remaining(), 3);

    // Bytes that do not start a compound tag are rejected.
    let mut reader = Reader::new(vec![8u8, 0, 0]);
    assert_eq!(
        Nbt::minecraft_read(&mut reader),
        Err(mcproto::error::DecodeError::InvalidNbt)
    );
}

#[test]
fn length_prefixed_array_round_trips() {
    let arr = LengthPrefixedArray::<VarInt, u16>::from_vec(vec![700u16, 0u16, 65535u16]);
    let mut vec = vec![];
    arr.minecraft_write(&mut vec);
    let mut reader = Reader::new(vec);
    let back = LengthPrefixedArray::<VarInt, u16>::minecraft_read(&mut reader).unwrap();
    assert_eq!(back.value, vec![700u16, 0u16, 65535u16]);
    assert_eq!(reader.remaining(), 0);
}

#[test]
fn fixed_width_integers_are_big_endian() {
    let mut vec = vec![];
    0x0102u16.minecraft_write(&mut vec);
    (-2i16).minecraft_write(&mut vec);
    0x01020304u32.minecraft_write(&mut vec);
    (-1i32).minecraft_write(&mut vec);
    assert_eq!(
        vec,
        &[1, 2, 255, 254, 1, 2, 3, 4, 255, 255, 255, 255]
    );
    let mut reader = Reader::new(vec);
    assert_eq!(u16::minecraft_read(&mut reader).unwrap(), 0x0102);
    assert_eq!(i16::minecraft_read(&mut reader).unwrap(), -2);
    assert_eq!(u32::minecraft_read(&mut reader).unwrap(), 0x01020304);
    assert_eq!(i32::minecraft_read(&mut reader).unwrap(), -1);

    let mut vec = vec![];
    (-3i64).minecraft_write(&mut vec);
    (0x1122334455667788u64).minecraft_write(&mut vec);
    i128::MIN.minecraft_write(&mut vec);
    u128::MAX.minecraft_write(&mut vec);
    let mut reader = Reader::new(vec);
    assert_eq!(i64::minecraft_read(&mut reader).unwrap(), -3);
    assert_eq!(u64::minecraft_read(&mut reader).unwrap(), 0x1122334455667788);
    assert_eq!(i128::minecraft_read(&mut reader).unwrap(), i128::MIN);
    assert_eq!(u128::minecraft_read(&mut reader).unwrap(), u128::MAX);
}

#[test]
fn nbt_negative_lengths_are_rejected_not_fatal() {
    // A compound holding a byte array that claims length -1: structural
    // scanning rejects it; nothing is allocated from the claimed length.
    let bad_byte_array = vec![0x0a, 0, 0, 0x07, 0, 0, 0xff, 0xff, 0xff, 0xff];
    let mut reader = Reader::new(bad_byte_array.clone());
    assert_eq!(
        Nbt::minecraft_read(&mut reader),
        Err(mcproto::error::DecodeError::InvalidNbt)
    );

    // The same stream as an item's tag, through the slot decoder.
    let mut slot_bytes = vec![1, 1, 1];
    slot_bytes.extend_from_slice(&bad_byte_array);
    let mut reader = Reader::new(slot_bytes);
    assert_eq!(
        Slot::minecraft_read(&mut reader),
        Err(mcproto::error::DecodeError::InvalidNbt)
    );

    // Int and long arrays, and a list, with a negative count.
    for tag in [0x0b_u8, 0x0c] {
        let bad = vec![0x0a, 0, 0, tag, 0, 0, 0xff, 0xff, 0xff, 0xff];
        let mut reader = Reader::new(bad);
        assert_eq!(
            Nbt::minecraft_read(&mut reader),
            Err(mcproto::error::DecodeError::InvalidNbt)
        );
    }
    let bad_list = vec![0x0a, 0, 0, 0x09, 0, 0, 0x01, 0xff, 0xff, 0xff, 0xff];
    let mut reader = Reader::new(bad_list);
    assert_eq!(
        Nbt::minecraft_read(&mut reader),
        Err(mcproto::error::DecodeError::InvalidNbt)
    );
}

fn nested_compound_bytes(levels: usize) -> Vec<u8> {
    // A named root compound holding `levels` further compounds, each with
    // an empty name, all closed by end tags.
    let mut bytes = vec![0x0a, 0, 0];
    for _ in 0..levels {
        bytes.extend_from_slice(&[0x0a, 0, 0]);
    }
    for _ in 0..levels + 1 {
        bytes.push(0x00);
    }
    bytes
}

#[test]
fn nbt_nesting_depth_is_bounded() {
    // Within the depth bound the whole compound scans.
    let ok = nested_compound_bytes(400);
    let expected = Nbt(ok.clone());
    let mut reader = Reader::new(ok);
    assert_eq!(Nbt::minecraft_read(&mut reader), Ok(expected));
    assert_eq!(reader.remaining(), 0);

    // Beyond the bound the stream is rejected, without exhausting the
    // stack.
    let too_deep = nested_compound_bytes(100000);
    let mut reader = Reader::new(too_deep);
    assert_eq!(
        Nbt::minecraft_read(&mut reader),
        Err(mcproto::error::DecodeError::InvalidNbt)
    );
}

#[test]
fn nbt_scans_every_tag_kind() {
    let mut inner = nbt::Map::new();
    inner.insert(String::from("inner"), nbt::Value::Short(-2));
    let mut blob = nbt::Blob::new();
    blob.insert("byte", nbt::Value::Byte(1)).unwrap();
    blob.insert("long", nbt::Value::Long(-9)).unwrap();
    blob.insert("float", nbt::Value::Float(1.5)).unwrap();
    blob.insert("double", nbt::Value::Double(2.5)).unwrap();
    blob.insert("bytes", nbt::Value::ByteArray(vec![1, -2, 3])).unwrap();
    blob.insert("ints", nbt::Value::IntArray(vec![7, -8])).unwrap();
    blob.insert("longs", nbt::Value::LongArray(vec![9, -10])).unwrap();
    blob.insert(
        "list",
        nbt::Value::List(vec![nbt::Value::Int(4), nbt::Value::Int(5)]),
    )
    .unwrap();
    blob.insert("empty_list", nbt::Value::List(vec![])).unwrap();
    blob.insert("compound", nbt::Value::Compound(inner)).unwrap();
    blob.insert("text", nbt::Value::String(String::from("hi"))).unwrap();
    let mut bytes = vec![];
    blob.to_writer(&mut bytes).unwrap();
    let tag = Nbt(bytes.clone());

    // The scanner finds exactly the tag's extent, past any trailing bytes.
    let mut stream = bytes.clone();
    stream.extend_from_slice(&[0xAA, 0xBB]);
    let mut reader = Reader::new(stream);
    assert_eq!(Nbt::minecraft_read(&mut reader), Ok(tag));
    assert_eq!(reader.remaining(), 2);
}
