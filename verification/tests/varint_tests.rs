//! Variable-length integer wire tests: the seed vectors, byte for byte,
//! and the error cases.

use mcproto::error::VarIntError;
use mcproto::reader::Reader;
use mcproto::varint::{VarInt, VarLong};

const VARINT_CONVERSIONS: &[(i32, &[u8])] = &[
    (0, &[0]),
    (1, &[1]),
    (2, &[2]),
    (127, &[127]),
    (128, &[128, 1]),
    (255, &[255, 1]),
    (25565, &[221, 199, 1]),
    (2097151, &[255, 255, 127]),
    (2147483647, &[255, 255, 255, 255, 7]),
    (-1, &[255, 255, 255, 255, 15]),
    (-2147483648, &[128, 128, 128, 128, 8]),
];

#[test]
fn test_varint_encode() {
    let mut vec = vec![];
    for &(number, bytes) in VARINT_CONVERSIONS {
        VarInt(number).write(&mut vec);
        assert_eq!(vec, bytes);
        vec.clear();
    }
}

#[test]
fn test_varint_decode() {
    for &(number, bytes) in VARINT_CONVERSIONS {
        let vec = Vec::from(bytes);
        let mut reader = Reader::new(vec);
        let varint_value = VarInt::read(&mut reader).unwrap();
        assert_eq!(number, varint_value.0);
    }
}

const VARLONG_CONVERSIONS: &[(i64, &[u8])] = &[
    (0, &[0]),
    (1, &[1]),
    (2, &[2]),
    (127, &[127]),
    (128, &[128, 1]),
    (255, &[255, 1]),
    (25565, &[221, 199, 1]),
    (2097151, &[255, 255, 127]),
    (2147483647, &[255, 255, 255, 255, 7]),
    (
        9223372036854775807,
        &[255, 255, 255, 255, 255, 255, 255, 255, 127],
    ),
    (-1, &[255, 255, 255, 255, 255, 255, 255, 255, 255, 1]),
    (
        -2147483648,
        &[128, 128, 128, 128, 248, 255, 255, 255, 255, 1],
    ),
    (
        -9223372036854775808,
        &[128, 128, 128, 128, 128, 128, 128, 128, 128, 1],
    ),
];

#[test]
fn test_varlong_encode() {
    let mut vec = vec![];
    for &(number, bytes) in VARLONG_CONVERSIONS {
        VarLong(number).write(&mut vec);
        assert_eq!(vec, bytes);
        vec.clear();
    }
}

#[test]
fn varlong_decode_inverts_encode() {
    for &(number, bytes) in VARLONG_CONVERSIONS {
        let mut reader = Reader::new(Vec::from(bytes));
        let value = VarLong::read(&mut reader).unwrap();
        assert_eq!(number, value.0);
        assert_eq!(reader.remaining(), 0);
    }
}

#[test]
fn varint_round_trips_with_trailing_bytes() {
    for &(number, bytes) in VARINT_CONVERSIONS {
        let mut vec = Vec::from(bytes);
        vec.extend_from_slice(&[0xAB, 0xCD]);
        let mut reader = Reader::new(vec);
        assert_eq!(VarInt::read(&mut reader).unwrap().0, number);
        assert_eq!(reader.remaining(), 2);
    }
}

#[test]
fn varint_errors() {
    // An exhausted source before a terminating byte.
    let mut reader = Reader::new(vec![]);
    assert_eq!(VarInt::read(&mut reader), Err(VarIntError::NotEnoughBytes));
    let mut reader = Reader::new(vec![0x80, 0x80]);
    assert_eq!(VarInt::read(&mut reader), Err(VarIntError::NotEnoughBytes));

    // More than 5 groups before a terminating byte.
    let mut reader = Reader::new(vec![0x80, 0x80, 0x80, 0x80, 0x80, 0x01]);
    assert_eq!(VarInt::read(&mut reader), Err(VarIntError::TooManyBytes));

    // The 64-bit variant allows up to 10 groups, and no more.
    let mut reader = Reader::new(vec![0x80, 0x80, 0x80, 0x80, 0x80, 0x01]);
    assert_eq!(VarLong::read(&mut reader), Ok(VarLong(1 << 35)));
    let mut reader = Reader::new(vec![
        0x80, 0x80, 0x80, 0x80, 0x80, 0x80, 0x80, 0x80, 0x80, 0x80, 0x01,
    ]);
    assert_eq!(VarLong::read(&mut reader), Err(VarIntError::TooManyBytes));
}
