//! Wire tests for the remaining field types: string newtypes, byte blobs,
//! implicit sequences, tuples, and the angle quantization scenario.

use mcproto::codec::MinecraftIo;
use mcproto::error::DecodeError;
use mcproto::reader::Reader;
use mcproto::types::{Angle, ByteArray, Chat, Identifier, LengthPrefixedByteArray};
use mcproto::varint::VarInt;

#[test]
fn identifier_and_chat_round_trip() {
    let ident = Identifier(String::from("minecraft:stone"));
    let mut vec = vec![];
    ident.minecraft_write(&mut vec);
    assert_eq!(vec[0], 15);
    let mut reader = Reader::new(vec);
    assert_eq!(Identifier::minecraft_read(&mut reader).unwrap(), ident);

    let chat = Chat(String::from("hello"));
    let mut vec = vec![];
    chat.minecraft_write(&mut vec);
    assert_eq!(vec, b"\x05hello");
    let mut reader = Reader::new(vec);
    assert_eq!(Chat::minecraft_read(&mut reader).unwrap(), chat);
}

#[test]
fn byte_array_takes_the_rest() {
    let blob = ByteArray(vec![1, 2, 3]);
    let mut vec = vec![];
    blob.minecraft_write(&mut vec);
    assert_eq!(vec, vec![1, 2, 3]);
    let mut reader = Reader::new(vec);
    let back = ByteArray::minecraft_read(&mut reader).unwrap();
    assert_eq!(back.into_inner(), vec![1, 2, 3]);
    assert_eq!(reader.remaining(), 0);

    assert_eq!(ByteArray::new(), ByteArray(vec![]));
}

#[test]
fn length_prefixed_byte_array_round_trips() {
    let arr = LengthPrefixedByteArray::<VarInt>::from_vec(vec![9, 8, 7]);
    let mut vec = vec![];
    arr.minecraft_write(&mut vec);
    assert_eq!(vec, vec![3, 9, 8, 7]);
    let mut reader = Reader::new(vec);
    let back = LengthPrefixedByteArray::<VarInt>::minecraft_read(&mut reader).unwrap();
    assert_eq!(back.value, vec![9, 8, 7]);

    // A prefix that exceeds the remaining bytes fails, it does not panic.
    let mut reader = Reader::new(vec![5, 1, 2]);
    assert!(matches!(
        LengthPrefixedByteArray::<VarInt>::minecraft_read(&mut reader),
        Err(DecodeError::NotEnoughBytes)
    ));
}

#[test]
fn implicit_sequence_reads_until_exhausted() {
    let mut reader = Reader::new(vec![0, 1, 0, 2, 0, 3]);
    let values = Vec::<u16>::minecraft_read(&mut reader).unwrap();
    assert_eq!(values, vec![1, 2, 3]);
    assert_eq!(reader.remaining(), 0);

    // A trailing fragment that is no whole element is an error.
    let mut reader = Reader::new(vec![0, 1, 0]);
    assert!(matches!(
        Vec::<u16>::minecraft_read(&mut reader),
        Err(DecodeError::NotEnoughBytes)
    ));
}

#[test]
fn tuples_encode_in_positional_order() {
    let pair = (1u16, VarInt(300));
    let mut vec = vec![];
    pair.minecraft_write(&mut vec);
    assert_eq!(vec, vec![0, 1, 172, 2]);
    let mut reader = Reader::new(vec);
    assert_eq!(<(u16, VarInt)>::minecraft_read(&mut reader).unwrap(), pair);

    let triple = (true, 2i8, 3u8);
    let mut vec = vec![];
    triple.minecraft_write(&mut vec);
    assert_eq!(vec, vec![1, 2, 3]);
    let mut reader = Reader::new(vec);
    assert_eq!(
        <(bool, i8, u8)>::minecraft_read(&mut reader).unwrap(),
        triple
    );
}

fn encode_radians(radians: f32) -> Angle {
    Angle((radians / (2. * std::f32::consts::PI) * 256.) as u8)
}

fn decode_radians(angle: Angle) -> f32 {
    angle.0 as f32 / 256. * 2. * std::f32::consts::PI
}

#[test]
fn angle_quantization_error_is_bounded() {
    // The quantization bound of the byte wire form, for one turn's worth of
    // angles: |decode(encode(t)) - t| <= pi / 128. The radian conversion is
    // the caller's floating-point arithmetic; the codec carries the byte.
    let pi = std::f32::consts::PI;
    let mut theta = 0.0f32;
    let mut last_step = 0u8;
    while theta < 2. * pi {
        let encoded = encode_radians(theta);
        let mut vec = vec![];
        encoded.minecraft_write(&mut vec);
        let mut reader = Reader::new(vec);
        let back = Angle::minecraft_read(&mut reader).unwrap();
        assert_eq!(back, encoded);
        let err = (decode_radians(back) - theta).abs();
        assert!(err <= pi / 128.);
        // The step count is monotonic over one turn.
        assert!(encoded.0 >= last_step);
        last_step = encoded.0;
        theta += 0.01;
    }
}
