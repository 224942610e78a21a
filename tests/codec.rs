use serial_link::codec::{FRAME_CAPACITY, SENTINEL};
use serial_link::{
    deserialize_crc_cobs, serialize_crc_cobs, Command, DeserError, Message, Response,
    SerializationError,
};

const SET_FRAME: [u8; 20] = [1, 2, 18, 1, 1, 3, 1, 12, 1, 1, 2, 1, 1, 1, 5, 104, 13, 26, 12, 0];
const SET_OK_FRAME: [u8; 7] = [6, 1, 72, 226, 62, 251, 0];
const PARSE_ERROR_FRAME: [u8; 7] = [6, 2, 145, 196, 125, 246, 0];
const GET_FRAME: [u8; 19] = [3, 1, 18, 1, 1, 2, 12, 1, 1, 2, 1, 1, 1, 5, 128, 118, 127, 5, 0];
const DATA_FRAME: [u8; 23] = [
    1, 2, 18, 1, 1, 2, 12, 1, 1, 1, 1, 1, 1, 2, 1, 1, 1, 5, 218, 71, 104, 174, 0,
];

fn encode_command(c: &Command) -> Vec<u8> {
    let mut buf = [0u8; FRAME_CAPACITY];
    let n = serialize_crc_cobs(c, &mut buf).unwrap();
    buf[..n].to_vec()
}

fn encode_response(r: &Response) -> Vec<u8> {
    let mut buf = [0u8; FRAME_CAPACITY];
    let n = serialize_crc_cobs(r, &mut buf).unwrap();
    buf[..n].to_vec()
}

fn all_commands() -> Vec<Command> {
    vec![
        Command::SetValue(0x12, Message::B(12), 0b001),
        Command::SetValue(0, Message::A, 0),
        Command::SetValue(u32::MAX, Message::C(1.5f32.to_bits()), 7),
        Command::SetValue(1, Message::C(f32::NAN.to_bits()), u32::MAX),
        Command::Get(0x12, 12, 0b001),
        Command::Get(0, 0, 0),
        Command::Get(u32::MAX, u32::MAX, u32::MAX),
    ]
}

fn all_responses() -> Vec<Response> {
    vec![
        Response::Data(0x12, 12, 0, 1),
        Response::Data(u32::MAX, 0, 0xdead_beef, 3),
        Response::SetOk,
        Response::ParseError,
    ]
}

#[test]
fn set_command_frame_bytes() {
    let f = encode_command(&Command::SetValue(0x12, Message::B(12), 0b001));
    assert_eq!(f, SET_FRAME.to_vec());
}

#[test]
fn get_command_frame_bytes() {
    let f = encode_command(&Command::Get(0x12, 12, 0b001));
    assert_eq!(f, GET_FRAME.to_vec());
}

#[test]
fn response_frame_bytes() {
    assert_eq!(encode_response(&Response::SetOk), SET_OK_FRAME.to_vec());
    assert_eq!(encode_response(&Response::ParseError), PARSE_ERROR_FRAME.to_vec());
    assert_eq!(encode_response(&Response::Data(0x12, 12, 0, 1)), DATA_FRAME.to_vec());
}

#[test]
fn largest_frame_fills_capacity() {
    assert_eq!(DATA_FRAME.len(), FRAME_CAPACITY);
    assert_eq!(encode_response(&Response::Data(1, 2, 3, 4)).len(), FRAME_CAPACITY);
}

#[test]
fn round_trip_commands() {
    for c in all_commands() {
        let mut f = encode_command(&c);
        assert_eq!(deserialize_crc_cobs::<Command>(&mut f).ok(), Some(c));
    }
}

#[test]
fn round_trip_responses() {
    for r in all_responses() {
        let mut f = encode_response(&r);
        assert_eq!(deserialize_crc_cobs::<Response>(&mut f).ok(), Some(r));
    }
}

#[test]
fn round_trip_ignores_bytes_after_sentinel() {
    let c = Command::Get(5, 6, 7);
    let mut f = encode_command(&c);
    f.extend_from_slice(&[9, 9, 0, 4]);
    assert_eq!(deserialize_crc_cobs::<Command>(&mut f).ok(), Some(c));
}

#[test]
fn float_message_keeps_its_bits() {
    let bits = (-0.25f32).to_bits();
    let mut f = encode_command(&Command::SetValue(1, Message::C(bits), 2));
    match deserialize_crc_cobs::<Command>(&mut f) {
        Ok(Command::SetValue(1, Message::C(b), 2)) => assert_eq!(f32::from_bits(b), -0.25f32),
        other => panic!("unexpected {:?}", other),
    }
}

#[test]
fn sentinel_only_at_end() {
    let mut frames: Vec<Vec<u8>> = all_commands().iter().map(encode_command).collect();
    frames.extend(all_responses().iter().map(encode_response));
    for f in frames {
        assert_eq!(*f.last().unwrap(), SENTINEL);
        assert!(f[..f.len() - 1].iter().all(|&b| b != SENTINEL));
    }
}

#[test]
fn single_bit_flip_is_detected() {
    let original = Command::SetValue(0x12, Message::B(12), 0b001);
    let f = encode_command(&original);
    let mut crc = 0;
    let mut frame = 0;
    for i in 0..f.len() - 1 {
        for bit in 0..8 {
            let mut g = f.clone();
            g[i] ^= 1 << bit;
            match deserialize_crc_cobs::<Command>(&mut g) {
                Err(DeserError::CrcError) => crc += 1,
                Err(DeserError::ParseError) => frame += 1,
                Ok(v) => panic!("flip of bit {} in byte {} decoded as {:?}", bit, i, v),
            }
        }
    }
    assert_eq!(crc, 72);
    assert_eq!(frame, 80);
}

#[test]
fn damaged_checksum_is_crc_error() {
    let mut f = SET_OK_FRAME.to_vec();
    f[2] ^= 0x01;
    assert_eq!(deserialize_crc_cobs::<Response>(&mut f).err(), Some(DeserError::CrcError));
}

#[test]
fn damaged_payload_is_crc_error() {
    let mut f = SET_FRAME.to_vec();
    f[2] = 19;
    assert_eq!(deserialize_crc_cobs::<Command>(&mut f).err(), Some(DeserError::CrcError));
}

#[test]
fn empty_frame_is_parse_error() {
    let mut f = vec![0u8];
    assert_eq!(deserialize_crc_cobs::<Command>(&mut f).err(), Some(DeserError::ParseError));
    let mut none: Vec<u8> = vec![];
    assert_eq!(deserialize_crc_cobs::<Response>(&mut none).err(), Some(DeserError::ParseError));
}

#[test]
fn truncated_block_is_parse_error() {
    let mut f = vec![5u8, 1, 2];
    assert_eq!(deserialize_crc_cobs::<Command>(&mut f).err(), Some(DeserError::ParseError));
}

#[test]
fn unknown_variant_is_parse_error() {
    // A command frame read as a response: tag 0 asks for 17 bytes of fields.
    let mut f = SET_FRAME.to_vec();
    assert_eq!(deserialize_crc_cobs::<Response>(&mut f).err(), Some(DeserError::ParseError));
    let mut g = vec![2u8, 7, 0];
    assert_eq!(deserialize_crc_cobs::<Command>(&mut g).err(), Some(DeserError::ParseError));
}

#[test]
fn extra_bytes_before_sentinel_are_parse_error() {
    // SetOk with its checksum and one more byte.
    let mut f = vec![7u8, 1, 72, 226, 62, 251, 9, 0];
    assert_eq!(deserialize_crc_cobs::<Response>(&mut f).err(), Some(DeserError::ParseError));
}

#[test]
fn small_buffer_is_serialization_error() {
    let mut buf = [7u8; 19];
    let r = serialize_crc_cobs(&Command::SetValue(0x12, Message::B(12), 1), &mut buf);
    assert_eq!(r, Err(SerializationError::BufferTooSmall));
    assert_eq!(buf, [7u8; 19]);
    let mut exact = [7u8; 20];
    let n = serialize_crc_cobs(&Command::SetValue(0x12, Message::B(12), 1), &mut exact).unwrap();
    assert_eq!(n, 20);
    assert_eq!(exact, SET_FRAME);
}

#[test]
fn bytes_past_the_frame_are_left_alone() {
    let mut buf = [0xAAu8; 40];
    let n = serialize_crc_cobs(&Response::SetOk, &mut buf).unwrap();
    assert_eq!(n, 7);
    assert_eq!(&buf[..7], &SET_OK_FRAME);
    assert!(buf[7..].iter().all(|&b| b == 0xAA));
}
