use dns_codec::header::{Header, Opcode, ResponseCode};
use dns_codec::{Buffer, CodecError, DeSerialize, Serialize};

#[test]
fn header_deserialize() {
    let raw = vec![
        0x00, 0x02, 0x81, 0x80, 0x00, 0x01, 0x00, 0x00, 0x00, 0x00, 0x00, 0x01,
    ];

    let expected = Header::new(
        2,
        true,
        Opcode::Query,
        false,
        false,
        true,
        true,
        ResponseCode::NoError,
        1,
        0,
        0,
        1,
    );

    let mut buffer = Buffer {
        current: &raw,
        source: &raw,
    };
    let (_, actual) = Header::deserialize(&mut buffer).unwrap();

    assert_eq!(expected, actual);
}

#[test]
fn header_deserialize_moves_cursor_past_header() {
    let raw = vec![
        0x00, 0x02, 0x81, 0x80, 0x00, 0x01, 0x00, 0x00, 0x00, 0x00, 0x00, 0x01, 0xAA,
    ];
    let mut buffer = Buffer::new(&raw);
    let (after, _) = Header::deserialize(&mut buffer).unwrap();
    assert_eq!(after.current, &[0xAA][..]);
    assert_eq!(buffer.current, &[0xAA][..]);
}

#[test]
fn header_round_trip_all_fields() {
    let h = Header::new(
        0xBEEF,
        true,
        Opcode::Status,
        true,
        false,
        true,
        false,
        ResponseCode::Refused,
        65535,
        7,
        0,
        300,
    );
    let bytes = h.serialize().unwrap();
    assert_eq!(
        bytes,
        vec![0xBE, 0xEF, 0x95, 0x05, 0xFF, 0xFF, 0x00, 0x07, 0x00, 0x00, 0x01, 0x2C]
    );
    let mut buffer = Buffer::new(&bytes);
    let (_, back) = Header::deserialize(&mut buffer).unwrap();
    assert_eq!(back, h);
}

#[test]
fn header_reserved_opcode_has_its_own_pattern() {
    let h = Header::new(1, false, Opcode::Reserved, false, false, false, false, ResponseCode::NoError, 0, 0, 0, 0);
    let bytes = h.serialize().unwrap();
    assert_eq!(bytes[2], 0x18);
    let mut buffer = Buffer::new(&bytes);
    let (_, back) = Header::deserialize(&mut buffer).unwrap();
    assert_eq!(back.opcode, Opcode::Reserved);
}

#[test]
fn header_reserved_bits_sent_as_zero() {
    let mut h = Header::request();
    h.z = 5;
    h.ra = true;
    let bytes = h.serialize().unwrap();
    assert_eq!(bytes[3], 0x80);
    let mut buffer = Buffer::new(&bytes);
    let (_, back) = Header::deserialize(&mut buffer).unwrap();
    assert_eq!(back.z, 0);
}

#[test]
fn header_z_bits_are_read_and_kept() {
    let raw = vec![0x00, 0x01, 0x00, 0x70, 0, 0, 0, 0, 0, 0, 0, 0];
    let mut buffer = Buffer::new(&raw);
    let (_, h) = Header::deserialize(&mut buffer).unwrap();
    assert_eq!(h.z, 7);
}

#[test]
fn header_too_short_is_eof_and_cursor_stays() {
    let raw = vec![0x00, 0x02, 0x81, 0x80, 0x00];
    let mut buffer = Buffer::new(&raw);
    assert_eq!(Header::deserialize(&mut buffer).unwrap_err(), CodecError::UnexpectedEof);
    assert_eq!(buffer.current.len(), 5);
}

#[test]
fn header_unknown_opcode_is_refused() {
    let raw = vec![0x00, 0x02, 0x20, 0x00, 0, 0, 0, 0, 0, 0, 0, 0];
    let mut buffer = Buffer::new(&raw);
    assert_eq!(Header::deserialize(&mut buffer).unwrap_err(), CodecError::UnsupportedOpcode);
}

#[test]
fn header_unknown_response_code_is_refused() {
    let raw = vec![0x00, 0x02, 0x00, 0x06, 0, 0, 0, 0, 0, 0, 0, 0];
    let mut buffer = Buffer::new(&raw);
    assert_eq!(Header::deserialize(&mut buffer).unwrap_err(), CodecError::UnsupportedResponseCode);
}
