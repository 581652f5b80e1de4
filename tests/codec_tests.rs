use std::time::Duration;

use dns_codec::header::{Header, Opcode, ResponseCode};
use dns_codec::{Buffer, CodecError, DeSerialize, Message, QClass, QType, Question, RData, Record, Serialize};

// ========== Question Section ===========
// 0462 6c6f 67                                     -> length 4 + ASCII "blog"
// 0c 746f 6572 6b74 756d 6c61 7265                 -> length 12 + text "toerktumlare"
// 0363 6f6d                                        -> length 3 + text "com"
// 00                                               -> null termination
// 0001                                             -> QType
// 0001                                             -> QClass
#[test]
fn deserialize_question() {
    let raw = vec![
        0x04, 0x62, 0x6c, 0x6f, 0x67, 0x0c, 0x74, 0x6f, 0x65, 0x72, 0x6b, 0x74, 0x75, 0x6d,
        0x6c, 0x61, 0x72, 0x65, 0x03, 0x63, 0x6f, 0x6d, 0x00, 0x00, 0x01, 0x00, 0x01,
    ];

    let mut buffer = Buffer {
        current: &raw,
        source: &raw,
    };
    let (_, actual) = Question::deserialize(&mut buffer).unwrap();

    let expected = Question::new("blog.toerktumlare.com", QType::A, QClass::IN);
    assert_eq!(expected, actual)
}

#[test]
fn serialize_question_known_vector() {
    let q = Question::new("google.com", QType::A, QClass::IN);
    assert_eq!(
        q.serialize().unwrap(),
        vec![0x06, 0x67, 0x6f, 0x6f, 0x67, 0x6c, 0x65, 0x03, 0x63, 0x6f, 0x6d, 0x00, 0x00, 0x01, 0x00, 0x01]
    );
}

#[test]
fn question_round_trip() {
    for (name, t, c) in [
        ("blog.toerktumlare.com", QType::MX, QClass::CH),
        ("a.b.c.d.e", QType::AAAA, QClass::STAR),
        ("", QType::NS, QClass::HS),
        ("xn--caf\u{e9}.org", QType::SOA, QClass::CS),
    ] {
        let q = Question::new(name, t, c);
        let bytes = q.serialize().unwrap();
        let mut buffer = Buffer::new(&bytes);
        let (after, back) = Question::deserialize(&mut buffer).unwrap();
        assert_eq!(back, q);
        assert_eq!(after.current.len(), 0);
    }
}

#[test]
fn question_with_refused_type() {
    let q = Question::new("example.com", QType::MD, QClass::IN);
    assert_eq!(q.serialize().unwrap_err(), CodecError::UnsupportedType);
    let q = Question::new(&"z".repeat(70), QType::A, QClass::IN);
    assert_eq!(q.serialize().unwrap_err(), CodecError::InvalidLabelLength);
}

#[test]
fn question_decode_errors() {
    let raw = vec![0x01, b'a', 0x00, 0x00, 0x63, 0x00, 0x01];
    let mut buffer = Buffer::new(&raw);
    assert_eq!(Question::deserialize(&mut buffer).unwrap_err(), CodecError::UnsupportedType);
    let raw = vec![0x01, b'a', 0x00, 0x00, 0x01, 0x00, 0x09];
    let mut buffer = Buffer::new(&raw);
    assert_eq!(Question::deserialize(&mut buffer).unwrap_err(), CodecError::UnsupportedClass);
    assert_eq!(buffer.current.len(), raw.len());
}

#[test]
fn parse_record() {
    let raw = vec![
        0x06, 0x67, 0x6f, 0x6f, 0x67, 0x6c, 0x65, 0x03, 0x63, 0x6f, 0x6d, 0x00, 0x00, 0x01,
        0x00, 0x01, 0x00, 0x00, 0x0e, 0x10, 0x00, 0x04, 0x01, 0x02, 0x03, 0x04,
    ];

    let mut buffer = Buffer {
        current: &raw,
        source: &raw,
    };
    let (_, actual) = Record::deserialize(&mut buffer).unwrap();

    let expected = Record::new(
        "google.com".to_owned(),
        QType::A,
        QClass::IN,
        Duration::new(3600, 0).as_secs() as u32,
        4,
        RData::A([1, 2, 3, 4]),
    );

    assert_eq!(expected, actual);
}

#[test]
fn record_payloads_round_trip() {
    let records = vec![
        Record::new("a.example".to_owned(), QType::A, QClass::IN, 0, 4, RData::A([10, 0, 0, 1])),
        Record::new(
            "v6.example".to_owned(),
            QType::AAAA,
            QClass::IN,
            60,
            16,
            RData::AAAA([0, 0, 0, 0, 0, 0, 0, 0, 0, 0, 0, 0, 0, 0, 0, 1]),
        ),
        Record::new(
            "www.example".to_owned(),
            QType::CNAME,
            QClass::IN,
            3600,
            13,
            RData::CNAME("web.example".to_owned()),
        ),
        Record::new("t.example".to_owned(), QType::TXT, QClass::IN, 1, 7, RData::TXT("v=spf1 ".to_owned())),
    ];
    for r in records {
        let bytes = r.serialize().unwrap();
        let mut buffer = Buffer::new(&bytes);
        let (_, back) = Record::deserialize(&mut buffer).unwrap();
        assert_eq!(back, r);
    }
}

#[test]
fn record_encode_errors() {
    let wrong_len = Record::new("a".to_owned(), QType::A, QClass::IN, 0, 5, RData::A([1, 1, 1, 1]));
    assert_eq!(wrong_len.serialize().unwrap_err(), CodecError::InvalidLabelLength);
    let mismatch = Record::new("a".to_owned(), QType::TXT, QClass::IN, 0, 4, RData::A([1, 1, 1, 1]));
    assert_eq!(mismatch.serialize().unwrap_err(), CodecError::UnsupportedType);
}

#[test]
fn record_decode_errors() {
    // type MX has no payload codec
    let raw = vec![0x00, 0x00, 0x0F, 0x00, 0x01, 0, 0, 0, 0, 0x00, 0x02, 0x00, 0x00];
    let mut buffer = Buffer::new(&raw);
    assert_eq!(Record::deserialize(&mut buffer).unwrap_err(), CodecError::UnsupportedType);
    // an address declared with five bytes
    let raw = vec![0x00, 0x00, 0x01, 0x00, 0x01, 0, 0, 0, 0, 0x00, 0x05, 1, 2, 3, 4, 5];
    let mut buffer = Buffer::new(&raw);
    assert_eq!(Record::deserialize(&mut buffer).unwrap_err(), CodecError::InvalidLabelLength);
    // a canonical name shorter than declared
    let raw = vec![0x00, 0x00, 0x05, 0x00, 0x01, 0, 0, 0, 0, 0x00, 0x04, 0x01, b'a', 0x00, 0x00];
    let mut buffer = Buffer::new(&raw);
    assert_eq!(Record::deserialize(&mut buffer).unwrap_err(), CodecError::InvalidLabelLength);
    // text that is not UTF-8
    let raw = vec![0x00, 0x00, 0x10, 0x00, 0x01, 0, 0, 0, 0, 0x00, 0x01, 0xFF];
    let mut buffer = Buffer::new(&raw);
    assert_eq!(Record::deserialize(&mut buffer).unwrap_err(), CodecError::Utf8DecodeError);
    // payload cut short
    let raw = vec![0x00, 0x00, 0x01, 0x00, 0x01, 0, 0, 0, 0, 0x00, 0x04, 1, 2];
    let mut buffer = Buffer::new(&raw);
    assert_eq!(Record::deserialize(&mut buffer).unwrap_err(), CodecError::UnexpectedEof);
}

#[test]
fn serilize_header() {
    let query: &[u8] = &[
        0x00, 0x02, 0x01, 0x00, 0x00, 0x01, 0x00, 0x00, 0x00, 0x00, 0x00, 0x01,
    ];

    let q = Message::single("foobar");
    let q = q.header;
    let bytes = q.serialize().unwrap();

    assert_eq!(&query, &bytes);
}

#[test]
fn serilize_query() {
    let query: &[u8] = &[
        0x00, 0x02, 0x01, 0x00, 0x00, 0x01, 0x00, 0x00, 0x00, 0x00, 0x00, 0x01, 0x06, 0x67,
        0x6f, 0x6f, 0x67, 0x6c, 0x65, 0x03, 0x63, 0x6f, 0x6d, 0x00, 0x00, 0x01, 0x00, 0x01,
    ];

    let q = Message::single("google.com");
    let bytes = q.serialize().unwrap();

    assert_eq!(&query, &bytes);
}

#[test]
fn txt_query_asks_for_text() {
    let m = Message::txt("example.org");
    assert_eq!(m.question.qtype, QType::TXT);
    let bytes = m.serialize().unwrap();
    assert_eq!(&bytes[bytes.len() - 4..], &[0x00, 0x10, 0x00, 0x01]);
}

fn sample_response() -> Vec<u8> {
    // id a4c9, flags 8180, one question, two answers
    let mut raw = vec![0xa4, 0xc9, 0x81, 0x80, 0x00, 0x01, 0x00, 0x02, 0x00, 0x00, 0x00, 0x00];
    // blog.toerktumlare.com A IN, name at offset 12
    raw.extend_from_slice(&[
        0x04, 0x62, 0x6c, 0x6f, 0x67, 0x0c, 0x74, 0x6f, 0x65, 0x72, 0x6b, 0x74, 0x75, 0x6d, 0x6c, 0x61,
        0x72, 0x65, 0x03, 0x63, 0x6f, 0x6d, 0x00, 0x00, 0x01, 0x00, 0x01,
    ]);
    // CNAME for the question name, data "tandolf.github.io" at offset 51
    raw.extend_from_slice(&[0xc0, 0x0c, 0x00, 0x05, 0x00, 0x01, 0x00, 0x00, 0x0e, 0x10, 0x00, 0x13]);
    raw.extend_from_slice(&[
        0x07, 0x74, 0x61, 0x6e, 0x64, 0x6f, 0x6c, 0x66, 0x06, 0x67, 0x69, 0x74, 0x68, 0x75, 0x62, 0x02,
        0x69, 0x6f, 0x00,
    ]);
    // A record for the canonical name
    raw.extend_from_slice(&[
        0xc0, 0x33, 0x00, 0x01, 0x00, 0x01, 0x00, 0x00, 0x0e, 0x10, 0x00, 0x04, 0xb9, 0xc7, 0x6c, 0x99,
    ]);
    raw
}

#[test]
fn deserialize_compressed_response() {
    let raw = sample_response();
    let mut buffer = Buffer::new(&raw);
    let (after, m) = Message::deserialize(&mut buffer).unwrap();
    assert_eq!(after.current.len(), 0);
    assert_eq!(m.header.id, 0xa4c9);
    assert_eq!(m.header.an_count, 2);
    assert_eq!(m.question, Question::new("blog.toerktumlare.com", QType::A, QClass::IN));
    assert_eq!(m.records.len(), 2);
    assert_eq!(m.records[0].name, "blog.toerktumlare.com");
    assert_eq!(m.records[0].rdata, RData::CNAME("tandolf.github.io".to_owned()));
    assert_eq!(m.records[1].name, "tandolf.github.io");
    assert_eq!(m.records[1].rdata, RData::A([0xb9, 0xc7, 0x6c, 0x99]));
}

#[test]
fn answer_count_larger_than_message() {
    let mut raw = sample_response();
    raw[7] = 3;
    let mut buffer = Buffer::new(&raw);
    assert_eq!(Message::deserialize(&mut buffer).unwrap_err(), CodecError::SectionCountMismatch);
}

#[test]
fn message_reencodes_to_same_bytes() {
    let mut m = Message::single("example.com");
    m.header.qr = true;
    m.header.an_count = 2;
    m.records.push(Record::new("example.com".to_owned(), QType::A, QClass::IN, 30, 4, RData::A([93, 184, 216, 34])));
    m.records.push(Record::new("example.com".to_owned(), QType::TXT, QClass::IN, 30, 2, RData::TXT("hi".to_owned())));
    let bytes = m.serialize().unwrap();
    let mut buffer = Buffer::new(&bytes);
    let (_, back) = Message::deserialize(&mut buffer).unwrap();
    assert_eq!(back.serialize().unwrap(), bytes);
    assert_eq!(back.records, m.records);
}

#[test]
fn message_with_miscounted_records_is_refused() {
    let mut m = Message::single("example.com");
    m.records.push(Record::new("example.com".to_owned(), QType::A, QClass::IN, 30, 4, RData::A([1, 2, 3, 4])));
    assert_eq!(m.serialize().unwrap_err(), CodecError::SectionCountMismatch);
}
