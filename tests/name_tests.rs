use dns_codec::name::encode_name;
use dns_codec::parse_utils::{
    is_ptr, parse_ipv4, parse_ipv6, parse_name, parse_names, parse_ptr, parse_qclass, parse_qtype, parse_rdlength,
    parse_ttl, ptr_value, resolve_next, take_token,
};
use dns_codec::{CodecError, CtrlByte, QClass, QType};

#[test]
fn test_name_parsing() {
    let buffer = vec![
        0x07, 0x74, 0x77, 0x69, 0x74, 0x74, 0x65, 0x72, 0x03, 0x63, 0x6f, 0x6d, 0x00,
    ];

    let (_, name) = parse_name(&buffer).unwrap();

    assert_eq!("twitter.com", &name)
}

#[test]
fn parse_name_multiple_tokens() {
    let buffer = vec![
        0x04, 0x62, 0x6c, 0x6f, 0x67, 0x0c, 0x74, 0x6f, 0x65, 0x72, 0x6b, 0x74, 0x75, 0x6d,
        0x6c, 0x61, 0x72, 0x65, 0x03, 0x63, 0x6f, 0x6d, 0x00,
    ];

    let (buffer, name) = parse_name(&buffer).unwrap();

    assert_eq!("blog.toerktumlare.com", &name);
    assert_eq!(0, buffer.len());
}

#[test]
fn is_pointer() {
    let v = 0xC0;
    assert!(is_ptr(v));
}

#[test]
fn is_not_pointer() {
    let v = 0x3F;
    assert!(!is_ptr(v));
}

#[test]
fn get_ptr_value() {
    let buffer = vec![0xC1, 0x01];
    let (_, actual) = ptr_value(&buffer).unwrap();
    assert_eq!(257usize, actual)
}

#[test]
fn parse_string_with_pointers() {
    let source = vec![
        0x00, 0x00, 0x06, 0x67, 0x6f, 0x6f, 0x67, 0x6c, 0x65, 0x03, 0x63, 0x6f, 0x6d, 0x00,
        0x00, 0x00, 0x03, 0x6e, 0x73, 0x31, 0xc0, 0x02,
    ];
    let buffer = vec![0x03, 0x6e, 0x73, 0x31, 0xc0, 0x02];

    let mut v = Vec::new();
    let (_, actual) = parse_names(&buffer, &source, &mut v).unwrap();
    assert_eq!("ns1.google.com", actual)
}

#[test]
fn parse_string_with_two_pointers() {
    let source = vec![
        0x00, 0x00, 0x06, 0x67, 0x6f, 0x6f, 0x67, 0x6c, 0x65, 0x03, 0x63, 0x6f, 0x6d, 0x00,
        0x00, 0x00, 0x03, 0x6e, 0x73, 0x31, 0xc0, 0x02,
    ];
    let buffer = vec![0x03, 0x6e, 0x73, 0x31, 0xc0, 0x02];

    let mut v = Vec::new();
    let (_, actual) = parse_names(&buffer, &source, &mut v).unwrap();
    assert_eq!("ns1.google.com", actual)
}

#[test]
fn pointer_consumes_two_bytes_of_the_stream() {
    let source = vec![0xAA, 0xBB, 0x03, b'c', b'o', b'm', 0x00, 0x03, b'n', b's', b'1', 0xC0, 0x02];
    let buffer = vec![0x03, b'n', b's', b'1', 0xC0, 0x02];
    let mut tokens = Vec::new();
    let (rest, name) = parse_names(&buffer, &source, &mut tokens).unwrap();
    assert_eq!(name, "ns1.com");
    assert_eq!(rest.len(), 0);
    assert_eq!(tokens, vec!["ns1".to_string(), "com".to_string()]);
}

#[test]
fn pointer_chain_is_followed_to_the_end() {
    // "com" at 0, "example" + pointer to 0 at 5, "www" + pointer to 5 at 15.
    let source = vec![
        0x03, b'c', b'o', b'm', 0x00, 0x07, b'e', b'x', b'a', b'm', b'p', b'l', b'e', 0xC0, 0x00, 0x03, b'w',
        b'w', b'w', 0xC0, 0x05, 0xEE,
    ];
    let buffer = &source[15..];
    let mut tokens = Vec::new();
    let (rest, name) = parse_names(buffer, &source, &mut tokens).unwrap();
    assert_eq!(name, "www.example.com");
    assert_eq!(rest, &[0xEE][..]);
}

#[test]
fn self_referential_pointer_is_refused() {
    let source = vec![0x00, 0x00, 0xC0, 0x02];
    let buffer = &source[2..];
    let mut tokens = Vec::new();
    assert_eq!(parse_names(buffer, &source, &mut tokens).unwrap_err(), CodecError::MalformedPointer);
}

#[test]
fn forward_pointer_is_refused() {
    let source = vec![0xC0, 0x02, 0x03, b'c', b'o', b'm', 0x00];
    let mut tokens = Vec::new();
    assert_eq!(parse_names(&source, &source, &mut tokens).unwrap_err(), CodecError::MalformedPointer);
}

#[test]
fn pointer_loop_through_labels_is_refused() {
    // the name at 2 points back to 0, whose label runs past the pointer and
    // reaches a second pointer that aims at 0 again
    let source = vec![0x01, b'a', 0xC0, 0x00];
    let buffer = &source[2..];
    let mut tokens = Vec::new();
    assert_eq!(parse_names(buffer, &source, &mut tokens).unwrap_err(), CodecError::MalformedPointer);
}

#[test]
fn name_with_pointer_read_alone_is_refused() {
    let buffer = vec![0x01, b'a', 0xC0, 0x00];
    assert_eq!(parse_name(&buffer).unwrap_err(), CodecError::MalformedPointer);
}

#[test]
fn name_errors() {
    assert_eq!(parse_name(&[0x03, b'a', b'b']).unwrap_err(), CodecError::UnexpectedEof);
    assert_eq!(parse_name(&[0x01, b'a']).unwrap_err(), CodecError::UnexpectedEof);
    assert_eq!(parse_name(&[0x40, b'a', 0x00]).unwrap_err(), CodecError::InvalidLabelLength);
    assert_eq!(parse_name(&[0x02, 0xFF, 0xFE, 0x00]).unwrap_err(), CodecError::Utf8DecodeError);
}

#[test]
fn name_with_utf8_label_decodes() {
    let buffer = vec![0x05, b'c', b'a', b'f', 0xC3, 0xA9, 0x00];
    let (_, name) = parse_name(&buffer).unwrap();
    assert_eq!(name, "caf\u{e9}");
}

#[test]
fn root_name_is_one_zero_byte() {
    let (rest, name) = parse_name(&[0x00, 0x01]).unwrap();
    assert_eq!(name, "");
    assert_eq!(rest, &[0x01][..]);
    let mut out = Vec::new();
    encode_name("", &mut out).unwrap();
    assert_eq!(out, vec![0x00]);
}

#[test]
fn encode_name_skips_empty_labels() {
    let mut out = Vec::new();
    encode_name("a..b.", &mut out).unwrap();
    assert_eq!(out, vec![0x01, b'a', 0x01, b'b', 0x00]);
}

#[test]
fn encode_name_refuses_long_label() {
    let long = "x".repeat(64);
    let mut out = Vec::new();
    assert_eq!(encode_name(&long, &mut out).unwrap_err(), CodecError::InvalidLabelLength);
    let fits = "y".repeat(63);
    let mut out = Vec::new();
    encode_name(&fits, &mut out).unwrap();
    assert_eq!(out.len(), 65);
    assert_eq!(out[0], 63);
}

#[test]
fn encode_name_counts_utf8_bytes() {
    let mut out = Vec::new();
    encode_name("caf\u{e9}", &mut out).unwrap();
    assert_eq!(out, vec![0x05, b'c', b'a', b'f', 0xC3, 0xA9, 0x00]);
}

#[test]
fn control_bytes() {
    assert_eq!(resolve_next(&[0x00, 0x07]).unwrap(), (&[0x07][..], CtrlByte::Null));
    assert_eq!(resolve_next(&[0x05, 0x07]).unwrap(), (&[0x07][..], CtrlByte::Length(5)));
    assert_eq!(resolve_next(&[0xC1, 0x01, 0x07]).unwrap(), (&[0x07][..], CtrlByte::Ptr(257)));
    assert_eq!(resolve_next(&[0xC1]).unwrap_err(), CodecError::UnexpectedEof);
    assert_eq!(parse_ptr(&[0xFF, 0xFF]).unwrap().1, CtrlByte::Ptr(0x3FFF));
    assert_eq!(parse_ptr(&[0x3F, 0xFF]).unwrap_err(), CodecError::MalformedPointer);
}

#[test]
fn take_token_reads_text() {
    let (rest, t) = take_token(b"abcd", 3).unwrap();
    assert_eq!(t, "abc");
    assert_eq!(rest, b"d");
    assert_eq!(take_token(b"ab", 3).unwrap_err(), CodecError::UnexpectedEof);
    assert_eq!(take_token(&[0xFF], 1).unwrap_err(), CodecError::Utf8DecodeError);
}

#[test]
fn field_readers() {
    assert_eq!(parse_qtype(&[0x00, 0x1C, 0x09]).unwrap(), (&[0x09][..], QType::AAAA));
    assert_eq!(parse_qtype(&[0x00, 0x11]).unwrap_err(), CodecError::UnsupportedType);
    assert_eq!(parse_qclass(&[0x00, 0xFF]).unwrap().1, QClass::STAR);
    assert_eq!(parse_qclass(&[0x00, 0x05]).unwrap_err(), CodecError::UnsupportedClass);
    assert_eq!(parse_rdlength(&[0x01, 0x02]).unwrap().1, 258);
    assert_eq!(parse_ttl(&[0x00, 0x00, 0x0e, 0x10]).unwrap().1, 3600);
    assert_eq!(parse_ttl(&[0x00, 0x00, 0x0e]).unwrap_err(), CodecError::UnexpectedEof);
    assert_eq!(parse_ipv4(&[1, 2, 3, 4, 5]).unwrap(), (&[5][..], [1, 2, 3, 4]));
    let v6: Vec<u8> = (0u8..16).collect();
    assert_eq!(parse_ipv6(&v6).unwrap().1[15], 15);
    assert_eq!(parse_ipv6(&v6[1..]).unwrap_err(), CodecError::UnexpectedEof);
}
