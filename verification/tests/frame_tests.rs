use my_redis::frame::{get_decimal, get_line, get_u8, peek_u8, skip, Error, Frame};

#[test]
fn frame_test_serialize_simple_string() {
    let frame = Frame::Simple("OK".to_string());
    assert_eq!(frame.serialize(), b"+OK\r\n".to_vec());
}

#[test]
fn frame_test_serialize_bulk_string() {
    let frame = Frame::Bulk(b"foo".to_vec());
    assert_eq!(frame.serialize(), b"$3\r\nfoo\r\n".to_vec());
}

#[test]
fn test_serialize_error() {
    let frame = Frame::Error("ERR unknown command 'foobar'".to_string());
    assert_eq!(frame.serialize(), b"-ERR unknown command 'foobar'\r\n".to_vec());
}

#[test]
fn test_serialize_null() {
    let frame = Frame::Null;
    assert_eq!(frame.serialize(), b"$-1\r\n".to_vec());
}

#[test]
fn test_serialize_integer() {
    let frame = Frame::Integer(1000);
    assert_eq!(frame.serialize(), b":1000\r\n".to_vec());
}

#[test]
fn test_check_simple_string() {
    Frame::check(b"+OK\r\n", 0).unwrap();
}

#[test]
fn test_check_bulk_string() {
    Frame::check(b"$6\r\nfoobar\r\n", 0).unwrap();
}

#[test]
fn test_check_error() {
    Frame::check(b"-ERR unknown command 'foobar'\r\n", 0).unwrap();
}

#[test]
fn test_check_null() {
    Frame::check(b"$-1\r\n", 0).unwrap();
}

#[test]
fn test_check_integer() {
    Frame::check(b":1000\r\n", 0).unwrap();
}

#[test]
fn frame_test_parse_simple_string() {
    let (frame, _) = Frame::parse(b"+OK\r\n", 0).unwrap();
    assert_eq!(frame, Frame::Simple("OK".to_string()));
}

#[test]
fn frame_test_parse_bulk_string() {
    let (frame, _) = Frame::parse(b"$6\r\nfoobar\r\n", 0).unwrap();
    assert_eq!(frame, Frame::Bulk(b"foobar".to_vec()));
}

#[test]
fn test_parse_error() {
    let (frame, _) = Frame::parse(b"-ERR unknown command 'foobar'\r\n", 0).unwrap();
    assert_eq!(frame, Frame::Error("ERR unknown command 'foobar'".to_string()));
}

#[test]
fn test_parse_null() {
    let (frame, _) = Frame::parse(b"$-1\r\n", 0).unwrap();
    assert_eq!(frame, Frame::Null);
}

#[test]
fn test_parse_integer() {
    let (frame, _) = Frame::parse(b":1000\r\n", 0).unwrap();
    assert_eq!(frame, Frame::Integer(1000));
}

#[test]
fn frame_test_parse_array() {
    let (frame, _) = Frame::parse(b"*2\r\n$3\r\nfoo\r\n$3\r\nbar\r\n", 0).unwrap();
    assert_eq!(
        frame,
        Frame::Array(vec![Frame::Bulk(b"foo".to_vec()), Frame::Bulk(b"bar".to_vec())])
    );
}

#[test]
fn test_skip() {
    assert_eq!(skip(b"Hello", 0, 2).unwrap(), 2);
}

#[test]
fn test_peek_u8() {
    assert_eq!(peek_u8(b"Hello", 0).unwrap(), b'H');
}

#[test]
fn test_get_u8() {
    let (byte, pos) = get_u8(b"Hello", 0).unwrap();
    assert_eq!(byte, b'H');
    assert_eq!(pos, 1);
}

#[test]
fn test_get_line() {
    let (line, pos) = get_line(b"Hello\r\nWorld", 0).unwrap();
    assert_eq!(line, b"Hello");
    assert_eq!(pos, 7);
}

#[test]
fn test_get_decimal() {
    let (num, pos) = get_decimal(b"1000\r\n", 0).unwrap();
    assert_eq!(num, 1000);
    assert_eq!(pos, 6);
}

#[test]
fn test_round_trip_each_variant() {
    let frames = vec![
        Frame::Simple("hello".to_string()),
        Frame::Error("ERR it went wrong".to_string()),
        Frame::Integer(0),
        Frame::Integer(u64::MAX),
        Frame::Bulk(vec![0u8, 13, 10, 255, 7]),
        Frame::Null,
        Frame::Array(vec![
            Frame::Simple("a".to_string()),
            Frame::Integer(42),
            Frame::Bulk(b"xyz".to_vec()),
            Frame::Null,
            Frame::Array(vec![Frame::Simple("inner".to_string())]),
        ]),
    ];
    for frame in frames {
        let bytes = frame.serialize();
        let end = Frame::check(&bytes, 0).unwrap();
        assert_eq!(end, bytes.len());
        let (back, used) = Frame::parse(&bytes, 0).unwrap();
        assert_eq!(back, frame);
        assert_eq!(used, bytes.len());
    }
}

#[test]
fn test_parse_consumes_exactly_one_frame() {
    let mut bytes = Frame::Integer(7).serialize();
    bytes.extend_from_slice(&Frame::Simple("next".to_string()).serialize());
    let (first, used) = Frame::parse(&bytes, 0).unwrap();
    assert_eq!(first, Frame::Integer(7));
    assert_eq!(used, b":7\r\n".len());
    let (second, used2) = Frame::parse(&bytes, used).unwrap();
    assert_eq!(second, Frame::Simple("next".to_string()));
    assert_eq!(used2, bytes.len());
}

#[test]
fn test_check_incomplete_prefixes() {
    let bytes = Frame::Array(vec![Frame::Bulk(b"foo".to_vec()), Frame::Integer(12)])
        .serialize();
    for cut in 0..bytes.len() {
        assert!(matches!(Frame::check(&bytes[..cut], 0), Err(Error::Incomplete)));
        assert!(matches!(Frame::parse(&bytes[..cut], 0), Err(Error::Incomplete)));
    }
    assert!(Frame::check(&bytes, 0).is_ok());
}

#[test]
fn test_check_unknown_tag() {
    assert!(matches!(Frame::check(b"?huh\r\n", 0), Err(Error::Other(_))));
    assert!(matches!(Frame::parse(b"?huh\r\n", 0), Err(Error::Other(_))));
}

#[test]
fn test_check_bad_null_marker() {
    assert!(matches!(Frame::check(b"$-2\r\n", 0), Err(Error::Other(_))));
    assert!(matches!(Frame::parse(b"$-2\r\n", 0), Err(Error::Other(_))));
}

#[test]
fn test_decimal_rejects_junk_and_overflow() {
    assert!(matches!(get_decimal(b"12a\r\n", 0), Err(Error::Other(_))));
    assert!(matches!(get_decimal(b"\r\n", 0), Err(Error::Other(_))));
    assert!(matches!(get_decimal(b"18446744073709551616\r\n", 0), Err(Error::Other(_))));
    let (num, _) = get_decimal(b"18446744073709551615\r\n", 0).unwrap();
    assert_eq!(num, u64::MAX);
}

#[test]
fn test_parse_rejects_invalid_utf8_line() {
    assert!(matches!(Frame::parse(b"+\xff\r\n", 0), Err(Error::Other(_))));
    assert!(matches!(Frame::check(b"+\xff\r\n", 0), Err(Error::Other(_))));
}

#[test]
fn test_parse_decodes_multibyte_text() {
    let (frame, used) = Frame::parse("+h\u{e9}llo\r\n".as_bytes(), 0).unwrap();
    assert_eq!(frame, Frame::Simple("h\u{e9}llo".to_string()));
    assert_eq!(used, "+h\u{e9}llo\r\n".len());
}
