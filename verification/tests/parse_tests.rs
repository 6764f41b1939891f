use my_redis::frame::Frame;
use my_redis::parse::{Parse, ParseError};

#[test]
fn test_new() {
    let frame = Frame::Array(vec![
        Frame::Simple("GET".to_string()),
        Frame::Simple("foo".to_string()),
    ]);
    let parse = Parse::new(frame).unwrap();
    assert_eq!(parse.remaining(), 2);
}

#[test]
fn test_new_error() {
    let frame = Frame::Simple("GET".to_string());
    let parse = Parse::new(frame);
    assert!(parse.is_err());
}

#[test]
fn test_next() {
    let frame = Frame::Array(vec![
        Frame::Simple("GET".to_string()),
        Frame::Simple("foo".to_string()),
    ]);
    let mut parse = Parse::new(frame).unwrap();
    let block = parse.next().unwrap();
    assert_eq!(block, Frame::Simple("GET".to_string()));
}

#[test]
fn test_next_error() {
    let frame = Frame::Array(vec![
        Frame::Simple("GET".to_string()),
        Frame::Simple("foo".to_string()),
    ]);
    let mut parse = Parse::new(frame).unwrap();
    let _ = parse.next().unwrap();
    let block = parse.next();
    assert!(block.is_ok());
    match parse.next() {
        Ok(_) => assert!(false),
        Err(ParseError::EndOfStream) => assert!(true),
        Err(_) => assert!(false),
    }
}

fn create_parse_error_from_string() -> ParseError {
    "test".to_string().into()
}

#[test]
fn test_from_string() {
    let error = create_parse_error_from_string();
    match error {
        ParseError::Other(_) => assert!(true),
        _ => assert!(false),
    }
}

fn create_parse_error_from_str() -> ParseError {
    "test".into()
}

#[test]
fn test_from_str() {
    let error = create_parse_error_from_str();
    match error {
        ParseError::Other(_) => assert!(true),
        _ => assert!(false),
    }
}

#[test]
fn test_next_string_and_bytes_and_int() {
    let frame = Frame::Array(vec![
        Frame::Simple("SET".to_string()),
        Frame::Bulk(b"key".to_vec()),
        Frame::Bulk(b"42".to_vec()),
    ]);
    let mut parse = Parse::new(frame).unwrap();
    assert_eq!(parse.next_string().unwrap(), "SET");
    assert_eq!(parse.next_bytes().unwrap(), b"key".to_vec());
    assert_eq!(parse.next_int().unwrap(), 42);
    assert!(parse.finish().is_ok());
}

#[test]
fn test_finish_rejects_leftovers() {
    let frame = Frame::Array(vec![
        Frame::Simple("PING".to_string()),
        Frame::Simple("extra".to_string()),
    ]);
    let mut parse = Parse::new(frame).unwrap();
    let _ = parse.next().unwrap();
    match parse.finish() {
        Err(ParseError::Other(_)) => assert!(true),
        _ => assert!(false),
    }
}

#[test]
fn test_next_int_rejects_junk() {
    let frame = Frame::Array(vec![Frame::Bulk(b"12x".to_vec())]);
    let mut parse = Parse::new(frame).unwrap();
    match parse.next_int() {
        Err(ParseError::Other(_)) => assert!(true),
        _ => assert!(false),
    }
}

#[test]
fn test_next_int_negative() {
    let frame = Frame::Array(vec![Frame::Bulk(b"-75".to_vec())]);
    let mut parse = Parse::new(frame).unwrap();
    assert_eq!(parse.next_int().unwrap(), -75);
}

#[test]
fn test_next_string_rejects_invalid_utf8_bulk() {
    let frame = Frame::Array(vec![Frame::Bulk(vec![0xff, 0xfe])]);
    let mut parse = Parse::new(frame).unwrap();
    match parse.next_string() {
        Err(ParseError::Other(_)) => assert!(true),
        _ => assert!(false),
    }
}
