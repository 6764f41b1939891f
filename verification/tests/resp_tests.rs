use my_redis::resp::{
    parse_array, parse_bulk_string, parse_int, parse_msg, parse_simple_string, read_until_crlf,
    Value,
};

#[test]
fn resp_test_serialize_simple_string() {
    let value = Value::SimpleString("OK".to_string());
    assert_eq!(value.serialize(), "+OK\r\n");
}

#[test]
fn resp_test_serialize_bulk_string() {
    let value = Value::BulkString("foobar".to_string());
    assert_eq!(value.serialize(), "$6\r\nfoobar\r\n");
}

#[test]
fn test_parse_msg() {
    let result = parse_msg(b"Unknown\r\n");
    assert!(result.is_err());
}

#[test]
fn resp_test_parse_simple_string() {
    let result = parse_simple_string(b"+OK\r\n").unwrap();
    assert_eq!(result.0, Value::SimpleString("OK".to_string()));
    assert_eq!(result.1, 4);
}

#[test]
fn test_parse_simple_string_error() {
    let mut result = parse_simple_string(b"+OK");
    assert!(result.is_err());
    result = parse_simple_string(b"+OK\n");
    assert!(result.is_err());
}

#[test]
fn resp_test_parse_bulk_string() {
    let result = parse_bulk_string(b"$6\r\nfoobar\r\n").unwrap();
    assert_eq!(result.0, Value::BulkString("foobar".to_string()));
    assert_eq!(result.1, 12);
}

#[test]
fn test_parse_bulk_string_error() {
    let mut result = parse_bulk_string(b"$6\r\nfoobar");
    assert!(result.is_err());
    result = parse_bulk_string(b"$6\r\nfoobar\n");
    assert!(result.is_err());
}

#[test]
fn resp_test_parse_array() {
    let result = parse_array(b"*2\r\n$3\r\nfoo\r\n$3\r\nbar\r\n").unwrap();
    assert_eq!(
        result.0,
        Value::Array(vec![
            Value::BulkString("foo".to_string()),
            Value::BulkString("bar".to_string())
        ])
    );
    assert_eq!(result.1, 21);
}

#[test]
fn test_read_until_crlf() {
    let buffer = b"Hello\r\nWorld";
    let (line, next) = read_until_crlf(buffer).unwrap();
    assert_eq!(line, b"Hello");
    assert_eq!(next, 7);
}

#[test]
fn test_parse_int() {
    let buffer = b"1234";
    let result = parse_int(buffer).unwrap();
    assert_eq!(result, 1234);
}

#[test]
fn test_parse_int_error() {
    let buffer = b"1234a";
    let result = parse_int(buffer);
    assert!(result.is_err());
}

#[test]
fn test_parse_msg_dispatch() {
    let (v, used) = parse_msg(b"+PONG\r\n").unwrap();
    assert_eq!(v, Value::SimpleString("PONG".to_string()));
    assert_eq!(used, 6);
    let (v, _) = parse_msg(b"$3\r\nabc\r\n").unwrap();
    assert_eq!(v, Value::BulkString("abc".to_string()));
    assert!(parse_msg(b"").is_err());
}

#[test]
fn test_parse_int_negative() {
    assert_eq!(parse_int(b"-12").unwrap(), -12);
    assert!(parse_int(b"-").is_err());
    assert!(parse_int(b"").is_err());
}
