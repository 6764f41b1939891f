use my_redis::connection::FrameBuffer;
use my_redis::frame::Frame;

#[test]
fn test_incremental_feed_one_byte_at_a_time() {
    let frame = Frame::Array(vec![
        Frame::Bulk(b"GET".to_vec()),
        Frame::Bulk(b"some-key".to_vec()),
    ]);
    let bytes = frame.serialize();
    let mut buffer = FrameBuffer::new();
    for (i, byte) in bytes.iter().enumerate() {
        buffer.extend(&[*byte]);
        if i + 1 < bytes.len() {
            // Every strict prefix yields no frame, only "read more".
            assert!(buffer.parse_frame().unwrap().is_none());
        } else {
            // The final byte completes exactly one frame.
            let got = buffer.parse_frame().unwrap().unwrap();
            assert_eq!(got, frame);
        }
    }
    assert!(buffer.is_empty());
    assert!(buffer.parse_frame().unwrap().is_none());
}

#[test]
fn test_pipelined_frames_stay_buffered() {
    let first = Frame::Simple("PONG".to_string());
    let second = Frame::Integer(99);
    let mut bytes = first.serialize();
    bytes.extend_from_slice(&second.serialize());
    let mut buffer = FrameBuffer::new();
    buffer.extend(&bytes);
    assert_eq!(buffer.parse_frame().unwrap().unwrap(), first);
    // The second frame's bytes were left untouched for the next call.
    assert!(!buffer.is_empty());
    assert_eq!(buffer.parse_frame().unwrap().unwrap(), second);
    assert!(buffer.is_empty());
}

#[test]
fn test_malformed_bytes_are_an_error() {
    let mut buffer = FrameBuffer::new();
    buffer.extend(b"!bad\r\n");
    assert!(buffer.parse_frame().is_err());
    // The buffer is left as it was: the caller drops the connection.
    assert!(!buffer.is_empty());
}
