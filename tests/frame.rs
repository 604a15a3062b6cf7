use bytes::Bytes;
use my_redis::decode::decode;
use my_redis::encode::{deser_error, deser_int, deser_simple_string, deser_string};
use my_redis::wire::{Malformation, ProtocolError, MAX_NESTING};
use my_redis::Frame;
use std::io::Cursor;

#[test]
fn simple_serialization() {
    let input = "+OK\r\n".as_bytes();
    let mut input_cursor = Cursor::new(input);
    let output = Frame::serialize(&mut input_cursor).unwrap();
    let expected = Frame::Simple("OK".to_string());
    assert_eq!(output, expected);
}

#[test]
fn simple_deser() {
    let mut input = Frame::Simple("OK".to_string());
    let output = input.deserialize();
    let expected = "+OK\r\n".as_bytes().to_vec();
    assert_eq!(output, expected);
}

#[test]
fn error_serialization() {
    let input = "-Error message\r\n".as_bytes();
    let mut input_cursor = Cursor::new(input);
    let output = Frame::serialize(&mut input_cursor).unwrap();
    let expected = Frame::Error("Error message".to_string());
    assert_eq!(output, expected);
}

#[test]
fn error_deser() {
    let mut input = Frame::Error("Error message".to_string());
    let output = input.deserialize();
    let expected = "-Error message\r\n".as_bytes().to_vec();
    assert_eq!(output, expected);
}

#[test]
fn int_serialization() {
    let input = ":+231\r\n".as_bytes();
    let mut input_cursor = Cursor::new(input);
    let output = Frame::serialize(&mut input_cursor).unwrap();
    let expected = Frame::Integer(231);
    assert_eq!(output, expected);
}

#[test]
fn int_deser() {
    let mut input = Frame::Integer(231);
    let output = input.deserialize();
    let expected = ":+231\r\n".as_bytes().to_vec();
    assert_eq!(output, expected);
}

#[test]
fn bulk_serialization() {
    let input = "$5\r\nhello\r\n".as_bytes();
    let mut input_cursor = Cursor::new(input);
    let output = Frame::serialize(&mut input_cursor).unwrap();
    let expected = Frame::Bulk(Bytes::from("hello"));
    assert_eq!(output, expected);
}

#[test]
fn bulk_deser() {
    let mut input = Frame::Bulk(Bytes::from("hello"));
    let output = input.deserialize();
    let expected = "$5\r\nhello\r\n".as_bytes().to_vec();
    assert_eq!(output, expected);
}

#[test]
fn null_serialization() {
    let input = "_\r\n".as_bytes();
    let mut input_cursor = Cursor::new(input);
    let output = Frame::serialize(&mut input_cursor).unwrap();
    let expected = Frame::Null;
    assert_eq!(output, expected);
}

#[test]
fn null_deser() {
    let mut input = Frame::Null;
    let output = input.deserialize();
    let expected = "_\r\n".as_bytes().to_vec();
    assert_eq!(output, expected);
}

#[test]
fn array_serialization() {
    let input = "*2\r\n$5\r\nhello\r\n$5\r\nworld\r\n".as_bytes();
    let mut input_cursor = Cursor::new(input);
    let output = Frame::serialize(&mut input_cursor).unwrap();
    let v: Vec<Frame> = vec![Frame::Bulk(Bytes::from("hello")), Frame::Bulk(Bytes::from("world"))];
    let expected = Frame::Array(v);
    assert_eq!(output, expected);
}

#[test]
fn array_deser() {
    let v: Vec<Frame> = vec![Frame::Bulk(Bytes::from("hello")), Frame::Bulk(Bytes::from("world"))];
    let mut input = Frame::Array(v);
    let output = input.deserialize();
    let expected = "*2\r\n$5\r\nhello\r\n$5\r\nworld\r\n".as_bytes().to_vec();
    assert_eq!(output, expected);
}

fn decode_all(bytes: &[u8]) -> Result<(Frame, usize), ProtocolError> {
    decode(bytes)
}

fn nested_sample() -> Frame {
    let inner = vec![
        Frame::Integer(-42),
        Frame::Null,
        Frame::Bulk(Bytes::from("a\r\nb")),
    ];
    Frame::Array(vec![
        Frame::Simple("héllo".to_string()),
        Frame::Error("ERR nope".to_string()),
        Frame::Integer(i64::MIN),
        Frame::Integer(i64::MAX),
        Frame::Bulk(Bytes::from("")),
        Frame::Array(inner),
        Frame::Array(vec![]),
    ])
}

#[test]
fn negative_integer_encoding() {
    assert_eq!(deser_int(-7), b":-7\r\n".to_vec());
    assert_eq!(deser_int(0), b":+0\r\n".to_vec());
    assert_eq!(deser_int(i64::MIN), b":-9223372036854775808\r\n".to_vec());
}

#[test]
fn helper_encoders() {
    assert_eq!(deser_simple_string("OK".to_string()), b"+OK\r\n".to_vec());
    assert_eq!(deser_error("bad".to_string()), b"-bad\r\n".to_vec());
    let mut payload = b"x\r\ny".to_vec();
    assert_eq!(deser_string(&mut payload), b"$4\r\nx\r\ny\r\n".to_vec());
    assert_eq!(payload, b"x\r\ny".to_vec());
}

#[test]
fn round_trip_nested_frame() {
    let mut f = nested_sample();
    let bytes = f.deserialize();
    let (back, used) = decode_all(&bytes).unwrap();
    assert_eq!(back, nested_sample());
    assert_eq!(used, bytes.len());
}

#[test]
fn round_trip_leaves_following_bytes() {
    let mut f = Frame::Bulk(Bytes::from("hello"));
    let mut bytes = f.deserialize();
    bytes.extend_from_slice(b"+next\r\n");
    let (back, used) = decode_all(&bytes).unwrap();
    assert_eq!(back, Frame::Bulk(Bytes::from("hello")));
    assert_eq!(used, 11);
}

#[test]
fn split_reads_are_incomplete_then_whole() {
    let mut f = nested_sample();
    let bytes = f.deserialize();
    for k in 0..bytes.len() {
        assert_eq!(decode_all(&bytes[..k]), Err(ProtocolError::Incomplete), "cut at {}", k);
        let mut joined = bytes[..k].to_vec();
        joined.extend_from_slice(&bytes[k..]);
        assert_eq!(decode_all(&joined).unwrap().0, nested_sample());
    }
}

#[test]
fn truncated_bulk_is_incomplete() {
    assert_eq!(decode_all(b"$5\r\nhel"), Err(ProtocolError::Incomplete));
    let input = "$5\r\nhel".as_bytes();
    let mut cursor = Cursor::new(input);
    assert_eq!(Frame::serialize(&mut cursor), Err(ProtocolError::Incomplete));
    assert_eq!(cursor.position(), 0);
}

#[test]
fn decode_get_array() {
    let (f, used) = decode_all(b"*2\r\n$3\r\nGET\r\n$3\r\nfoo\r\n").unwrap();
    let expected = Frame::Array(vec![Frame::Bulk(Bytes::from("GET")), Frame::Bulk(Bytes::from("foo"))]);
    assert_eq!(f, expected);
    assert_eq!(used, 22);
}

#[test]
fn cursor_moves_past_each_frame() {
    let input = "+a\r\n:-3\r\n".as_bytes();
    let mut cursor = Cursor::new(input);
    assert_eq!(Frame::serialize(&mut cursor).unwrap(), Frame::Simple("a".to_string()));
    assert_eq!(cursor.position(), 4);
    assert_eq!(Frame::serialize(&mut cursor).unwrap(), Frame::Integer(-3));
    assert_eq!(cursor.position(), 9);
    assert_eq!(Frame::serialize(&mut cursor), Err(ProtocolError::Incomplete));
    assert_eq!(cursor.position(), 9);
}

fn malformed(k: Malformation) -> Result<(Frame, usize), ProtocolError> {
    Err(ProtocolError::Malformed(k))
}

#[test]
fn malformed_inputs() {
    assert_eq!(decode_all(b"?x\r\n"), malformed(Malformation::UnknownTag));
    assert_eq!(decode_all(b"+a\nb\r\n"), malformed(Malformation::BadLine));
    assert_eq!(decode_all(b"+a\rb\r\n"), malformed(Malformation::BadLine));
    assert_eq!(decode_all(b"+\xff\r\n"), malformed(Malformation::BadText));
    assert_eq!(decode_all(b":12\r\n"), malformed(Malformation::BadInteger));
    assert_eq!(decode_all(b":+\r\n"), malformed(Malformation::BadInteger));
    assert_eq!(decode_all(b":5"), malformed(Malformation::BadInteger));
    assert_eq!(decode_all(b":\r"), malformed(Malformation::BadInteger));
    assert_eq!(decode_all(b":+9223372036854775808\r\n"), malformed(Malformation::BadInteger));
    assert_eq!(decode_all(b":-9223372036854775809\r\n"), malformed(Malformation::BadInteger));
    assert_eq!(decode_all(b"$-1\r\n"), malformed(Malformation::BadLength));
    assert_eq!(decode_all(b"*\r\n"), malformed(Malformation::BadLength));
    assert_eq!(decode_all(b"$99999999999999999999999\r\n"), malformed(Malformation::BadLength));
    assert_eq!(decode_all(b"$2\r\nabcd"), malformed(Malformation::BadTerminator));
    assert_eq!(decode_all(b"_x\r\n"), malformed(Malformation::BadTerminator));
    assert_eq!(decode_all(b"*2\r\n+a\r\n?\r\n"), malformed(Malformation::UnknownTag));
}

#[test]
fn integer_bounds_decode() {
    assert_eq!(decode_all(b":-9223372036854775808\r\n").unwrap().0, Frame::Integer(i64::MIN));
    assert_eq!(decode_all(b":+9223372036854775807\r\n").unwrap().0, Frame::Integer(i64::MAX));
    assert_eq!(decode_all(b":-0\r\n").unwrap().0, Frame::Integer(0));
}

#[test]
fn empty_buffer_is_incomplete() {
    assert_eq!(decode_all(b""), Err(ProtocolError::Incomplete));
    assert_eq!(decode_all(b"*3\r\n+a\r\n"), Err(ProtocolError::Incomplete));
}

#[test]
fn push_builders_and_text() {
    let mut f = Frame::array();
    f.push_simple("PING".to_string());
    f.push_bulk(Bytes::from("k"));
    f.push_int(-5);
    assert_eq!(
        f,
        Frame::Array(vec![
            Frame::Simple("PING".to_string()),
            Frame::Bulk(Bytes::from("k")),
            Frame::Integer(-5),
        ])
    );
    assert!(f.to_string().is_err());
    assert_eq!(Frame::Integer(-120).to_string(), Ok("-120".to_string()));
    assert_eq!(Frame::Integer(7).to_string(), Ok("7".to_string()));
    assert_eq!(Frame::Bulk(Bytes::from("héllo")).to_string(), Ok("héllo".to_string()));
    assert!(Frame::Bulk(Bytes::from(vec![0xffu8])).to_string().is_err());
    assert_eq!(Frame::Error("e".to_string()).to_string(), Ok("e".to_string()));
    assert!(Frame::Null.to_string().is_err());
}

#[test]
fn nesting_limit() {
    let mut deepest = Vec::new();
    for _ in 0..MAX_NESTING {
        deepest.extend_from_slice(b"*1\r\n");
    }
    deepest.extend_from_slice(b"_\r\n");
    assert_eq!(decode_all(&deepest).unwrap().1, deepest.len());
    let mut too_deep = b"*1\r\n".to_vec();
    too_deep.extend_from_slice(&deepest);
    assert_eq!(decode_all(&too_deep), malformed(Malformation::TooDeep));
}

#[test]
fn clone_keeps_the_frame() {
    let f = nested_sample();
    let copy = f.clone();
    assert_eq!(copy, f);
}
