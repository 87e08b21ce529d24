use respkv::connection::{parse_frame, serialize_frame, Connection, ReadError};
use respkv::decimal::{parse_i64, parse_u64, push_decimal};
use respkv::frame::{
    encode_into, find_line_end, has_no_line_break, is_well_formed, parse_at, read_line, Frame,
    ProtocolError,
};

fn wire(frame: &Frame) -> Vec<u8> {
    let mut out = Vec::new();
    encode_into(frame, &mut out);
    out
}

fn samples() -> Vec<Frame> {
    vec![
        Frame::Simple("OK".to_string()),
        Frame::Simple(String::new()),
        Frame::Error("ERR unknown command 'FOO'".to_string()),
        Frame::Integer(0),
        Frame::Integer(-42),
        Frame::Integer(i64::MAX),
        Frame::Integer(i64::MIN),
        Frame::Bulk(b"hello".to_vec()),
        Frame::Bulk(Vec::new()),
        Frame::Bulk(vec![13, 10, 0, 255, 254, 13, 10]),
        Frame::Null,
        Frame::Array(Vec::new()),
        Frame::Array(vec![
            Frame::Bulk(b"SET".to_vec()),
            Frame::Array(vec![Frame::Integer(7), Frame::Null, Frame::Simple("x".to_string())]),
            Frame::Error("e".to_string()),
        ]),
        Frame::Simple("h\u{e9}llo \u{4e16}\u{754c}".to_string()),
    ]
}

#[test]
fn serialize_simple_exact() {
    assert_eq!(wire(&Frame::Simple("PONG".to_string())), b"+PONG\r\n".to_vec());
}

#[test]
fn serialize_error_exact() {
    assert_eq!(wire(&Frame::Error("ERR x".to_string())), b"-ERR x\r\n".to_vec());
}

#[test]
fn serialize_integer_exact() {
    assert_eq!(wire(&Frame::Integer(1)), b":1\r\n".to_vec());
    assert_eq!(wire(&Frame::Integer(0)), b":0\r\n".to_vec());
    assert_eq!(wire(&Frame::Integer(-42)), b":-42\r\n".to_vec());
    assert_eq!(wire(&Frame::Integer(1000)), b":1000\r\n".to_vec());
    assert_eq!(wire(&Frame::Integer(i64::MIN)), b":-9223372036854775808\r\n".to_vec());
    assert_eq!(wire(&Frame::Integer(i64::MAX)), b":9223372036854775807\r\n".to_vec());
}

#[test]
fn serialize_bulk_exact() {
    assert_eq!(wire(&Frame::Bulk(b"bar".to_vec())), b"$3\r\nbar\r\n".to_vec());
    assert_eq!(wire(&Frame::Bulk(Vec::new())), b"$0\r\n\r\n".to_vec());
    assert_eq!(wire(&Frame::Bulk(b"0123456789ab".to_vec())), b"$12\r\n0123456789ab\r\n".to_vec());
}

#[test]
fn serialize_null_exact() {
    assert_eq!(wire(&Frame::Null), b"$-1\r\n".to_vec());
}

#[test]
fn serialize_array_exact() {
    let frame = Frame::Array(vec![
        Frame::Bulk(b"subscribe".to_vec()),
        Frame::Bulk(b"news".to_vec()),
        Frame::Integer(1),
    ]);
    assert_eq!(wire(&frame), b"*3\r\n$9\r\nsubscribe\r\n$4\r\nnews\r\n:1\r\n".to_vec());
    assert_eq!(wire(&Frame::Array(Vec::new())), b"*0\r\n".to_vec());
}

#[test]
fn serialize_appends_to_what_is_there() {
    let mut out = b"abc".to_vec();
    encode_into(&Frame::Integer(5), &mut out);
    assert_eq!(out, b"abc:5\r\n".to_vec());
}

#[test]
fn round_trip_of_every_sample() {
    for frame in samples() {
        let bytes = wire(&frame);
        match parse_at(&bytes, 0) {
            Ok(Some((got, consumed))) => {
                assert_eq!(got, frame);
                assert_eq!(consumed, bytes.len());
            }
            other => panic!("no frame from {:?}: {:?}", bytes, other),
        }
    }
}

#[test]
fn every_strict_prefix_needs_more() {
    for frame in samples() {
        let bytes = wire(&frame);
        for k in 0..bytes.len() {
            assert_eq!(parse_at(&bytes[..k], 0), Ok(None), "prefix {} of {:?}", k, bytes);
        }
    }
}

#[test]
fn bulk_keeps_any_bytes() {
    let payload: Vec<u8> = vec![b'\r', b'\n', 0, 0xff, 0xc3, 0x28, b'\r', b'\n', b'$'];
    let bytes = wire(&Frame::Bulk(payload.clone()));
    assert_eq!(parse_at(&bytes, 0), Ok(Some((Frame::Bulk(payload), bytes.len()))));
}

#[test]
fn two_frames_in_one_buffer() {
    let first = Frame::Array(vec![Frame::Bulk(b"PING".to_vec())]);
    let second = Frame::Integer(-7);
    let mut bytes = wire(&first);
    let first_len = bytes.len();
    bytes.extend_from_slice(&wire(&second));
    let (got, end) = parse_at(&bytes, 0).unwrap().unwrap();
    assert_eq!(got, first);
    assert_eq!(end, first_len);
    let (got, end) = parse_at(&bytes, end).unwrap().unwrap();
    assert_eq!(got, second);
    assert_eq!(end, bytes.len());
}

#[test]
fn two_frames_through_a_buffer() {
    let first = Frame::Simple("a".to_string());
    let second = Frame::Bulk(b"bc".to_vec());
    let mut buf = bytes::BytesMut::new();
    serialize_frame(&first, &mut buf);
    serialize_frame(&second, &mut buf);
    assert_eq!(&buf[..], b"+a\r\n$2\r\nbc\r\n");
    assert_eq!(parse_frame(&mut buf), Ok(Some(first)));
    assert_eq!(&buf[..], b"$2\r\nbc\r\n");
    assert_eq!(parse_frame(&mut buf), Ok(Some(second)));
    assert_eq!(buf.len(), 0);
    assert_eq!(parse_frame(&mut buf), Ok(None));
}

#[test]
fn incomplete_frame_leaves_buffer() {
    let mut buf = bytes::BytesMut::new();
    buf.extend_from_slice(b"$5\r\nhel");
    assert_eq!(parse_frame(&mut buf), Ok(None));
    assert_eq!(&buf[..], b"$5\r\nhel");
    buf.extend_from_slice(b"lo\r\n+");
    assert_eq!(parse_frame(&mut buf), Ok(Some(Frame::Bulk(b"hello".to_vec()))));
    assert_eq!(&buf[..], b"+");
}

#[test]
fn invalid_frame_leaves_buffer() {
    let mut buf = bytes::BytesMut::new();
    buf.extend_from_slice(b"X\r\n");
    assert_eq!(parse_frame(&mut buf), Err(ProtocolError::UnknownType));
    assert_eq!(&buf[..], b"X\r\n");
}

#[test]
fn null_from_both_sentinels() {
    assert_eq!(parse_at(b"$-1\r\n", 0), Ok(Some((Frame::Null, 5))));
    assert_eq!(parse_at(b"*-1\r\n", 0), Ok(Some((Frame::Null, 5))));
}

#[test]
fn unknown_type_byte() {
    assert_eq!(parse_at(b"X\r\n", 0), Err(ProtocolError::UnknownType));
    assert_eq!(parse_at(b"?", 0), Err(ProtocolError::UnknownType));
}

#[test]
fn invalid_integer() {
    assert_eq!(parse_at(b":abc\r\n", 0), Err(ProtocolError::InvalidInteger));
    assert_eq!(parse_at(b":\r\n", 0), Err(ProtocolError::InvalidInteger));
    assert_eq!(parse_at(b":9223372036854775808\r\n", 0), Err(ProtocolError::InvalidInteger));
    assert_eq!(parse_at(b":12 \r\n", 0), Err(ProtocolError::InvalidInteger));
}

#[test]
fn invalid_bulk_length() {
    assert_eq!(parse_at(b"$x\r\n", 0), Err(ProtocolError::InvalidBulkLength));
    assert_eq!(parse_at(b"$-2\r\n", 0), Err(ProtocolError::InvalidBulkLength));
}

#[test]
fn invalid_array_length() {
    assert_eq!(parse_at(b"*x\r\n", 0), Err(ProtocolError::InvalidArrayLength));
    assert_eq!(parse_at(b"*-5\r\n", 0), Err(ProtocolError::InvalidArrayLength));
}

#[test]
fn invalid_utf8_in_a_line() {
    assert_eq!(parse_at(b"+\xff\xfe\r\n", 0), Err(ProtocolError::InvalidUtf8));
    assert_eq!(parse_at(b"-\xc3\x28\r\n", 0), Err(ProtocolError::InvalidUtf8));
}

#[test]
fn error_in_a_child_is_the_arrays_error() {
    assert_eq!(parse_at(b"*2\r\n:1\r\n?\r\n", 0), Err(ProtocolError::UnknownType));
    assert_eq!(parse_at(b"*2\r\n:1\r\n", 0), Ok(None));
}

#[test]
fn integer_with_sign_and_zeros() {
    assert_eq!(parse_at(b":+5\r\n", 0), Ok(Some((Frame::Integer(5), 5))));
    assert_eq!(parse_at(b":007\r\n", 0), Ok(Some((Frame::Integer(7), 6))));
    assert_eq!(parse_at(b":-0\r\n", 0), Ok(Some((Frame::Integer(0), 5))));
}

#[test]
fn bulk_terminator_is_skipped() {
    assert_eq!(parse_at(b"$2\r\nab\r\n:1\r\n", 0), Ok(Some((Frame::Bulk(b"ab".to_vec()), 8))));
    assert_eq!(parse_at(b"$2\r\nab\r", 0), Ok(None));
}

#[test]
fn parse_from_a_position() {
    assert_eq!(parse_at(b"junk:12\r\n", 4), Ok(Some((Frame::Integer(12), 9))));
    assert_eq!(parse_at(b":1\r\n", 4), Ok(None));
    assert_eq!(parse_at(b":1\r\n", 9), Ok(None));
}

#[test]
fn line_end_is_the_first_terminator() {
    assert_eq!(find_line_end(b"ab\r\ncd\r\n", 0), Some(2));
    assert_eq!(find_line_end(b"ab\r\ncd\r\n", 3), Some(6));
    assert_eq!(find_line_end(b"ab\rcd\n", 0), None);
    assert_eq!(find_line_end(b"", 0), None);
    assert_eq!(find_line_end(b"\r", 0), None);
    assert_eq!(find_line_end(b"\r\n", 5), None);
}

#[test]
fn read_line_gives_text_and_next_position() {
    assert_eq!(read_line(b"+OK\r\nrest", 1), Ok(Some(("OK".to_string(), 5))));
    assert_eq!(read_line(b"+OK\r", 1), Ok(None));
    assert_eq!(read_line(b"+\xff\r\n", 1), Err(ProtocolError::InvalidUtf8));
    assert_eq!(read_line(b"+h\xc3\xa9\r\n", 1), Ok(Some(("h\u{e9}".to_string(), 6))));
}

#[test]
fn decimal_texts() {
    assert_eq!(parse_i64(b"123"), Some(123));
    assert_eq!(parse_i64(b"-123"), Some(-123));
    assert_eq!(parse_i64(b"+123"), Some(123));
    assert_eq!(parse_i64(b"-9223372036854775808"), Some(i64::MIN));
    assert_eq!(parse_i64(b"9223372036854775807"), Some(i64::MAX));
    assert_eq!(parse_i64(b"-9223372036854775809"), None);
    assert_eq!(parse_i64(b"9223372036854775808"), None);
    assert_eq!(parse_i64(b"99999999999999999999999999"), None);
    assert_eq!(parse_i64(b"0000000000000000000000000012"), Some(12));
    assert_eq!(parse_i64(b""), None);
    assert_eq!(parse_i64(b"-"), None);
    assert_eq!(parse_i64(b"+"), None);
    assert_eq!(parse_i64(b"1a"), None);
    assert_eq!(parse_i64(b" 1"), None);
    assert_eq!(parse_u64(b"18446744073709551615"), Some(u64::MAX));
    assert_eq!(parse_u64(b"18446744073709551616"), None);
    assert_eq!(parse_u64(b"-1"), None);
    assert_eq!(parse_u64(b"-0"), None);
    assert_eq!(parse_u64(b"+7"), Some(7));
    assert_eq!(parse_u64(b"0"), Some(0));
    assert_eq!(parse_u64(b""), None);
}

#[test]
fn decimal_printing() {
    let mut out = Vec::new();
    push_decimal(-905, &mut out);
    assert_eq!(out, b"-905".to_vec());
    push_decimal(10, &mut out);
    assert_eq!(out, b"-90510".to_vec());
}

#[test]
fn connection_reads_frames_as_bytes_arrive() {
    let mut c = Connection::new();
    assert_eq!(c.read_frame(), Ok(None));
    assert_eq!(c.end_of_stream(), Ok(()));
    c.receive(b"*1\r\n$4\r\nPI");
    assert_eq!(c.read_frame(), Ok(None));
    assert_eq!(c.end_of_stream(), Err(ReadError::UnexpectedEof));
    c.receive(b"NG\r\n:3\r\n");
    assert_eq!(c.read_frame(), Ok(Some(Frame::Array(vec![Frame::Bulk(b"PING".to_vec())]))));
    assert_eq!(c.read_frame(), Ok(Some(Frame::Integer(3))));
    assert_eq!(c.read_frame(), Ok(None));
    assert_eq!(c.end_of_stream(), Ok(()));
}

#[test]
fn connection_rejects_garbage() {
    let mut c = Connection::new();
    c.receive(b"X\r\n");
    assert_eq!(c.read_frame(), Err(ReadError::Protocol(ProtocolError::UnknownType)));
}

#[test]
fn connection_writes_the_encoding() {
    assert_eq!(Connection::write_frame(&Frame::Null), b"$-1\r\n".to_vec());
    assert_eq!(Connection::write_frame(&Frame::Bulk(b"bar".to_vec())), b"$3\r\nbar\r\n".to_vec());
}

#[test]
fn well_formed_frames() {
    for frame in samples() {
        assert!(is_well_formed(&frame));
    }
    assert!(!is_well_formed(&Frame::Simple("a\r\nb".to_string())));
    assert!(!is_well_formed(&Frame::Simple("a\nb".to_string())));
    assert!(!is_well_formed(&Frame::Error("\r".to_string())));
    assert!(is_well_formed(&Frame::Bulk(b"a\r\nb".to_vec())));
    assert!(!is_well_formed(&Frame::Array(vec![
        Frame::Integer(1),
        Frame::Array(vec![Frame::Error("x\ny".to_string())])
    ])));
    assert!(has_no_line_break(b"abc"));
    assert!(has_no_line_break(b""));
    assert!(!has_no_line_break(b"ab\r"));
    assert!(!has_no_line_break(b"\nab"));
}

#[test]
fn ill_formed_simple_frame_does_not_come_back() {
    let frame = Frame::Simple("a\r\nb".to_string());
    let bytes = wire(&frame);
    assert_eq!(parse_at(&bytes, 0), Ok(Some((Frame::Simple("a".to_string()), 4))));
}

#[test]
fn clone_gives_an_equal_frame() {
    for frame in samples() {
        assert_eq!(frame.clone(), frame);
    }
}
