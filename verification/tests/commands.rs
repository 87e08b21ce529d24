use respkv::cmd::{
    decode_request, from_frame, parse_request, same_bytes, to_upper, Command, ParseError, Request,
};
use respkv::frame::Frame;

fn bulk(text: &str) -> Frame {
    Frame::Bulk(text.as_bytes().to_vec())
}

fn request(words: &[&str]) -> Frame {
    Frame::Array(words.iter().map(|w| bulk(w)).collect())
}

fn is_invalid_format(r: Result<Command, ParseError>) -> bool {
    matches!(r, Err(ParseError::InvalidFormat(_)))
}

#[test]
fn ping_is_a_command() {
    assert_eq!(from_frame(request(&["PING"])), Ok(Command::Ping));
}

#[test]
fn names_match_in_any_case() {
    assert_eq!(from_frame(request(&["ping"])), Ok(Command::Ping));
    assert_eq!(from_frame(request(&["PiNg"])), Ok(Command::Ping));
    assert_eq!(from_frame(request(&["get", "k"])), Ok(Command::Get { key: "k".to_string() }));
    assert_eq!(from_frame(request(&["Save"])), Ok(Command::Save));
}

#[test]
fn get_takes_one_key() {
    assert_eq!(from_frame(request(&["GET", "foo"])), Ok(Command::Get { key: "foo".to_string() }));
    assert!(is_invalid_format(from_frame(request(&["GET"]))));
    assert!(is_invalid_format(from_frame(request(&["GET", "a", "b"]))));
    assert!(is_invalid_format(from_frame(Frame::Array(vec![bulk("GET"), Frame::Integer(1)]))));
}

#[test]
fn del_takes_one_key() {
    assert_eq!(from_frame(request(&["DEL", "foo"])), Ok(Command::Del { key: "foo".to_string() }));
    assert!(is_invalid_format(from_frame(request(&["DEL"]))));
    assert!(is_invalid_format(from_frame(request(&["DEL", "a", "b"]))));
}

#[test]
fn ping_and_save_take_no_argument() {
    assert!(is_invalid_format(from_frame(request(&["PING", "x"]))));
    assert!(is_invalid_format(from_frame(request(&["SAVE", "x"]))));
    assert_eq!(from_frame(request(&["SAVE"])), Ok(Command::Save));
}

#[test]
fn set_without_options() {
    assert_eq!(
        from_frame(request(&["SET", "foo", "bar"])),
        Ok(Command::SetValue {
            key: "foo".to_string(),
            value: b"bar".to_vec(),
            expiry_seconds: None
        })
    );
}

#[test]
fn set_with_expiry() {
    assert_eq!(
        from_frame(request(&["SET", "k", "v", "EX", "1"])),
        Ok(Command::SetValue { key: "k".to_string(), value: b"v".to_vec(), expiry_seconds: Some(1) })
    );
    assert_eq!(
        from_frame(request(&["set", "k", "v", "ex", "0"])),
        Ok(Command::SetValue { key: "k".to_string(), value: b"v".to_vec(), expiry_seconds: Some(0) })
    );
    assert_eq!(
        from_frame(request(&["SET", "k", "v", "EX", "18446744073709551615"])),
        Ok(Command::SetValue {
            key: "k".to_string(),
            value: b"v".to_vec(),
            expiry_seconds: Some(u64::MAX)
        })
    );
}

#[test]
fn set_with_two_expiries_keeps_the_last() {
    assert_eq!(
        from_frame(request(&["SET", "k", "v", "EX", "1", "EX", "9"])),
        Ok(Command::SetValue { key: "k".to_string(), value: b"v".to_vec(), expiry_seconds: Some(9) })
    );
}

#[test]
fn set_rejects_bad_options() {
    assert!(is_invalid_format(from_frame(request(&["SET", "k"]))));
    assert!(is_invalid_format(from_frame(request(&["SET", "k", "v", "EX"]))));
    assert!(is_invalid_format(from_frame(request(&["SET", "k", "v", "EX", "abc"]))));
    assert!(is_invalid_format(from_frame(request(&["SET", "k", "v", "EX", "-1"]))));
    assert!(is_invalid_format(from_frame(request(&["SET", "k", "v", "EX", "18446744073709551616"]))));
    assert!(is_invalid_format(from_frame(request(&["SET", "k", "v", "PX", "1"]))));
    assert!(is_invalid_format(from_frame(request(&["SET", "k", "v", "EX", "1", "NX"]))));
    assert!(is_invalid_format(from_frame(Frame::Array(vec![
        bulk("SET"),
        bulk("k"),
        bulk("v"),
        Frame::Integer(1)
    ]))));
    assert!(is_invalid_format(from_frame(Frame::Array(vec![
        bulk("SET"),
        bulk("k"),
        bulk("v"),
        bulk("EX"),
        Frame::Integer(1)
    ]))));
    assert!(is_invalid_format(from_frame(Frame::Array(vec![bulk("SET"), Frame::Null, bulk("v")]))));
    assert!(is_invalid_format(from_frame(Frame::Array(vec![bulk("SET"), bulk("k"), Frame::Null]))));
}

#[test]
fn set_keeps_value_bytes() {
    let value = vec![0u8, 255, 13, 10];
    assert_eq!(
        from_frame(Frame::Array(vec![bulk("SET"), bulk("k"), Frame::Bulk(value.clone())])),
        Ok(Command::SetValue { key: "k".to_string(), value, expiry_seconds: None })
    );
}

#[test]
fn publish_and_subscribe() {
    assert_eq!(
        from_frame(request(&["PUBLISH", "news", "hi"])),
        Ok(Command::Publish { channel: "news".to_string(), message: b"hi".to_vec() })
    );
    assert_eq!(
        from_frame(request(&["SUBSCRIBE", "news"])),
        Ok(Command::Subscribe { channel: "news".to_string() })
    );
    assert!(is_invalid_format(from_frame(request(&["PUBLISH", "news"]))));
    assert!(is_invalid_format(from_frame(request(&["PUBLISH", "news", "a", "b"]))));
    assert!(is_invalid_format(from_frame(request(&["SUBSCRIBE"]))));
    assert!(is_invalid_format(from_frame(request(&["SUBSCRIBE", "a", "b"]))));
}

#[test]
fn keys_are_read_as_lossy_text() {
    assert_eq!(
        from_frame(Frame::Array(vec![bulk("GET"), Frame::Bulk(vec![b'a', 0xff, b'b'])])),
        Ok(Command::Get { key: "a\u{fffd}b".to_string() })
    );
    assert_eq!(
        from_frame(Frame::Array(vec![bulk("SUBSCRIBE"), Frame::Bulk(vec![0xc3, 0xa9])])),
        Ok(Command::Subscribe { channel: "\u{e9}".to_string() })
    );
}

#[test]
fn unknown_command() {
    assert_eq!(
        from_frame(request(&["foo", "x"])),
        Err(ParseError::InvalidCommand("unknown command 'FOO'".to_string()))
    );
    assert!(matches!(from_frame(request(&[""])), Err(ParseError::InvalidCommand(_))));
    assert!(matches!(from_frame(request(&["PINGS"])), Err(ParseError::InvalidCommand(_))));
}

#[test]
fn frames_that_are_no_command() {
    assert_eq!(
        from_frame(Frame::Array(Vec::new())),
        Err(ParseError::InvalidFormat("empty command array".to_string()))
    );
    assert_eq!(
        from_frame(Frame::Simple("PING".to_string())),
        Err(ParseError::InvalidFormat("command must be an array".to_string()))
    );
    assert_eq!(
        from_frame(Frame::Array(vec![Frame::Integer(1)])),
        Err(ParseError::InvalidFormat("command must be bulk string".to_string()))
    );
    assert!(is_invalid_format(from_frame(Frame::Null)));
    assert!(is_invalid_format(from_frame(bulk("PING"))));
    assert!(is_invalid_format(from_frame(Frame::Integer(3))));
}

#[test]
fn error_texts() {
    assert_eq!(
        ParseError::InvalidCommand("unknown command 'X'".to_string()).message(),
        "invalid command: unknown command 'X'"
    );
    assert_eq!(
        ParseError::InvalidFormat("empty command array".to_string()).message(),
        "invalid format: empty command array"
    );
    assert_eq!(
        from_frame(request(&["SET", "k", "v", "px", "1"])),
        Err(ParseError::InvalidFormat("unknown option 'PX'".to_string()))
    );
}

#[test]
fn upper_case_of_ascii_only() {
    assert_eq!(to_upper(b"az-AZ09{`"), b"AZ-AZ09{`".to_vec());
    assert_eq!(to_upper(&[0xc3, 0xa9, b'x']), vec![0xc3, 0xa9, b'X']);
    assert!(same_bytes(b"abc", b"abc"));
    assert!(!same_bytes(b"abc", b"abd"));
    assert!(!same_bytes(b"abc", b"ab"));
}

#[test]
fn request_keeps_arguments_as_bytes() {
    assert_eq!(parse_request(request(&["ping"])), Ok(Request::Ping));
    assert_eq!(
        parse_request(Frame::Array(vec![bulk("get"), Frame::Bulk(vec![b'a', 0xff])])),
        Ok(Request::Get { key: vec![b'a', 0xff] })
    );
    assert_eq!(
        parse_request(request(&["SET", "k", "v", "EX", "7"])),
        Ok(Request::SetValue { key: b"k".to_vec(), value: b"v".to_vec(), expiry_seconds: Some(7) })
    );
    assert_eq!(
        parse_request(request(&["publish", "news", "hi"])),
        Ok(Request::Publish { channel: b"news".to_vec(), message: b"hi".to_vec() })
    );
    assert!(matches!(parse_request(request(&["nope"])), Err(ParseError::InvalidCommand(_))));
    assert!(matches!(parse_request(Frame::Null), Err(ParseError::InvalidFormat(_))));
}

#[test]
fn request_is_decoded_to_a_command() {
    assert_eq!(decode_request(Request::Ping), Command::Ping);
    assert_eq!(decode_request(Request::Save), Command::Save);
    assert_eq!(
        decode_request(Request::Get { key: b"caf\xc3\xa9".to_vec() }),
        Command::Get { key: "caf\u{e9}".to_string() }
    );
    assert_eq!(
        decode_request(Request::Del { key: vec![0xff] }),
        Command::Del { key: "\u{fffd}".to_string() }
    );
    assert_eq!(
        decode_request(Request::SetValue {
            key: b"k".to_vec(),
            value: vec![0xff],
            expiry_seconds: Some(3)
        }),
        Command::SetValue { key: "k".to_string(), value: vec![0xff], expiry_seconds: Some(3) }
    );
    assert_eq!(
        decode_request(Request::Subscribe { channel: b"ch".to_vec() }),
        Command::Subscribe { channel: "ch".to_string() }
    );
    assert_eq!(
        decode_request(Request::Publish { channel: b"ch".to_vec(), message: vec![1, 2] }),
        Command::Publish { channel: "ch".to_string(), message: vec![1, 2] }
    );
}
