use respkv::connection::{Connection, ReadError};
use respkv::db::Db;
use respkv::frame::{Frame, ProtocolError};
use respkv::server::{
    dispatch, error_reply, handle, message_frame, publish_reply, save_reply, subscribed_step,
    subscribe_confirmation, Action, SubscribedEvent,
};
use respkv::cmd::{Command, ParseError};

fn exchange(db: &mut Db, c: &mut Connection, request: &[u8], now: u64) -> Vec<u8> {
    c.receive(request);
    let frame = c.read_frame().unwrap().unwrap();
    match handle(db, frame, now) {
        Action::Reply(reply) => Connection::write_frame(&reply),
        Action::Save => Connection::write_frame(&save_reply(Ok(()))),
        Action::Subscribe { confirmation, .. } => Connection::write_frame(&confirmation),
    }
}

#[test]
fn ping_gets_pong() {
    let mut db = Db::new();
    let mut c = Connection::new();
    assert_eq!(exchange(&mut db, &mut c, b"*1\r\n$4\r\nPING\r\n", 0), b"+PONG\r\n".to_vec());
}

#[test]
fn set_then_get_over_the_wire() {
    let mut db = Db::new();
    let mut c = Connection::new();
    assert_eq!(
        exchange(&mut db, &mut c, b"*3\r\n$3\r\nSET\r\n$3\r\nfoo\r\n$3\r\nbar\r\n", 0),
        b"+OK\r\n".to_vec()
    );
    assert_eq!(
        exchange(&mut db, &mut c, b"*2\r\n$3\r\nGET\r\n$3\r\nfoo\r\n", 1),
        b"$3\r\nbar\r\n".to_vec()
    );
}

#[test]
fn get_of_absent_key_over_the_wire() {
    let mut db = Db::new();
    let mut c = Connection::new();
    assert_eq!(
        exchange(&mut db, &mut c, b"*2\r\n$3\r\nGET\r\n$6\r\nabsent\r\n", 0),
        b"$-1\r\n".to_vec()
    );
}

#[test]
fn key_expires_over_the_wire() {
    let mut db = Db::new();
    let mut c = Connection::new();
    assert_eq!(
        exchange(&mut db, &mut c, b"*5\r\n$3\r\nSET\r\n$1\r\nk\r\n$1\r\nv\r\n$2\r\nEX\r\n$1\r\n1\r\n", 0),
        b"+OK\r\n".to_vec()
    );
    assert_eq!(exchange(&mut db, &mut c, b"*2\r\n$3\r\nGET\r\n$1\r\nk\r\n", 1500), b"$-1\r\n".to_vec());
}

#[test]
fn del_over_the_wire() {
    let mut db = Db::new();
    let mut c = Connection::new();
    exchange(&mut db, &mut c, b"*3\r\n$3\r\nSET\r\n$1\r\nk\r\n$1\r\nv\r\n", 0);
    assert_eq!(exchange(&mut db, &mut c, b"*2\r\n$3\r\nDEL\r\n$1\r\nk\r\n", 0), b":1\r\n".to_vec());
    assert_eq!(exchange(&mut db, &mut c, b"*2\r\n$3\r\nDEL\r\n$1\r\nk\r\n", 0), b":0\r\n".to_vec());
    assert_eq!(exchange(&mut db, &mut c, b"*2\r\n$3\r\nGET\r\n$1\r\nk\r\n", 0), b"$-1\r\n".to_vec());
}

#[test]
fn subscribe_then_publish_over_the_wire() {
    let mut db = Db::new();
    let mut a = Connection::new();
    let mut b = Connection::new();
    a.receive(b"*2\r\n$9\r\nSUBSCRIBE\r\n$4\r\nnews\r\n");
    let frame = a.read_frame().unwrap().unwrap();
    let (channel, mut receiver) = match handle(&mut db, frame, 0) {
        Action::Subscribe { channel, confirmation, receiver } => {
            assert_eq!(
                Connection::write_frame(&confirmation),
                b"*3\r\n$9\r\nsubscribe\r\n$4\r\nnews\r\n:1\r\n".to_vec()
            );
            (channel, receiver)
        }
        _ => panic!("no subscription"),
    };
    assert_eq!(
        exchange(&mut db, &mut b, b"*3\r\n$7\r\nPUBLISH\r\n$4\r\nnews\r\n$2\r\nhi\r\n", 0),
        b":1\r\n".to_vec()
    );
    let payload = receiver.try_recv().unwrap();
    assert_eq!(
        Connection::write_frame(&message_frame(&channel, payload)),
        b"*3\r\n$7\r\nmessage\r\n$4\r\nnews\r\n$2\r\nhi\r\n".to_vec()
    );
    assert!(receiver.try_recv().is_err());
}

#[test]
fn publish_to_nobody_over_the_wire() {
    let mut db = Db::new();
    let mut c = Connection::new();
    assert_eq!(
        exchange(&mut db, &mut c, b"*3\r\n$7\r\nPUBLISH\r\n$4\r\nnews\r\n$2\r\nhi\r\n", 0),
        b":0\r\n".to_vec()
    );
}

#[test]
fn garbage_ends_the_connection() {
    let mut c = Connection::new();
    c.receive(b"X\r\n");
    assert_eq!(c.read_frame(), Err(ReadError::Protocol(ProtocolError::UnknownType)));
}

#[test]
fn unknown_command_gets_an_error_and_the_connection_goes_on() {
    let mut db = Db::new();
    let mut c = Connection::new();
    assert_eq!(
        exchange(&mut db, &mut c, b"*1\r\n$3\r\nFOO\r\n", 0),
        b"-ERR invalid command: unknown command 'FOO'\r\n".to_vec()
    );
    assert_eq!(
        exchange(&mut db, &mut c, b"*1\r\n$3\r\nGET\r\n", 0),
        b"-ERR invalid format: GET requires exactly 1 argument\r\n".to_vec()
    );
    assert_eq!(exchange(&mut db, &mut c, b"*1\r\n$4\r\nPING\r\n", 0), b"+PONG\r\n".to_vec());
    assert!(!db.is_dirty());
}

#[test]
fn save_is_left_to_the_caller() {
    let mut db = Db::new();
    assert!(matches!(dispatch(&mut db, Command::Save, 0), Action::Save));
    assert_eq!(Connection::write_frame(&save_reply(Ok(()))), b"+OK\r\n".to_vec());
    assert_eq!(
        Connection::write_frame(&save_reply(Err("disk full".to_string()))),
        b"-ERR disk full\r\n".to_vec()
    );
}

#[test]
fn reply_frames() {
    assert_eq!(publish_reply(2), Frame::Integer(2));
    assert_eq!(publish_reply(0), Frame::Integer(0));
    assert_eq!(publish_reply(usize::MAX), Frame::Integer(i64::MAX));
    assert_eq!(
        error_reply(&ParseError::InvalidFormat("x".to_string())),
        Frame::Error("ERR invalid format: x".to_string())
    );
    assert_eq!(
        subscribe_confirmation("ch"),
        Frame::Array(vec![
            Frame::Bulk(b"subscribe".to_vec()),
            Frame::Bulk(b"ch".to_vec()),
            Frame::Integer(1)
        ])
    );
    assert_eq!(
        message_frame("ch", vec![0, 13, 10]),
        Frame::Array(vec![
            Frame::Bulk(b"message".to_vec()),
            Frame::Bulk(b"ch".to_vec()),
            Frame::Bulk(vec![0, 13, 10])
        ])
    );
}

#[test]
fn dispatch_of_each_command() {
    let mut db = Db::new();
    assert!(matches!(dispatch(&mut db, Command::Ping, 0), Action::Reply(Frame::Simple(s)) if s == "PONG"));
    let set = Command::SetValue { key: "k".to_string(), value: b"v".to_vec(), expiry_seconds: Some(2) };
    assert!(matches!(dispatch(&mut db, set, 0), Action::Reply(Frame::Simple(s)) if s == "OK"));
    assert!(matches!(
        dispatch(&mut db, Command::Get { key: "k".to_string() }, 1999),
        Action::Reply(Frame::Bulk(v)) if v == b"v".to_vec()
    ));
    assert!(matches!(
        dispatch(&mut db, Command::Get { key: "k".to_string() }, 2000),
        Action::Reply(Frame::Null)
    ));
    assert!(matches!(
        dispatch(&mut db, Command::Del { key: "k".to_string() }, 2000),
        Action::Reply(Frame::Integer(0))
    ));
}

#[test]
fn subscribed_mode_delivers_messages_and_ends_on_anything_else() {
    assert_eq!(
        subscribed_step("news", SubscribedEvent::Message(b"hi".to_vec())),
        Some(Frame::Array(vec![
            Frame::Bulk(b"message".to_vec()),
            Frame::Bulk(b"news".to_vec()),
            Frame::Bulk(b"hi".to_vec())
        ]))
    );
    assert_eq!(subscribed_step("news", SubscribedEvent::Lagged), None);
    assert_eq!(subscribed_step("news", SubscribedEvent::ChannelClosed), None);
    assert_eq!(subscribed_step("news", SubscribedEvent::PeerFrame), None);
    assert_eq!(subscribed_step("news", SubscribedEvent::PeerClosed), None);
    assert_eq!(subscribed_step("news", SubscribedEvent::ReadFailed), None);
}
