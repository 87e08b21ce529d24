//! What a connection does with each frame it reads: the reply to write, or
//! the work to do before one can be written.

use vstd::prelude::*;
use vstd::slice::slice_to_vec;
use vstd::string::StringExecFns;
use vstd::utf8::encode_utf8;
use tokio::sync::broadcast::Receiver;
use crate::cmd::{command_of, from_frame, Command, CommandModel, ParseError};
use crate::db::{Db, StoreModel};
use crate::frame::{lemma_models_of, Frame, FrameModel};

verus! {

/// What the connection has to do next.
pub enum Action {
    /// Write this frame and read on.
    Reply(Frame),
    /// Write a snapshot now, then write the reply that its outcome asks for.
    Save,
    /// Write the confirmation, then deliver what the receiver yields until
    /// the connection ends.
    Subscribe { channel: String, confirmation: Frame, receiver: Receiver<Vec<u8>> },
}

/// What can happen to a connection in subscribed mode.
#[derive(Debug, PartialEq, Eq)]
pub enum SubscribedEvent {
    /// The channel delivered a payload.
    Message(Vec<u8>),
    /// The receiver fell behind and lost messages.
    Lagged,
    /// The channel was closed.
    ChannelClosed,
    /// The peer sent a frame.
    PeerFrame,
    /// The peer closed the connection.
    PeerClosed,
    /// Reading from the peer failed.
    ReadFailed,
}

/// The frame that confirms a subscription to `channel`.
pub open spec fn confirmation_of(channel: Seq<char>) -> FrameModel {
    FrameModel::Array(
        seq![
            FrameModel::Bulk(encode_utf8("subscribe"@)),
            FrameModel::Bulk(encode_utf8(channel)),
            FrameModel::Integer(1),
        ],
    )
}

/// The frame that delivers `payload`, published on `channel`.
pub open spec fn delivery_of(channel: Seq<char>, payload: Seq<u8>) -> FrameModel {
    FrameModel::Array(
        seq![
            FrameModel::Bulk(encode_utf8("message"@)),
            FrameModel::Bulk(encode_utf8(channel)),
            FrameModel::Bulk(payload),
        ],
    )
}

/// The store after a command was carried out at `now`.
pub open spec fn state_after(m: StoreModel, c: CommandModel, now: u64) -> StoreModel {
    match c {
        CommandModel::SetValue { key, value, expiry_seconds } => m.after_set(
            key,
            value,
            expiry_seconds,
            now,
        ),
        CommandModel::Get { key } => m.after_get(key, now),
        CommandModel::Del { key } => m.after_del(key),
        CommandModel::Subscribe { channel } => StoreModel {
            channels: m.channels.insert(channel),
            ..m
        },
        _ => m,
    }
}

/// The number of receivers as a reply can carry it.
pub open spec fn receivers_number(receivers: usize) -> i64 {
    if receivers > i64::MAX {
        i64::MAX
    } else {
        receivers as i64
    }
}

/// Whether `a` is what the command `c` asks for on the store `m` at `now`.
pub open spec fn acts(a: Action, m: StoreModel, c: CommandModel, now: u64) -> bool {
    match c {
        CommandModel::Ping => a matches Action::Reply(f) && f@ == FrameModel::Simple("PONG"@),
        CommandModel::SetValue { .. } => a matches Action::Reply(f) && f@ == FrameModel::Simple(
            "OK"@,
        ),
        CommandModel::Get { key } => a matches Action::Reply(f) && f@ == (match m.read(key, now) {
            Some(v) => FrameModel::Bulk(v),
            None => FrameModel::Null,
        }),
        CommandModel::Del { key } => a matches Action::Reply(f) && f@ == FrameModel::Integer(
            if m.entries.contains_key(key) {
                1i64
            } else {
                0i64
            },
        ),
        CommandModel::Publish { channel, .. } => a matches Action::Reply(f) && (f@ matches FrameModel::Integer(n)
            && n >= 0 && (!m.channels.contains(channel) ==> n == 0)),
        CommandModel::Save => a is Save,
        CommandModel::Subscribe { channel } => a matches Action::Subscribe {
            channel: name,
            confirmation,
            ..
        } && name@ == channel && confirmation@ == confirmation_of(channel),
    }
}

/// The text of an error reply: `ERR`, a space, and a message.
pub open spec fn error_text(message: Seq<char>) -> Seq<char> {
    "ERR "@ + message
}

/// Whether `f` is an error reply.
pub open spec fn is_error_reply(f: FrameModel) -> bool {
    exists|message: Seq<char>| f == FrameModel::Error(#[trigger] error_text(message))
}

/// The array frame of three frames.
fn triple(first: Frame, second: Frame, third: Frame) -> (f: Frame)
    ensures
        f@ == FrameModel::Array(seq![first@, second@, third@]),
{
    let mut items: Vec<Frame> = Vec::new();
    items.push(first);
    items.push(second);
    items.push(third);
    proof {
        lemma_models_of(items@, items@.len());
        assert(crate::frame::views(items@) =~= seq![first@, second@, third@]);
    }
    Frame::Array(items)
}

/// The frame that confirms a subscription to `channel`.
pub fn subscribe_confirmation(channel: &str) -> (f: Frame)
    ensures
        f@ == confirmation_of(channel@),
{
    triple(
        Frame::Bulk(slice_to_vec("subscribe".as_bytes())),
        Frame::Bulk(slice_to_vec(channel.as_bytes())),
        Frame::Integer(1),
    )
}

/// The frame that delivers `payload`, published on `channel`, to a subscriber.
pub fn message_frame(channel: &str, payload: Vec<u8>) -> (f: Frame)
    ensures
        f@ == delivery_of(channel@, payload@),
{
    triple(
        Frame::Bulk(slice_to_vec("message".as_bytes())),
        Frame::Bulk(slice_to_vec(channel.as_bytes())),
        Frame::Bulk(payload),
    )
}

/// What a subscribed connection does on an event: it delivers a payload
/// that the channel brought, and ends on anything else (`None`). Subscribed
/// mode is left only by closing the connection.
pub fn subscribed_step(channel: &str, event: SubscribedEvent) -> (delivery: Option<Frame>)
    ensures
        match event {
            SubscribedEvent::Message(payload) => delivery matches Some(f) && f@ == delivery_of(
                channel@,
                payload@,
            ),
            _ => delivery is None,
        },
{
    match event {
        SubscribedEvent::Message(payload) => Some(message_frame(channel, payload)),
        _ => None,
    }
}

/// The reply to a publish that reached `receivers` receivers.
pub fn publish_reply(receivers: usize) -> (f: Frame)
    ensures
        f@ == FrameModel::Integer(receivers_number(receivers)),
{
    let wide: u64 = receivers as u64;
    if wide > 9223372036854775807u64 {
        Frame::Integer(i64::MAX)
    } else {
        Frame::Integer(wide as i64)
    }
}

/// The reply to a save: `OK`, or the error that the failure's text makes.
pub fn save_reply(outcome: Result<(), String>) -> (f: Frame)
    ensures
        f@ == (match outcome {
            Ok(_) => FrameModel::Simple("OK"@),
            Err(text) => FrameModel::Error(error_text(text@)),
        }),
{
    match outcome {
        Ok(_) => Frame::Simple("OK".to_string()),
        Err(text) => Frame::Error("ERR ".to_string().concat(text.as_str())),
    }
}

/// The reply to a frame that is no command.
pub fn error_reply(error: &ParseError) -> (f: Frame)
    ensures
        f@ == FrameModel::Error(
            error_text(
                match error {
                    ParseError::InvalidCommand(msg) => "invalid command: "@ + msg@,
                    ParseError::InvalidFormat(msg) => "invalid format: "@ + msg@,
                },
            ),
        ),
        is_error_reply(f@),
{
    let text = error.message();
    let f = Frame::Error("ERR ".to_string().concat(text.as_str()));
    assert(f@ == FrameModel::Error(error_text(text@)));
    f
}

/// Carries out a command on the store at the instant `now`, in
/// milliseconds, and says what the connection has to do next.
pub fn dispatch(db: &mut Db, command: Command, now: u64) -> (a: Action)
    ensures
        final(db)@ == state_after(old(db)@, command@, now),
        old(db)@.well_formed() ==> final(db)@.well_formed(),
        acts(a, old(db)@, command@, now),
{
    match command {
        Command::Ping => Action::Reply(Frame::Simple("PONG".to_string())),
        Command::SetValue { key, value, expiry_seconds } => {
            db.set(key, value, expiry_seconds, now);
            Action::Reply(Frame::Simple("OK".to_string()))
        },
        Command::Get { key } => {
            match db.get(key.as_str(), now) {
                Some(value) => Action::Reply(Frame::Bulk(value)),
                None => Action::Reply(Frame::Null),
            }
        },
        Command::Del { key } => {
            if db.del(key.as_str()) {
                Action::Reply(Frame::Integer(1))
            } else {
                Action::Reply(Frame::Integer(0))
            }
        },
        Command::Publish { channel, message } => {
            let receivers = db.publish(channel, message);
            Action::Reply(publish_reply(receivers))
        },
        Command::Save => Action::Save,
        Command::Subscribe { channel } => {
            let confirmation = subscribe_confirmation(channel.as_str());
            let receiver = db.subscribe(channel.clone());
            Action::Subscribe { channel, confirmation, receiver }
        },
    }
}

/// Reads a frame as a command and carries it out. A frame that is no
/// command gets an error reply and leaves the store as it is.
pub fn handle(db: &mut Db, frame: Frame, now: u64) -> (a: Action)
    ensures
        old(db)@.well_formed() ==> final(db)@.well_formed(),
        match command_of(frame@) {
            Ok(c) => final(db)@ == state_after(old(db)@, c, now) && acts(a, old(db)@, c, now),
            Err(_) => final(db)@ == old(db)@ && (a matches Action::Reply(f) && is_error_reply(f@)),
        },
{
    match from_frame(frame) {
        Ok(command) => dispatch(db, command, now),
        Err(error) => Action::Reply(error_reply(&error)),
    }
}

} // verus!
