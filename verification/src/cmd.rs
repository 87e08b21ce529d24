//! Commands, and how a frame is read as one.

use vstd::prelude::*;
use vstd::slice::slice_to_vec;
use vstd::string::StringExecFns;
use vstd::utf8::{decode_utf8, valid_utf8};
use crate::decimal::{parse_u64, u64_value};
use crate::frame::{lemma_models_of, Frame, FrameModel};

verus! {

/// A validated request.
#[derive(Debug, PartialEq, Eq)]
pub enum Command {
    Get { key: String },
    SetValue { key: String, value: Vec<u8>, expiry_seconds: Option<u64> },
    Del { key: String },
    Ping,
    Subscribe { channel: String },
    Publish { channel: String, message: Vec<u8> },
    Save,
}

/// The mathematical value of a command.
pub ghost enum CommandModel {
    Get { key: Seq<char> },
    SetValue { key: Seq<char>, value: Seq<u8>, expiry_seconds: Option<u64> },
    Del { key: Seq<char> },
    Ping,
    Subscribe { channel: Seq<char> },
    Publish { channel: Seq<char>, message: Seq<u8> },
    Save,
}

impl View for Command {
    type V = CommandModel;

    open spec fn view(&self) -> CommandModel {
        match self {
            Command::Get { key } => CommandModel::Get { key: key@ },
            Command::SetValue { key, value, expiry_seconds } => CommandModel::SetValue {
                key: key@,
                value: value@,
                expiry_seconds: *expiry_seconds,
            },
            Command::Del { key } => CommandModel::Del { key: key@ },
            Command::Ping => CommandModel::Ping,
            Command::Subscribe { channel } => CommandModel::Subscribe { channel: channel@ },
            Command::Publish { channel, message } => CommandModel::Publish {
                channel: channel@,
                message: message@,
            },
            Command::Save => CommandModel::Save,
        }
    }
}

/// A request as it stands in a frame: the command, with its key or channel
/// still as bytes.
#[derive(Debug, PartialEq, Eq)]
pub enum Request {
    Get { key: Vec<u8> },
    SetValue { key: Vec<u8>, value: Vec<u8>, expiry_seconds: Option<u64> },
    Del { key: Vec<u8> },
    Ping,
    Subscribe { channel: Vec<u8> },
    Publish { channel: Vec<u8>, message: Vec<u8> },
    Save,
}

/// The mathematical value of a request.
pub ghost enum RequestModel {
    Get { key: Seq<u8> },
    SetValue { key: Seq<u8>, value: Seq<u8>, expiry_seconds: Option<u64> },
    Del { key: Seq<u8> },
    Ping,
    Subscribe { channel: Seq<u8> },
    Publish { channel: Seq<u8>, message: Seq<u8> },
    Save,
}

impl View for Request {
    type V = RequestModel;

    open spec fn view(&self) -> RequestModel {
        match self {
            Request::Get { key } => RequestModel::Get { key: key@ },
            Request::SetValue { key, value, expiry_seconds } => RequestModel::SetValue {
                key: key@,
                value: value@,
                expiry_seconds: *expiry_seconds,
            },
            Request::Del { key } => RequestModel::Del { key: key@ },
            Request::Ping => RequestModel::Ping,
            Request::Subscribe { channel } => RequestModel::Subscribe { channel: channel@ },
            Request::Publish { channel, message } => RequestModel::Publish {
                channel: channel@,
                message: message@,
            },
            Request::Save => RequestModel::Save,
        }
    }
}

/// Why a frame is no command. Each variant carries a message for the client.
#[derive(Debug, PartialEq, Eq)]
pub enum ParseError {
    /// The command's name is not known.
    InvalidCommand(String),
    /// The frame has not the shape of a command, or of this command.
    InvalidFormat(String),
}

/// The two ways in which a frame fails to be a command.
pub ghost enum Failure {
    InvalidCommand,
    InvalidFormat,
}

impl ParseError {
    /// Which of the two failures this is.
    pub open spec fn failure(&self) -> Failure {
        match self {
            ParseError::InvalidCommand(_) => Failure::InvalidCommand,
            ParseError::InvalidFormat(_) => Failure::InvalidFormat,
        }
    }

    /// The text of the error: what kind it is, then its message.
    pub fn message(&self) -> (text: String)
        ensures
            text@ == match self {
                ParseError::InvalidCommand(msg) => "invalid command: "@ + msg@,
                ParseError::InvalidFormat(msg) => "invalid format: "@ + msg@,
            },
    {
        match self {
            ParseError::InvalidCommand(msg) => "invalid command: ".to_string().concat(msg.as_str()),
            ParseError::InvalidFormat(msg) => "invalid format: ".to_string().concat(msg.as_str()),
        }
    }
}

/// The text that a byte string stands for when it is read as UTF-8 with each
/// invalid sequence replaced by the replacement character.
pub uninterp spec fn lossy_text(bytes: Seq<u8>) -> Seq<char>;

/// `String::from_utf8_lossy` of std: the lossy reading of a byte string,
/// which for valid UTF-8 is the text itself.
#[verifier::external_body]
fn text_of(bytes: &[u8]) -> (r: String)
    ensures
        r@ == lossy_text(bytes@),
        valid_utf8(bytes@) ==> r@ == decode_utf8(bytes@),
{
    String::from_utf8_lossy(bytes).into_owned()
}

/// A byte with an ASCII lower-case letter turned into its upper-case letter.
pub open spec fn upper(b: u8) -> u8 {
    if 97 <= b <= 122 {
        (b - 32) as u8
    } else {
        b
    }
}

/// A byte string with each ASCII lower-case letter turned into upper case.
pub open spec fn upper_all(word: Seq<u8>) -> Seq<u8> {
    Seq::new(word.len(), |i: int| upper(word[i]))
}

/// The command name `PING`, in ASCII.
pub open spec fn ping_name() -> Seq<u8> {
    seq![80u8, 73u8, 78u8, 71u8]
}

/// The command name `GET`, in ASCII.
pub open spec fn get_name() -> Seq<u8> {
    seq![71u8, 69u8, 84u8]
}

/// The command name `SET`, in ASCII.
pub open spec fn set_name() -> Seq<u8> {
    seq![83u8, 69u8, 84u8]
}

/// The command name `DEL`, in ASCII.
pub open spec fn del_name() -> Seq<u8> {
    seq![68u8, 69u8, 76u8]
}

/// The command name `SUBSCRIBE`, in ASCII.
pub open spec fn subscribe_name() -> Seq<u8> {
    seq![83u8, 85u8, 66u8, 83u8, 67u8, 82u8, 73u8, 66u8, 69u8]
}

/// The command name `PUBLISH`, in ASCII.
pub open spec fn publish_name() -> Seq<u8> {
    seq![80u8, 85u8, 66u8, 76u8, 73u8, 83u8, 72u8]
}

/// The command name `SAVE`, in ASCII.
pub open spec fn save_name() -> Seq<u8> {
    seq![83u8, 65u8, 86u8, 69u8]
}

/// The option name `EX`, in ASCII.
pub open spec fn ex_name() -> Seq<u8> {
    seq![69u8, 88u8]
}

/// The contents of a bulk frame, `None` for any other frame.
pub open spec fn bulk_of(m: FrameModel) -> Option<Seq<u8>> {
    match m {
        FrameModel::Bulk(data) => Some(data),
        _ => None,
    }
}

/// The time to live that the options of a `SET` give, read in order from
/// index `i` with `ttl` found so far: each `EX` with its seconds replaces what
/// came before. `None` where an option is unknown, lacks its value, or has a
/// value that is no unsigned number of 64 bits.
pub open spec fn set_options(items: Seq<FrameModel>, i: int, ttl: Option<u64>) -> Option<
    Option<u64>,
>
    decreases items.len() - i,
{
    if i < 0 || i >= items.len() {
        Some(ttl)
    } else if bulk_of(items[i]) is Some && upper_all(bulk_of(items[i])->0) == ex_name() && i + 1
        < items.len() && bulk_of(items[i + 1]) is Some && u64_value(bulk_of(items[i + 1])->0)
        is Some {
        set_options(items, i + 2, Some(u64_value(bulk_of(items[i + 1])->0)->0))
    } else {
        None
    }
}

/// The request that the arguments `items` make under the upper-cased name
/// `name`; `items[0]` is the name's own frame.
pub open spec fn request_named(name: Seq<u8>, items: Seq<FrameModel>) -> Result<
    RequestModel,
    Failure,
> {
    let n = items.len();
    if name == ping_name() {
        if n == 1 {
            Ok(RequestModel::Ping)
        } else {
            Err(Failure::InvalidFormat)
        }
    } else if name == save_name() {
        if n == 1 {
            Ok(RequestModel::Save)
        } else {
            Err(Failure::InvalidFormat)
        }
    } else if name == get_name() {
        if n == 2 && bulk_of(items[1]) is Some {
            Ok(RequestModel::Get { key: bulk_of(items[1])->0 })
        } else {
            Err(Failure::InvalidFormat)
        }
    } else if name == del_name() {
        if n == 2 && bulk_of(items[1]) is Some {
            Ok(RequestModel::Del { key: bulk_of(items[1])->0 })
        } else {
            Err(Failure::InvalidFormat)
        }
    } else if name == subscribe_name() {
        if n == 2 && bulk_of(items[1]) is Some {
            Ok(RequestModel::Subscribe { channel: bulk_of(items[1])->0 })
        } else {
            Err(Failure::InvalidFormat)
        }
    } else if name == publish_name() {
        if n == 3 && bulk_of(items[1]) is Some && bulk_of(items[2]) is Some {
            Ok(
                RequestModel::Publish {
                    channel: bulk_of(items[1])->0,
                    message: bulk_of(items[2])->0,
                },
            )
        } else {
            Err(Failure::InvalidFormat)
        }
    } else if name == set_name() {
        if n >= 3 && bulk_of(items[1]) is Some && bulk_of(items[2]) is Some && set_options(
            items,
            3,
            None,
        ) is Some {
            Ok(
                RequestModel::SetValue {
                    key: bulk_of(items[1])->0,
                    value: bulk_of(items[2])->0,
                    expiry_seconds: set_options(items, 3, None)->0,
                },
            )
        } else {
            Err(Failure::InvalidFormat)
        }
    } else {
        Err(Failure::InvalidCommand)
    }
}

/// The request that a frame stands for: an array whose first element is a
/// bulk frame with the command's name in any ASCII case, followed by exactly
/// the arguments of that command.
pub open spec fn request_of(m: FrameModel) -> Result<RequestModel, Failure> {
    match m {
        FrameModel::Array(items) => if items.len() >= 1 && bulk_of(items[0]) is Some {
            request_named(upper_all(bulk_of(items[0])->0), items)
        } else {
            Err(Failure::InvalidFormat)
        },
        _ => Err(Failure::InvalidFormat),
    }
}

/// The command that a request makes once its key or channel is read as text.
pub open spec fn decoded(q: RequestModel) -> CommandModel {
    match q {
        RequestModel::Get { key } => CommandModel::Get { key: lossy_text(key) },
        RequestModel::SetValue { key, value, expiry_seconds } => CommandModel::SetValue {
            key: lossy_text(key),
            value,
            expiry_seconds,
        },
        RequestModel::Del { key } => CommandModel::Del { key: lossy_text(key) },
        RequestModel::Ping => CommandModel::Ping,
        RequestModel::Subscribe { channel } => CommandModel::Subscribe {
            channel: lossy_text(channel),
        },
        RequestModel::Publish { channel, message } => CommandModel::Publish {
            channel: lossy_text(channel),
            message,
        },
        RequestModel::Save => CommandModel::Save,
    }
}

/// The command that a frame stands for: its request, with the key or channel
/// read as text.
pub open spec fn command_of(m: FrameModel) -> Result<CommandModel, Failure> {
    match request_of(m) {
        Ok(q) => Ok(decoded(q)),
        Err(f) => Err(f),
    }
}

/// Whether a result says what the rules on requests say.
pub open spec fn answers_request(r: Result<Request, ParseError>, want: Result<RequestModel, Failure>) -> bool {
    match want {
        Ok(q) => r matches Ok(got) && got@ == q,
        Err(f) => r matches Err(e) && e.failure() == f,
    }
}


/// Whether a result says what the rules say.
pub open spec fn answers(r: Result<Command, ParseError>, want: Result<CommandModel, Failure>) -> bool {
    match want {
        Ok(c) => r matches Ok(got) && got@ == c,
        Err(f) => r matches Err(e) && e.failure() == f,
    }
}

/// Turns each ASCII lower-case letter of `word` into upper case.
pub fn to_upper(word: &[u8]) -> (r: Vec<u8>)
    ensures
        r@ == upper_all(word@),
{
    let mut out: Vec<u8> = Vec::new();
    let mut i: usize = 0;
    while i < word.len()
        invariant
            i <= word.len(),
            out@.len() == i,
            forall|j: int| 0 <= j < i ==> out@[j] == upper(word@[j]),
        decreases word.len() - i,
    {
        let b: u8 = word[i];
        if 97 <= b && b <= 122 {
            out.push(b - 32);
        } else {
            out.push(b);
        }
        i = i + 1;
    }
    assert(out@ =~= upper_all(word@));
    out
}

/// Whether two byte strings are the same.
pub fn same_bytes(a: &[u8], b: &[u8]) -> (r: bool)
    ensures
        r == (a@ == b@),
{
    if a.len() != b.len() {
        return false;
    }
    let mut i: usize = 0;
    while i < a.len()
        invariant
            i <= a.len(),
            a.len() == b.len(),
            forall|j: int| 0 <= j < i ==> a@[j] == b@[j],
        decreases a.len() - i,
    {
        if a[i] != b[i] {
            return false;
        }
        i = i + 1;
    }
    assert(a@ =~= b@);
    true
}

/// The bytes of a bulk frame.
fn bulk_bytes(frame: &Frame) -> (r: Option<&Vec<u8>>)
    ensures
        match r {
            Some(data) => bulk_of(frame@) == Some(data@),
            None => bulk_of(frame@) is None,
        },
{
    match frame {
        Frame::Bulk(data) => Some(data),
        _ => None,
    }
}

/// Reads the options of a `SET` from index `start` on.
fn read_set_options(frames: &Vec<Frame>, start: usize) -> (r: Result<Option<u64>, ParseError>)
    requires
        start <= frames.len(),
    ensures
        match set_options(crate::frame::views(frames@), start as int, None) {
            Some(ttl) => r matches Ok(got) && got == ttl,
            None => r matches Err(e) && e.failure() == Failure::InvalidFormat,
        },
{
    let ghost items = crate::frame::views(frames@);
    proof {
        lemma_models_of(frames@, frames@.len());
    }
    let mut ttl: Option<u64> = None;
    let mut i: usize = start;
    while i < frames.len()
        invariant
            start <= i <= frames.len(),
            items == crate::frame::views(frames@),
            items.len() == frames@.len(),
            forall|j: int| 0 <= j < frames@.len() ==> (#[trigger] items[j]) == frames@[j]@,
            set_options(items, start as int, None) == set_options(items, i as int, ttl),
        decreases frames.len() - i,
    {
        let option = match bulk_bytes(&frames[i]) {
            Some(option) => option,
            None => {
                return Err(ParseError::InvalidFormat("option must be bulk string".to_string()));
            },
        };
        let name = to_upper(option.as_slice());
        let ex: Vec<u8> = vec![69u8, 88u8];
        assert(ex@ =~= ex_name());
        if !same_bytes(name.as_slice(), ex.as_slice()) {
            let text = text_of(name.as_slice());
            let msg = "unknown option '".to_string().concat(text.as_str()).concat("'");
            return Err(ParseError::InvalidFormat(msg));
        }
        if i + 1 >= frames.len() {
            return Err(ParseError::InvalidFormat("EX requires a value".to_string()));
        }
        let seconds = match bulk_bytes(&frames[i + 1]) {
            Some(seconds) => seconds,
            None => {
                return Err(
                    ParseError::InvalidFormat("EX value must be a bulk string".to_string()),
                );
            },
        };
        match parse_u64(seconds.as_slice()) {
            Some(v) => {
                ttl = Some(v);
            },
            None => {
                return Err(ParseError::InvalidFormat("EX value must be an integer".to_string()));
            },
        }
        i = i + 2;
    }
    Ok(ttl)
}

/// Reads a frame as a request. The name is matched without regard to ASCII
/// case and the number of arguments is strict; all arguments are kept as
/// bytes.
pub fn parse_request(frame: Frame) -> (r: Result<Request, ParseError>)
    ensures
        answers_request(r, request_of(frame@)),
{
    let frames = match frame {
        Frame::Array(frames) => frames,
        _ => {
            return Err(ParseError::InvalidFormat("command must be an array".to_string()));
        },
    };
    let ghost items = crate::frame::views(frames@);
    proof {
        lemma_models_of(frames@, frames@.len());
        assert(frame@ == FrameModel::Array(items));
    }
    if frames.len() == 0 {
        return Err(ParseError::InvalidFormat("empty command array".to_string()));
    }
    let word = match bulk_bytes(&frames[0]) {
        Some(word) => word,
        None => {
            return Err(ParseError::InvalidFormat("command must be bulk string".to_string()));
        },
    };
    let name = to_upper(word.as_slice());
    let n: usize = frames.len();
    let ping: Vec<u8> = vec![80u8, 73u8, 78u8, 71u8];
    let save: Vec<u8> = vec![83u8, 65u8, 86u8, 69u8];
    let get: Vec<u8> = vec![71u8, 69u8, 84u8];
    let del: Vec<u8> = vec![68u8, 69u8, 76u8];
    let subscribe: Vec<u8> = vec![83u8, 85u8, 66u8, 83u8, 67u8, 82u8, 73u8, 66u8, 69u8];
    let publish: Vec<u8> = vec![80u8, 85u8, 66u8, 76u8, 73u8, 83u8, 72u8];
    let set: Vec<u8> = vec![83u8, 69u8, 84u8];
    proof {
        assert(ping@ =~= ping_name());
        assert(save@ =~= save_name());
        assert(get@ =~= get_name());
        assert(del@ =~= del_name());
        assert(subscribe@ =~= subscribe_name());
        assert(publish@ =~= publish_name());
        assert(set@ =~= set_name());
    }
    if same_bytes(name.as_slice(), ping.as_slice()) {
        if n != 1 {
            return Err(ParseError::InvalidFormat("PING takes no argument".to_string()));
        }
        Ok(Request::Ping)
    } else if same_bytes(name.as_slice(), save.as_slice()) {
        if n != 1 {
            return Err(ParseError::InvalidFormat("SAVE takes no argument".to_string()));
        }
        Ok(Request::Save)
    } else if same_bytes(name.as_slice(), get.as_slice()) {
        if n != 2 {
            return Err(ParseError::InvalidFormat("GET requires exactly 1 argument".to_string()));
        }
        match bulk_bytes(&frames[1]) {
            Some(key) => Ok(Request::Get { key: slice_to_vec(key.as_slice()) }),
            None => Err(ParseError::InvalidFormat("key must be bulk string".to_string())),
        }
    } else if same_bytes(name.as_slice(), del.as_slice()) {
        if n != 2 {
            return Err(ParseError::InvalidFormat("DEL requires exactly 1 argument".to_string()));
        }
        match bulk_bytes(&frames[1]) {
            Some(key) => Ok(Request::Del { key: slice_to_vec(key.as_slice()) }),
            None => Err(ParseError::InvalidFormat("key must be bulk string".to_string())),
        }
    } else if same_bytes(name.as_slice(), subscribe.as_slice()) {
        if n != 2 {
            return Err(
                ParseError::InvalidFormat("SUBSCRIBE requires exactly 1 argument".to_string()),
            );
        }
        match bulk_bytes(&frames[1]) {
            Some(channel) => Ok(Request::Subscribe { channel: slice_to_vec(channel.as_slice()) }),
            None => Err(ParseError::InvalidFormat("channel must be bulk string".to_string())),
        }
    } else if same_bytes(name.as_slice(), publish.as_slice()) {
        if n != 3 {
            return Err(
                ParseError::InvalidFormat("PUBLISH requires exactly 2 arguments".to_string()),
            );
        }
        let channel = match bulk_bytes(&frames[1]) {
            Some(channel) => slice_to_vec(channel.as_slice()),
            None => {
                return Err(ParseError::InvalidFormat("channel must be bulk string".to_string()));
            },
        };
        match bulk_bytes(&frames[2]) {
            Some(message) => Ok(
                Request::Publish { channel, message: slice_to_vec(message.as_slice()) },
            ),
            None => Err(ParseError::InvalidFormat("message must be bulk string".to_string())),
        }
    } else if same_bytes(name.as_slice(), set.as_slice()) {
        if n < 3 {
            return Err(ParseError::InvalidFormat("SET requires at least 2 arguments".to_string()));
        }
        let key = match bulk_bytes(&frames[1]) {
            Some(key) => slice_to_vec(key.as_slice()),
            None => {
                return Err(ParseError::InvalidFormat("key must be bulk string".to_string()));
            },
        };
        let value = match bulk_bytes(&frames[2]) {
            Some(value) => slice_to_vec(value.as_slice()),
            None => {
                return Err(ParseError::InvalidFormat("value must be bulk string".to_string()));
            },
        };
        match read_set_options(&frames, 3) {
            Ok(expiry_seconds) => Ok(Request::SetValue { key, value, expiry_seconds }),
            Err(e) => Err(e),
        }
    } else {
        let text = text_of(name.as_slice());
        let msg = "unknown command '".to_string().concat(text.as_str()).concat("'");
        Err(ParseError::InvalidCommand(msg))
    }
}

/// Reads the key or channel of a request as lossy UTF-8.
pub fn decode_request(request: Request) -> (c: Command)
    ensures
        c@ == decoded(request@),
{
    match request {
        Request::Get { key } => Command::Get { key: text_of(key.as_slice()) },
        Request::SetValue { key, value, expiry_seconds } => Command::SetValue {
            key: text_of(key.as_slice()),
            value,
            expiry_seconds,
        },
        Request::Del { key } => Command::Del { key: text_of(key.as_slice()) },
        Request::Ping => Command::Ping,
        Request::Subscribe { channel } => Command::Subscribe {
            channel: text_of(channel.as_slice()),
        },
        Request::Publish { channel, message } => Command::Publish {
            channel: text_of(channel.as_slice()),
            message,
        },
        Request::Save => Command::Save,
    }
}

/// Reads a frame as a command. The name is matched without regard to ASCII
/// case and the number of arguments is strict; keys and channels are read as
/// lossy UTF-8, values and messages are kept as bytes.
pub fn from_frame(frame: Frame) -> (r: Result<Command, ParseError>)
    ensures
        answers(r, command_of(frame@)),
{
    match parse_request(frame) {
        Ok(request) => Ok(decode_request(request)),
        Err(error) => Err(error),
    }
}

} // verus!
