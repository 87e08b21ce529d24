//! RESP frames and their wire encoding.

use vstd::prelude::*;
use vstd::utf8::*;
use vstd::slice::{slice_subrange, slice_to_vec};
use crate::decimal::{decimal, i64_value, parse_i64, push_decimal, push_digits};

verus! {

/// The type byte of a simple frame, `+`.
pub const SIMPLE: u8 = 43;

/// The type byte of an error frame, `-`.
pub const ERROR: u8 = 45;

/// The type byte of an integer frame, `:`.
pub const INTEGER: u8 = 58;

/// The type byte of a bulk frame, `$`.
pub const BULK: u8 = 36;

/// The type byte of an array frame, `*`.
pub const ARRAY: u8 = 42;

/// Carriage return.
pub const CR: u8 = 13;

/// Line feed.
pub const LF: u8 = 10;

/// One unit of the wire protocol.
#[derive(Debug, PartialEq, Eq)]
pub enum Frame {
    Simple(String),
    Error(String),
    Integer(i64),
    Bulk(Vec<u8>),
    Null,
    Array(Vec<Frame>),
}

/// The mathematical value of a frame.
pub ghost enum FrameModel {
    Simple(Seq<char>),
    Error(Seq<char>),
    Integer(i64),
    Bulk(Seq<u8>),
    Null,
    Array(Seq<FrameModel>),
}

impl View for Frame {
    type V = FrameModel;

    open spec fn view(&self) -> FrameModel {
        model_of(*self)
    }
}

/// The value of a frame.
pub open spec fn model_of(f: Frame) -> FrameModel
    decreases f, 0nat,
{
    match f {
        Frame::Simple(s) => FrameModel::Simple(s@),
        Frame::Error(s) => FrameModel::Error(s@),
        Frame::Integer(v) => FrameModel::Integer(v),
        Frame::Bulk(b) => FrameModel::Bulk(b@),
        Frame::Null => FrameModel::Null,
        Frame::Array(items) => FrameModel::Array(models_of(items@, items@.len())),
    }
}

/// The values of the first `n` frames of `items`.
pub open spec fn models_of(items: Seq<Frame>, n: nat) -> Seq<FrameModel>
    decreases items, n,
{
    if n == 0 || n > items.len() {
        Seq::empty()
    } else {
        models_of(items, (n - 1) as nat).push(model_of(items[n - 1]))
    }
}

/// The values of a run of frames.
pub open spec fn views(items: Seq<Frame>) -> Seq<FrameModel> {
    models_of(items, items.len())
}

/// The values of a run of frames are the values of its frames, in order.
pub proof fn lemma_models_of(items: Seq<Frame>, n: nat)
    requires
        n <= items.len(),
    ensures
        models_of(items, n).len() == n,
        forall|i: int| 0 <= i < n ==> (#[trigger] models_of(items, n)[i]) == items[i]@,
    decreases n,
{
    if n > 0 {
        lemma_models_of(items, (n - 1) as nat);
    }
}

/// Adding a frame to a run adds its value to the run's values.
pub proof fn lemma_views_push(items: Seq<Frame>, f: Frame)
    ensures
        views(items.push(f)) == views(items).push(f@),
{
    lemma_models_of(items, items.len());
    lemma_models_of(items.push(f), items.len() + 1);
    assert(views(items.push(f)) =~= views(items).push(f@));
}

/// Whether `s` holds neither a carriage return nor a line feed.
pub open spec fn no_line_break(s: Seq<u8>) -> bool {
    forall|i: int| 0 <= i < s.len() ==> #[trigger] s[i] != CR && s[i] != LF
}

/// Whether a frame can stand on the wire: the text of a simple or error frame
/// holds no line break, and lengths fit the length field.
pub open spec fn well_formed(m: FrameModel) -> bool
    decreases m,
{
    match m {
        FrameModel::Simple(s) => no_line_break(encode_utf8(s)),
        FrameModel::Error(s) => no_line_break(encode_utf8(s)),
        FrameModel::Integer(_) => true,
        FrameModel::Bulk(data) => data.len() <= i64::MAX,
        FrameModel::Null => true,
        FrameModel::Array(items) => items.len() <= i64::MAX && forall|i: int|
            0 <= i < items.len() ==> well_formed(#[trigger] items[i]),
    }
}

/// Carriage return and line feed, the line terminator.
pub open spec fn crlf() -> Seq<u8> {
    seq![CR, LF]
}

/// The wire encoding of a frame.
pub open spec fn encode(m: FrameModel) -> Seq<u8>
    decreases m, 0nat,
{
    match m {
        FrameModel::Simple(s) => seq![SIMPLE] + encode_utf8(s) + crlf(),
        FrameModel::Error(s) => seq![ERROR] + encode_utf8(s) + crlf(),
        FrameModel::Integer(v) => seq![INTEGER] + decimal(v as int) + crlf(),
        FrameModel::Bulk(b) => seq![BULK] + decimal(b.len() as int) + crlf() + b + crlf(),
        FrameModel::Null => seq![BULK, 45u8, 49u8, CR, LF],
        FrameModel::Array(items) => seq![ARRAY] + decimal(items.len() as int) + crlf()
            + encode_items(items, items.len()),
    }
}

/// The encodings of the first `n` frames of `items`, one after the other.
pub open spec fn encode_items(items: Seq<FrameModel>, n: nat) -> Seq<u8>
    decreases items, n,
{
    if n == 0 || n > items.len() {
        Seq::empty()
    } else {
        encode_items(items, (n - 1) as nat) + encode(items[n - 1])
    }
}

/// Why a buffer is not the start of any frame.
#[derive(Debug, Clone, Copy, PartialEq, Eq)]
pub enum ProtocolError {
    /// The first byte selects no frame type.
    UnknownType,
    /// The line of an integer frame is no decimal number of 64 bits.
    InvalidInteger,
    /// The length of a bulk frame is no decimal number, or negative and not -1.
    InvalidBulkLength,
    /// The length of an array frame is no decimal number, or negative and not -1.
    InvalidArrayLength,
    /// The line of a simple or error frame is not UTF-8.
    InvalidUtf8,
}

/// What a buffer holds from some position on.
pub ghost enum Parsed {
    /// A whole frame, and the position behind it.
    Complete(FrameModel, int),
    /// The start of a frame, or nothing.
    Incomplete,
    /// Bytes that start no frame.
    Invalid(ProtocolError),
}

/// What a buffer holds where a run of frames is due.
pub ghost enum ParsedItems {
    Complete(Seq<FrameModel>, int),
    Incomplete,
    Invalid(ProtocolError),
}

/// The position of the first line terminator at or after `pos`, or -1 where
/// the buffer holds none.
pub open spec fn line_end(b: Seq<u8>, pos: int) -> int
    decreases b.len() - pos,
{
    if pos < 0 || pos + 1 >= b.len() {
        -1
    } else if b[pos] == CR && b[pos + 1] == LF {
        pos
    } else {
        line_end(b, pos + 1)
    }
}

/// The array frame that a run of frames makes.
pub open spec fn array_of(p: ParsedItems) -> Parsed {
    match p {
        ParsedItems::Complete(items, end) => Parsed::Complete(FrameModel::Array(items), end),
        ParsedItems::Incomplete => Parsed::Incomplete,
        ParsedItems::Invalid(err) => Parsed::Invalid(err),
    }
}

/// A line terminator that is found lies at or after the start, within the buffer.
pub proof fn lemma_line_end_bounds(b: Seq<u8>, pos: int)
    ensures
        line_end(b, pos) == -1 || (0 <= pos <= line_end(b, pos) && line_end(b, pos) + 2 <= b.len()),
        line_end(b, pos) >= 0 ==> b[line_end(b, pos)] == CR && b[line_end(b, pos) + 1] == LF,
    decreases b.len() - pos,
{
    if pos < 0 || pos + 1 >= b.len() {
    } else if b[pos] == CR && b[pos + 1] == LF {
    } else {
        lemma_line_end_bounds(b, pos + 1);
    }
}

/// Whether `tag` is one of the five type bytes.
pub open spec fn is_type_byte(tag: u8) -> bool {
    tag == SIMPLE || tag == ERROR || tag == INTEGER || tag == BULK || tag == ARRAY
}

/// The frame that stands in `b` at `pos`.
pub open spec fn parse(b: Seq<u8>, pos: int) -> Parsed
    decreases b.len() - pos, 0nat,
{
    if pos < 0 || pos >= b.len() {
        Parsed::Incomplete
    } else if !is_type_byte(b[pos]) {
        Parsed::Invalid(ProtocolError::UnknownType)
    } else {
        let tag = b[pos];
        let e = line_end(b, pos + 1);
        if e <= pos || e + 2 > b.len() {
            Parsed::Incomplete
        } else {
            let line = b.subrange(pos + 1, e);
            let next = e + 2;
            if tag == SIMPLE || tag == ERROR {
                if !valid_utf8(line) {
                    Parsed::Invalid(ProtocolError::InvalidUtf8)
                } else if tag == SIMPLE {
                    Parsed::Complete(FrameModel::Simple(decode_utf8(line)), next)
                } else {
                    Parsed::Complete(FrameModel::Error(decode_utf8(line)), next)
                }
            } else if tag == INTEGER {
                match i64_value(line) {
                    Some(v) => Parsed::Complete(FrameModel::Integer(v), next),
                    None => Parsed::Invalid(ProtocolError::InvalidInteger),
                }
            } else if tag == BULK {
                match i64_value(line) {
                    None => Parsed::Invalid(ProtocolError::InvalidBulkLength),
                    Some(n) => if n == -1 {
                        Parsed::Complete(FrameModel::Null, next)
                    } else if n < 0 {
                        Parsed::Invalid(ProtocolError::InvalidBulkLength)
                    } else if b.len() - next < n + 2 {
                        Parsed::Incomplete
                    } else {
                        Parsed::Complete(FrameModel::Bulk(b.subrange(next, next + n)), next + n + 2)
                    },
                }
            } else {
                match i64_value(line) {
                    None => Parsed::Invalid(ProtocolError::InvalidArrayLength),
                    Some(n) => if n == -1 {
                        Parsed::Complete(FrameModel::Null, next)
                    } else if n < 0 {
                        Parsed::Invalid(ProtocolError::InvalidArrayLength)
                    } else {
                        array_of(parse_items(b, next, n as nat))
                    },
                }
            }
        }
    }
}

/// The `n` frames that stand in `b` one after the other from `pos` on. The
/// first frame that is incomplete or invalid decides for the run.
pub open spec fn parse_items(b: Seq<u8>, pos: int, n: nat) -> ParsedItems
    decreases b.len() - pos, n,
{
    if n == 0 {
        ParsedItems::Complete(Seq::empty(), pos)
    } else {
        match parse_items(b, pos, (n - 1) as nat) {
            ParsedItems::Complete(items, mid) => if pos <= mid <= b.len() {
                match parse(b, mid) {
                    Parsed::Complete(m, end) => ParsedItems::Complete(items.push(m), end),
                    Parsed::Incomplete => ParsedItems::Incomplete,
                    Parsed::Invalid(err) => ParsedItems::Invalid(err),
                }
            } else {
                ParsedItems::Incomplete
            },
            failed => failed,
        }
    }
}

/// Whether the result of the parser says what `p` says.
pub open spec fn agrees(r: Result<Option<(Frame, usize)>, ProtocolError>, p: Parsed) -> bool {
    match p {
        Parsed::Complete(m, end) => r matches Ok(Some((f, e))) && f@ == m && e == end,
        Parsed::Incomplete => r matches Ok(None),
        Parsed::Invalid(err) => r matches Err(x) && x == err,
    }
}

/// A run that fails at some length fails the same way at every greater length.
pub proof fn lemma_items_failure_stays(b: Seq<u8>, pos: int, k: nat, n: nat)
    requires
        k <= n,
        !(parse_items(b, pos, k) is Complete),
    ensures
        parse_items(b, pos, n) == parse_items(b, pos, k),
    decreases n,
{
    if k < n {
        lemma_items_failure_stays(b, pos, k, (n - 1) as nat);
    }
}

/// `String::from_utf8` of std: it accepts exactly the byte strings that are
/// UTF-8, and the string it returns is made of the bytes it was given.
#[verifier::external_body]
fn string_from_utf8(bytes: Vec<u8>) -> (r: Option<String>)
    ensures
        r is Some <==> valid_utf8(bytes@),
        r matches Some(s) ==> encode_utf8(s@) == bytes@,
{
    String::from_utf8(bytes).ok()
}

/// Finds the first line terminator at or after `start`.
pub fn find_line_end(buf: &[u8], start: usize) -> (r: Option<usize>)
    ensures
        match r {
            Some(i) => line_end(buf@, start as int) == i && start <= i && i + 2 <= buf.len(),
            None => line_end(buf@, start as int) < 0,
        },
{
    if buf.len() < 2 || start > buf.len() - 2 {
        return None;
    }
    let mut i: usize = start;
    while i <= buf.len() - 2
        invariant
            buf.len() >= 2,
            start <= i <= buf.len() - 1,
            line_end(buf@, start as int) == line_end(buf@, i as int),
        decreases buf.len() - i,
    {
        if buf[i] == CR && buf[i + 1] == LF {
            return Some(i);
        }
        i = i + 1;
    }
    None
}

/// Reads the line that starts at `start` as text. Gives the text and the
/// position behind the line's terminator, `None` while the terminator has
/// not arrived, and an error where the line is not UTF-8.
pub fn read_line(buf: &[u8], start: usize) -> (r: Result<Option<(String, usize)>, ProtocolError>)
    ensures
        ({
            let e = line_end(buf@, start as int);
            if e < 0 {
                r matches Ok(None)
            } else if valid_utf8(buf@.subrange(start as int, e)) {
                r matches Ok(Some((s, next))) && s@ == decode_utf8(buf@.subrange(start as int, e))
                    && next == e + 2 && start + 2 <= next <= buf.len()
            } else {
                r matches Err(ProtocolError::InvalidUtf8)
            }
        }),
{
    match find_line_end(buf, start) {
        None => Ok(None),
        Some(e) => {
            let line = slice_to_vec(slice_subrange(buf, start, e));
            match string_from_utf8(line) {
                Some(s) => {
                    proof {
                        encode_utf8_decode_utf8(s@);
                    }
                    Ok(Some((s, e + 2)))
                },
                None => Err(ProtocolError::InvalidUtf8),
            }
        },
    }
}

/// Parses the frame that stands in `buf` at `pos`, without changing the
/// buffer: the frame with the position behind it, `None` while the frame is
/// incomplete, or the reason why no frame starts there.
pub fn parse_at(buf: &[u8], pos: usize) -> (r: Result<Option<(Frame, usize)>, ProtocolError>)
    ensures
        agrees(r, parse(buf@, pos as int)),
        r matches Ok(Some((_, e))) ==> pos < e <= buf.len(),
    decreases buf.len() - pos,
{
    if pos >= buf.len() {
        return Ok(None);
    }
    let tag: u8 = buf[pos];
    if tag != SIMPLE && tag != ERROR && tag != INTEGER && tag != BULK && tag != ARRAY {
        return Err(ProtocolError::UnknownType);
    }
    proof {
        lemma_line_end_bounds(buf@, pos + 1);
    }
    if tag == SIMPLE || tag == ERROR {
        return match read_line(buf, pos + 1) {
            Err(err) => Err(err),
            Ok(None) => Ok(None),
            Ok(Some((s, next))) => if tag == SIMPLE {
                Ok(Some((Frame::Simple(s), next)))
            } else {
                Ok(Some((Frame::Error(s), next)))
            },
        };
    }
    let e: usize = match find_line_end(buf, pos + 1) {
        Some(e) => e,
        None => {
            return Ok(None);
        },
    };
    let next: usize = e + 2;
    let n: i64 = match parse_i64(slice_subrange(buf, pos + 1, e)) {
        Some(n) => n,
        None => {
            return Err(
                if tag == INTEGER {
                    ProtocolError::InvalidInteger
                } else if tag == BULK {
                    ProtocolError::InvalidBulkLength
                } else {
                    ProtocolError::InvalidArrayLength
                },
            );
        },
    };
    if tag == INTEGER {
        return Ok(Some((Frame::Integer(n), next)));
    }
    if n == -1 {
        return Ok(Some((Frame::Null, next)));
    }
    if n < 0 {
        return Err(
            if tag == BULK {
                ProtocolError::InvalidBulkLength
            } else {
                ProtocolError::InvalidArrayLength
            },
        );
    }
    let count: u64 = n as u64;
    if tag == BULK {
        let remaining: u64 = (buf.len() - next) as u64;
        if remaining < count + 2 {
            return Ok(None);
        }
        let len: usize = count as usize;
        let data = slice_to_vec(slice_subrange(buf, next, next + len));
        return Ok(Some((Frame::Bulk(data), next + len + 2)));
    }
    let mut items: Vec<Frame> = Vec::new();
    let mut cur: usize = next;
    let mut i: u64 = 0;
    assert(views(items@) =~= Seq::<FrameModel>::empty());
    while i < count
        invariant
            pos < next <= cur <= buf.len(),
            i <= count,
            parse(buf@, pos as int) == array_of(parse_items(buf@, next as int, count as nat)),
            parse_items(buf@, next as int, i as nat) == ParsedItems::Complete(
                views(items@),
                cur as int,
            ),
        decreases count - i,
    {
        let ghost before = views(items@);
        match parse_at(buf, cur) {
            Err(err) => {
                proof {
                    lemma_items_failure_stays(buf@, next as int, (i + 1) as nat, count as nat);
                }
                return Err(err);
            },
            Ok(None) => {
                proof {
                    lemma_items_failure_stays(buf@, next as int, (i + 1) as nat, count as nat);
                }
                return Ok(None);
            },
            Ok(Some((f, end))) => {
                proof {
                    lemma_views_push(items@, f);
                }
                items.push(f);
                cur = end;
            },
        }
        i = i + 1;
    }
    let frame = Frame::Array(items);
    Ok(Some((frame, cur)))
}

/// Whether `bytes` holds neither a carriage return nor a line feed.
pub fn has_no_line_break(bytes: &[u8]) -> (r: bool)
    ensures
        r == no_line_break(bytes@),
{
    let mut i: usize = 0;
    while i < bytes.len()
        invariant
            i <= bytes.len(),
            forall|j: int| 0 <= j < i ==> #[trigger] bytes@[j] != CR && bytes@[j] != LF,
        decreases bytes.len() - i,
    {
        if bytes[i] == CR || bytes[i] == LF {
            return false;
        }
        i = i + 1;
    }
    true
}

/// Whether `frame` can stand on the wire and be read back as itself.
pub fn is_well_formed(frame: &Frame) -> (r: bool)
    ensures
        r == well_formed(frame@),
    decreases frame,
{
    match frame {
        Frame::Simple(s) => has_no_line_break(s.as_str().as_bytes()),
        Frame::Error(s) => has_no_line_break(s.as_str().as_bytes()),
        Frame::Integer(_) => true,
        Frame::Bulk(data) => data.len() as u64 <= 9223372036854775807u64,
        Frame::Null => true,
        Frame::Array(items) => {
            let ghost models = frame@->Array_0;
            proof {
                lemma_models_of(items@, items@.len());
            }
            if items.len() as u64 > 9223372036854775807u64 {
                return false;
            }
            let mut i: usize = 0;
            while i < items.len()
                invariant
                    i <= items.len(),
                    *frame == Frame::Array(*items),
                    models == frame@->Array_0,
                    models.len() == items@.len(),
                    forall|j: int| 0 <= j < items@.len() ==> (#[trigger] models[j]) == items@[j]@,
                    forall|j: int| 0 <= j < i ==> well_formed(#[trigger] models[j]),
                decreases items.len() - i,
            {
                proof {
                    assert(frame is Array);
                    assert(decreases_to!(frame => frame->Array_0));
                    assert(decreases_to!(frame->Array_0 => items[i as int]));
                }
                if !is_well_formed(&items[i]) {
                    assert(!well_formed(models[i as int]));
                    return false;
                }
                i = i + 1;
            }
            true
        },
    }
}

/// A copy of `frame`.
pub fn copy_frame(frame: &Frame) -> (c: Frame)
    ensures
        c@ == frame@,
    decreases frame,
{
    match frame {
        Frame::Simple(s) => Frame::Simple(s.clone()),
        Frame::Error(s) => Frame::Error(s.clone()),
        Frame::Integer(v) => Frame::Integer(*v),
        Frame::Bulk(data) => Frame::Bulk(slice_to_vec(data.as_slice())),
        Frame::Null => Frame::Null,
        Frame::Array(items) => {
            let mut copies: Vec<Frame> = Vec::new();
            let mut i: usize = 0;
            proof {
                lemma_models_of(items@, items@.len());
            }
            while i < items.len()
                invariant
                    i <= items.len(),
                    *frame == Frame::Array(*items),
                    copies@.len() == i,
                    forall|j: int| 0 <= j < i ==> (#[trigger] copies@[j])@ == items@[j]@,
                decreases items.len() - i,
            {
                proof {
                    assert(frame is Array);
                    assert(decreases_to!(frame => frame->Array_0));
                    assert(decreases_to!(frame->Array_0 => items[i as int]));
                }
                let copy = copy_frame(&items[i]);
                copies.push(copy);
                i = i + 1;
            }
            proof {
                lemma_models_of(items@, items@.len());
                lemma_models_of(copies@, copies@.len());
                assert(views(copies@) =~= views(items@));
            }
            Frame::Array(copies)
        },
    }
}

impl Clone for Frame {
    fn clone(&self) -> (c: Frame)
        ensures
            c@ == self@,
    {
        copy_frame(self)
    }
}

/// Appends the wire encoding of `frame` to `out`.
pub fn encode_into(frame: &Frame, out: &mut Vec<u8>)
    ensures
        final(out)@ == old(out)@ + encode(frame@),
    decreases frame,
{
    match frame {
        Frame::Simple(s) => {
            out.push(SIMPLE);
            out.extend_from_slice(s.as_str().as_bytes());
            out.push(CR);
            out.push(LF);
            assert(final(out)@ =~= old(out)@ + encode(frame@));
        },
        Frame::Error(s) => {
            out.push(ERROR);
            out.extend_from_slice(s.as_str().as_bytes());
            out.push(CR);
            out.push(LF);
            assert(final(out)@ =~= old(out)@ + encode(frame@));
        },
        Frame::Integer(v) => {
            out.push(INTEGER);
            push_decimal(*v, out);
            out.push(CR);
            out.push(LF);
            assert(final(out)@ =~= old(out)@ + encode(frame@));
        },
        Frame::Bulk(data) => {
            out.push(BULK);
            push_digits(data.len() as u64, out);
            out.push(CR);
            out.push(LF);
            out.extend_from_slice(data.as_slice());
            out.push(CR);
            out.push(LF);
            assert(final(out)@ =~= old(out)@ + encode(frame@));
        },
        Frame::Null => {
            out.push(BULK);
            out.push(45);
            out.push(49);
            out.push(CR);
            out.push(LF);
            assert(final(out)@ =~= old(out)@ + encode(frame@));
        },
        Frame::Array(items) => {
            out.push(ARRAY);
            push_digits(items.len() as u64, out);
            out.push(CR);
            out.push(LF);
            let ghost head = out@;
            let ghost models = frame@->Array_0;
            proof {
                lemma_models_of(items@, items@.len());
            }
            let mut i: usize = 0;
            assert(head + encode_items(models, 0) =~= head);
            while i < items.len()
                invariant
                    i <= items.len(),
                    models == views(items@),
                    *frame == Frame::Array(*items),
                    out@ == head + encode_items(models, i as nat),
                decreases items.len() - i,
            {
                proof {
                    lemma_models_of(items@, items@.len());
                    assert(frame is Array);
                    assert(decreases_to!(frame => frame->Array_0));
                    assert(decreases_to!(frame->Array_0 => items[i as int]));
                }
                encode_into(&items[i], out);
                i = i + 1;
                assert(out@ =~= head + encode_items(models, i as nat));
            }
            assert(final(out)@ =~= old(out)@ + encode(frame@));
        },
    }
}

} // verus!
