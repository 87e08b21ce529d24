//! What holds between the encoder and the parser of frames.

use vstd::prelude::*;
use vstd::utf8::{encode_utf8, encode_utf8_decode_utf8, encode_utf8_valid_utf8};
use crate::decimal::{all_digits, decimal, digits_value, i64_value, is_digit, lemma_decimal_round_trip, signed_value};
use crate::frame::{
    crlf, encode, encode_items, lemma_line_end_bounds, line_end, parse, parse_items, well_formed,
    FrameModel, Parsed, ParsedItems,
};

verus! {

/// A whole frame ends behind where it starts and within the buffer: the
/// parser consumes at least one byte and never more than there is.
pub proof fn lemma_parse_advances(b: Seq<u8>, pos: int)
    ensures
        parse(b, pos) matches Parsed::Complete(_, end) ==> 0 <= pos < end <= b.len(),
    decreases b.len() - pos, 0nat,
{
    if 0 <= pos < b.len() {
        lemma_line_end_bounds(b, pos + 1);
        let e = line_end(b, pos + 1);
        if b[pos] == 42 && pos < e && e + 2 <= b.len() {
            match i64_value(b.subrange(pos + 1, e)) {
                Some(n) => {
                    if n >= 0 {
                        lemma_items_advance(b, e + 2, n as nat);
                    }
                },
                None => {},
            }
        }
    }
}

/// A whole run of frames ends at or behind where it starts and within the
/// buffer, where it starts within the buffer.
pub proof fn lemma_items_advance(b: Seq<u8>, pos: int, n: nat)
    requires
        0 <= pos <= b.len(),
    ensures
        parse_items(b, pos, n) matches ParsedItems::Complete(_, end) ==> pos <= end <= b.len(),
    decreases b.len() - pos, n + 1,
{
    if n > 0 {
        lemma_items_advance(b, pos, (n - 1) as nat);
        match parse_items(b, pos, (n - 1) as nat) {
            ParsedItems::Complete(_, mid) => {
                lemma_parse_advances(b, mid);
            },
            _ => {},
        }
    }
}

/// A line terminator at `e` with no carriage return before it is the first one.
proof fn lemma_line_end_found(b: Seq<u8>, start: int, e: int)
    requires
        0 <= start <= e,
        e + 1 < b.len(),
        forall|i: int| start <= i < e ==> #[trigger] b[i] != 13,
        b[e] == 13,
        b[e + 1] == 10,
    ensures
        line_end(b, start) == e,
    decreases e - start,
{
    if start < e {
        assert(b[start] != 13);
        lemma_line_end_found(b, start + 1, e);
    }
}

/// A buffer with no carriage return before its last byte holds no line terminator.
proof fn lemma_line_end_absent(b: Seq<u8>, start: int)
    requires
        0 <= start,
        forall|i: int| start <= i < b.len() - 1 ==> #[trigger] b[i] != 13,
    ensures
        line_end(b, start) == -1,
    decreases b.len() - start,
{
    if start + 1 < b.len() {
        assert(b[start] != 13);
        lemma_line_end_absent(b, start + 1);
    }
}

/// The bytes of a header line followed by `tail`.
pub open spec fn with_header(tag: u8, line: Seq<u8>, tail: Seq<u8>) -> Seq<u8> {
    seq![tag] + line + crlf() + tail
}

/// A buffer that holds a whole header line, and `k` bytes in all of the
/// message: the line is found, and what follows is the start of the tail.
proof fn lemma_header_kept(b: Seq<u8>, pos: int, tag: u8, line: Seq<u8>, tail: Seq<u8>, k: int)
    requires
        0 <= pos,
        forall|i: int| 0 <= i < line.len() ==> #[trigger] line[i] != 13,
        line.len() + 3 <= k <= with_header(tag, line, tail).len(),
        pos + k <= b.len(),
        b.subrange(pos, pos + k) == with_header(tag, line, tail).take(k),
    ensures
        b[pos] == tag,
        line_end(b, pos + 1) == pos + 1 + line.len(),
        b.subrange(pos + 1, pos + 1 + line.len()) == line,
        b.subrange(pos + line.len() + 3, pos + k) == tail.take(k - line.len() - 3),
{
    let enc = with_header(tag, line, tail);
    let w = b.subrange(pos, pos + k);
    assert forall|i: int| 0 <= i < k implies b[pos + i] == enc[i] by {
        assert(w[i] == b[pos + i]);
        assert(enc.take(k)[i] == enc[i]);
    }
    assert(enc[0] == tag);
    assert(b[pos + 0] == enc[0]);
    let e = pos + 1 + line.len();
    assert forall|i: int| pos + 1 <= i < e implies #[trigger] b[i] != 13 by {
        assert(b[pos + (i - pos)] == enc[i - pos]);
        assert(enc[i - pos] == line[i - pos - 1]);
    }
    assert(b[pos + (1 + line.len())] == enc[line.len() + 1int]);
    assert(b[pos + (2 + line.len())] == enc[line.len() + 2int]);
    assert(enc[line.len() + 1int] == 13);
    assert(enc[line.len() + 2int] == 10);
    lemma_line_end_found(b, pos + 1, e);
    assert(b.subrange(pos + 1, e) =~= line) by {
        assert forall|i: int| 0 <= i < line.len() implies b.subrange(pos + 1, e)[i] == line[i] by {
            assert(b[pos + (i + 1)] == enc[i + 1]);
        }
    }
    assert(b.subrange(pos + line.len() + 3, pos + k) =~= tail.take(k - line.len() - 3)) by {
        assert forall|i: int| 0 <= i < k - line.len() - 3 implies b.subrange(
            pos + line.len() + 3,
            pos + k,
        )[i] == tail[i] by {
            assert(b[pos + (i + line.len() + 3)] == enc[i + line.len() + 3]);
        }
    }
}

/// A buffer that ends within a header line holds no line terminator.
proof fn lemma_header_cut(b: Seq<u8>, pos: int, tag: u8, line: Seq<u8>, tail: Seq<u8>, k: int)
    requires
        0 <= pos,
        forall|i: int| 0 <= i < line.len() ==> #[trigger] line[i] != 13,
        1 <= k < line.len() + 3,
        b.len() == pos + k,
        b.subrange(pos, pos + k) == with_header(tag, line, tail).take(k),
    ensures
        b[pos] == tag,
        line_end(b, pos + 1) == -1,
{
    let enc = with_header(tag, line, tail);
    let w = b.subrange(pos, pos + k);
    assert forall|i: int| 0 <= i < k implies b[pos + i] == enc[i] by {
        assert(w[i] == b[pos + i]);
        assert(enc.take(k)[i] == enc[i]);
    }
    assert(enc[0] == tag);
    assert(b[pos + 0] == enc[0]);
    assert forall|i: int| pos + 1 <= i < b.len() - 1 implies #[trigger] b[i] != 13 by {
        assert(b[pos + (i - pos)] == enc[i - pos]);
        assert(enc[i - pos] == line[i - pos - 1]);
    }
    lemma_line_end_absent(b, pos + 1);
}

/// The decimal text of a number of 64 bits reads back as that number and
/// holds no carriage return.
proof fn lemma_decimal_line(v: int)
    requires
        i64::MIN <= v <= i64::MAX,
    ensures
        i64_value(decimal(v)) == Some(v as i64),
        forall|i: int| 0 <= i < decimal(v).len() ==> #[trigger] decimal(v)[i] != 13,
{
    lemma_decimal_round_trip(v);
}

/// The text `-1` reads as the number -1.
proof fn lemma_minus_one()
    ensures
        i64_value(seq![45u8, 49u8]) == Some(-1i64),
{
    let s = seq![45u8, 49u8];
    let body = s.skip(1);
    assert(body =~= seq![49u8]);
    assert(body.drop_last() =~= Seq::<u8>::empty());
    assert(digits_value(body.drop_last()) == 0);
    assert(body.last() == 49);
    assert(digits_value(body) == 1);
    assert(is_digit(body[0]));
    assert(all_digits(body));
    assert(signed_value(s) == Some(-1int));
}

/// A buffer that holds the encoding of a well-formed frame at `pos` holds
/// that frame there, whatever follows.
pub proof fn lemma_parse_encoded(b: Seq<u8>, pos: int, m: FrameModel)
    requires
        well_formed(m),
        0 <= pos,
        pos + encode(m).len() <= b.len(),
        b.subrange(pos, pos + encode(m).len()) == encode(m),
    ensures
        parse(b, pos) == Parsed::Complete(m, pos + encode(m).len()),
    decreases m, 0nat,
{
    let enc = encode(m);
    let empty = Seq::<u8>::empty();
    match m {
        FrameModel::Simple(s) => {
            let line = encode_utf8(s);
            assert(enc =~= with_header(43, line, empty));
            assert(enc.take(enc.len() as int) =~= enc);
            lemma_header_kept(b, pos, 43, line, empty, enc.len() as int);
            encode_utf8_valid_utf8(s);
            encode_utf8_decode_utf8(s);
        },
        FrameModel::Error(s) => {
            let line = encode_utf8(s);
            assert(enc =~= with_header(45, line, empty));
            assert(enc.take(enc.len() as int) =~= enc);
            lemma_header_kept(b, pos, 45, line, empty, enc.len() as int);
            encode_utf8_valid_utf8(s);
            encode_utf8_decode_utf8(s);
        },
        FrameModel::Integer(v) => {
            let line = decimal(v as int);
            lemma_decimal_line(v as int);
            assert(enc =~= with_header(58, line, empty));
            assert(enc.take(enc.len() as int) =~= enc);
            lemma_header_kept(b, pos, 58, line, empty, enc.len() as int);
        },
        FrameModel::Bulk(data) => {
            let line = decimal(data.len() as int);
            lemma_decimal_line(data.len() as int);
            let tail = data + crlf();
            assert(enc =~= with_header(36, line, tail));
            assert(enc.take(enc.len() as int) =~= enc);
            lemma_header_kept(b, pos, 36, line, tail, enc.len() as int);
            let next = pos + line.len() + 3;
            assert(tail.take(tail.len() as int) =~= tail);
            assert(b.subrange(next, next + data.len()) =~= data) by {
                assert forall|i: int| 0 <= i < data.len() implies b.subrange(
                    next,
                    next + data.len(),
                )[i] == data[i] by {
                    assert(b.subrange(next, pos + enc.len())[i] == tail[i]);
                }
            }
        },
        FrameModel::Null => {
            let line = seq![45u8, 49u8];
            lemma_minus_one();
            assert(enc =~= with_header(36, line, empty));
            assert(enc.take(enc.len() as int) =~= enc);
            lemma_header_kept(b, pos, 36, line, empty, enc.len() as int);
        },
        FrameModel::Array(items) => {
            let line = decimal(items.len() as int);
            lemma_decimal_line(items.len() as int);
            let tail = encode_items(items, items.len());
            assert(enc =~= with_header(42, line, tail));
            assert(enc.take(enc.len() as int) =~= enc);
            lemma_header_kept(b, pos, 42, line, tail, enc.len() as int);
            let next = pos + line.len() + 3;
            assert(tail.take(tail.len() as int) =~= tail);
            lemma_parse_encoded_items(b, next, items, items.len());
            assert(items.take(items.len() as int) =~= items);
        },
    }
}

/// A buffer that holds the encodings of the first `n` frames of a run at
/// `start` holds those frames there, whatever follows.
pub proof fn lemma_parse_encoded_items(b: Seq<u8>, start: int, items: Seq<FrameModel>, n: nat)
    requires
        n <= items.len(),
        forall|i: int| 0 <= i < items.len() ==> well_formed(#[trigger] items[i]),
        0 <= start,
        start + encode_items(items, n).len() <= b.len(),
        b.subrange(start, start + encode_items(items, n).len()) == encode_items(items, n),
    ensures
        parse_items(b, start, n) == ParsedItems::Complete(
            items.take(n as int),
            start + encode_items(items, n).len(),
        ),
    decreases items, n,
{
    if n == 0 {
        assert(items.take(0) =~= Seq::<FrameModel>::empty());
    } else {
        let before = encode_items(items, (n - 1) as nat);
        let last = encode(items[n - 1]);
        let all = encode_items(items, n);
        assert(all == before + last);
        let mid = start + before.len();
        assert(b.subrange(start, mid) =~= before) by {
            assert forall|i: int| 0 <= i < before.len() implies b.subrange(start, mid)[i]
                == before[i] by {
                assert(b.subrange(start, start + all.len())[i] == all[i]);
            }
        }
        assert(b.subrange(mid, mid + last.len()) =~= last) by {
            assert forall|i: int| 0 <= i < last.len() implies b.subrange(mid, mid + last.len())[i]
                == last[i] by {
                assert(b.subrange(start, start + all.len())[i + before.len()] == all[i
                    + before.len()]);
            }
        }
        lemma_parse_encoded_items(b, start, items, (n - 1) as nat);
        lemma_parse_encoded(b, mid, items[n - 1]);
        assert(items.take(n as int) =~= items.take(n - 1).push(items[n - 1]));
    }
}

/// A buffer that ends within the encoding of a well-formed frame that starts
/// at `pos` is incomplete there.
pub proof fn lemma_parse_truncated(b: Seq<u8>, pos: int, m: FrameModel, k: int)
    requires
        well_formed(m),
        0 <= pos,
        0 <= k < encode(m).len(),
        b.len() == pos + k,
        b.subrange(pos, pos + k) == encode(m).take(k),
    ensures
        parse(b, pos) == Parsed::Incomplete,
    decreases m, 0nat,
{
    let enc = encode(m);
    let empty = Seq::<u8>::empty();
    if k == 0 {
    } else {
        match m {
            FrameModel::Simple(s) => {
                let line = encode_utf8(s);
                assert(enc =~= with_header(43, line, empty));
                lemma_header_cut(b, pos, 43, line, empty, k);
            },
            FrameModel::Error(s) => {
                let line = encode_utf8(s);
                assert(enc =~= with_header(45, line, empty));
                lemma_header_cut(b, pos, 45, line, empty, k);
            },
            FrameModel::Integer(v) => {
                let line = decimal(v as int);
                lemma_decimal_line(v as int);
                assert(enc =~= with_header(58, line, empty));
                lemma_header_cut(b, pos, 58, line, empty, k);
            },
            FrameModel::Bulk(data) => {
                let line = decimal(data.len() as int);
                lemma_decimal_line(data.len() as int);
                let tail = data + crlf();
                assert(enc =~= with_header(36, line, tail));
                if k < line.len() + 3 {
                    lemma_header_cut(b, pos, 36, line, tail, k);
                } else {
                    lemma_header_kept(b, pos, 36, line, tail, k);
                }
            },
            FrameModel::Null => {
                let line = seq![45u8, 49u8];
                assert(enc =~= with_header(36, line, empty));
                lemma_header_cut(b, pos, 36, line, empty, k);
            },
            FrameModel::Array(items) => {
                let line = decimal(items.len() as int);
                lemma_decimal_line(items.len() as int);
                let tail = encode_items(items, items.len());
                assert(enc =~= with_header(42, line, tail));
                if k < line.len() + 3 {
                    lemma_header_cut(b, pos, 42, line, tail, k);
                } else {
                    lemma_header_kept(b, pos, 42, line, tail, k);
                    let next = pos + line.len() + 3;
                    lemma_items_truncated(b, next, items, items.len(), k - line.len() - 3);
                }
            },
        }
    }
}

/// A buffer that ends within the encodings of the first `n` frames of a run
/// that starts at `start` holds an incomplete run there.
pub proof fn lemma_items_truncated(
    b: Seq<u8>,
    start: int,
    items: Seq<FrameModel>,
    n: nat,
    k: int,
)
    requires
        n <= items.len(),
        forall|i: int| 0 <= i < items.len() ==> well_formed(#[trigger] items[i]),
        0 <= start,
        0 <= k < encode_items(items, n).len(),
        b.len() == start + k,
        b.subrange(start, start + k) == encode_items(items, n).take(k),
    ensures
        parse_items(b, start, n) == ParsedItems::Incomplete,
    decreases items, n,
{
    let all = encode_items(items, n);
    if n > 0 {
        let before = encode_items(items, (n - 1) as nat);
        let last = encode(items[n - 1]);
        assert(all == before + last);
        if k < before.len() {
            assert(b.subrange(start, start + k) =~= before.take(k)) by {
                assert forall|i: int| 0 <= i < k implies b.subrange(start, start + k)[i]
                    == before[i] by {
                    assert(all.take(k)[i] == all[i]);
                }
            }
            lemma_items_truncated(b, start, items, (n - 1) as nat, k);
        } else {
            let mid = start + before.len();
            assert(b.subrange(start, mid) =~= before) by {
                assert forall|i: int| 0 <= i < before.len() implies b.subrange(start, mid)[i]
                    == before[i] by {
                    assert(b.subrange(start, start + k)[i] == all.take(k)[i]);
                }
            }
            lemma_parse_encoded_items(b, start, items, (n - 1) as nat);
            let j = k - before.len();
            assert(b.subrange(mid, mid + j) =~= last.take(j)) by {
                assert forall|i: int| 0 <= i < j implies b.subrange(mid, mid + j)[i]
                    == last[i] by {
                    assert(b.subrange(start, start + k)[i + before.len()] == all.take(k)[i
                        + before.len()]);
                }
            }
            lemma_parse_truncated(b, mid, items[n - 1], j);
        }
    }
}

/// Parsing what the encoder wrote gives the frame back, and consumes all of it.
pub proof fn lemma_round_trip(m: FrameModel)
    requires
        well_formed(m),
    ensures
        parse(encode(m), 0) == Parsed::Complete(m, encode(m).len() as int),
{
    let enc = encode(m);
    assert(enc.subrange(0, enc.len() as int) =~= enc);
    lemma_parse_encoded(enc, 0, m);
}

/// Every strict prefix of what the encoder wrote is incomplete, never an error.
pub proof fn lemma_strict_prefix_incomplete(m: FrameModel, k: int)
    requires
        well_formed(m),
        0 <= k < encode(m).len(),
    ensures
        parse(encode(m).take(k), 0) == Parsed::Incomplete,
{
    let cut = encode(m).take(k);
    assert(cut.subrange(0, k) =~= cut);
    lemma_parse_truncated(cut, 0, m, k);
}

/// A bulk frame carries any bytes unchanged: line breaks, zero bytes and
/// bytes that are no UTF-8 included.
pub proof fn lemma_bulk_is_transparent(data: Seq<u8>)
    requires
        data.len() <= i64::MAX,
    ensures
        parse(encode(FrameModel::Bulk(data)), 0) == Parsed::Complete(
            FrameModel::Bulk(data),
            encode(FrameModel::Bulk(data)).len() as int,
        ),
{
    lemma_round_trip(FrameModel::Bulk(data));
}

/// Two encoded frames, one after the other, parse as the first and then, from
/// where the first ended, as the second; together they consume both lengths.
pub proof fn lemma_two_frames(first: FrameModel, second: FrameModel)
    requires
        well_formed(first),
        well_formed(second),
    ensures
        parse(encode(first) + encode(second), 0) == Parsed::Complete(
            first,
            encode(first).len() as int,
        ),
        parse((encode(first) + encode(second)).skip(encode(first).len() as int), 0)
            == Parsed::Complete(second, encode(second).len() as int),
        parse(encode(first) + encode(second), encode(first).len() as int) == Parsed::Complete(
            second,
            (encode(first).len() + encode(second).len()) as int,
        ),
{
    let a = encode(first);
    let c = encode(second);
    let both = a + c;
    assert(both.subrange(0, a.len() as int) =~= a);
    lemma_parse_encoded(both, 0, first);
    assert(both.skip(a.len() as int) =~= c);
    lemma_round_trip(second);
    assert(both.subrange(a.len() as int, (a.len() + c.len()) as int) =~= c);
    lemma_parse_encoded(both, a.len() as int, second);
}

} // verus!
