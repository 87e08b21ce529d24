//! Decimal numbers as they stand on the wire: ASCII digits with an optional sign.

use vstd::prelude::*;

verus! {

/// The digit `0`, in ASCII.
pub const ZERO: u8 = 48;

/// The digit `9`, in ASCII.
pub const NINE: u8 = 57;

/// The minus sign, in ASCII.
pub const MINUS: u8 = 45;

/// The plus sign, in ASCII.
pub const PLUS: u8 = 43;

/// Whether `b` is an ASCII digit.
pub open spec fn is_digit(b: u8) -> bool {
    ZERO <= b <= NINE
}

/// Whether every byte of `s` is an ASCII digit.
pub open spec fn all_digits(s: Seq<u8>) -> bool {
    forall|i: int| 0 <= i < s.len() ==> is_digit(#[trigger] s[i])
}

/// The number that a run of digits denotes, most significant digit first.
pub open spec fn digits_value(s: Seq<u8>) -> nat
    decreases s.len(),
{
    if s.len() == 0 {
        0
    } else {
        (digits_value(s.drop_last()) * 10 + (s.last() - ZERO)) as nat
    }
}

/// The digits of `n`, without padding.
pub open spec fn digits(n: nat) -> Seq<u8>
    decreases n,
{
    if n < 10 {
        seq![(ZERO + n) as u8]
    } else {
        digits(n / 10).push((ZERO + n % 10) as u8)
    }
}

/// The decimal text of `v`: a minus sign for a negative number, then its digits.
pub open spec fn decimal(v: int) -> Seq<u8> {
    if v < 0 {
        seq![MINUS] + digits((-v) as nat)
    } else {
        digits(v as nat)
    }
}

/// The digits of a decimal text, behind its optional sign.
pub open spec fn unsigned_part(s: Seq<u8>) -> Seq<u8> {
    if s.len() > 0 && (s[0] == MINUS || s[0] == PLUS) {
        s.skip(1)
    } else {
        s
    }
}

/// The number that a decimal text denotes: an optional `+` or `-`, then at
/// least one digit. `None` for any other text.
pub open spec fn signed_value(s: Seq<u8>) -> Option<int> {
    let body = unsigned_part(s);
    if body.len() == 0 || !all_digits(body) {
        None
    } else if s[0] == MINUS {
        Some(-(digits_value(body) as int))
    } else {
        Some(digits_value(body) as int)
    }
}

/// The value of a decimal text that fits a signed 64-bit integer.
pub open spec fn i64_value(s: Seq<u8>) -> Option<i64> {
    match signed_value(s) {
        Some(v) if i64::MIN <= v <= i64::MAX => Some(v as i64),
        _ => None,
    }
}

/// The value of a decimal text without a minus sign that fits an unsigned
/// 64-bit integer.
pub open spec fn u64_value(s: Seq<u8>) -> Option<u64> {
    match signed_value(s) {
        Some(v) if 0 <= v <= u64::MAX && !(s.len() > 0 && s[0] == MINUS) => Some(v as u64),
        _ => None,
    }
}

/// Extending a run of digits by one digit never lowers its value.
pub proof fn lemma_digits_value_prefix(s: Seq<u8>, k: int)
    requires
        all_digits(s),
        0 <= k <= s.len(),
    ensures
        digits_value(s.take(k)) <= digits_value(s),
    decreases s.len() - k,
{
    if k == s.len() {
        assert(s.take(k) =~= s);
    } else {
        lemma_digits_value_prefix(s, k + 1);
        assert(s.take(k + 1).drop_last() =~= s.take(k));
        assert(is_digit(s.take(k + 1).last()));
    }
}

/// The digits of a number are digits, at least one of them, and denote it.
pub proof fn lemma_digits_round_trip(n: nat)
    ensures
        digits(n).len() >= 1,
        all_digits(digits(n)),
        digits_value(digits(n)) == n,
    decreases n,
{
    if n < 10 {
        let d = digits(n);
        assert(d.drop_last() =~= Seq::<u8>::empty());
        assert(digits_value(d.drop_last()) == 0);
        assert(d.last() == (48 + n) as u8);
    } else {
        lemma_digits_round_trip(n / 10);
        let d = digits(n);
        assert(d.drop_last() =~= digits(n / 10));
        assert(d.last() == (48 + n % 10) as u8);
        assert forall|i: int| 0 <= i < d.len() implies is_digit(#[trigger] d[i]) by {
            if i < d.len() - 1 {
                assert(d[i] == digits(n / 10)[i]);
            }
        }
    }
}

/// Reading back the decimal text of a number gives that number.
pub proof fn lemma_decimal_round_trip(v: int)
    ensures
        signed_value(decimal(v)) == Some(v),
        decimal(v).len() >= 1,
        forall|i: int| 0 <= i < decimal(v).len() ==> #[trigger] decimal(v)[i] != 13,
{
    let t = decimal(v);
    if v < 0 {
        let n = (-v) as nat;
        lemma_digits_round_trip(n);
        assert(t.skip(1) =~= digits(n));
        assert(t[0] == 45);
        assert forall|i: int| 0 <= i < t.len() implies #[trigger] t[i] != 13 by {
            if i > 0 {
                assert(is_digit(digits(n)[i - 1]));
            }
        }
    } else {
        lemma_digits_round_trip(v as nat);
        assert(is_digit(t[0]));
        assert forall|i: int| 0 <= i < t.len() implies #[trigger] t[i] != 13 by {
            assert(is_digit(t[i]));
        }
    }
}

/// Reads the run of digits `s[from..]` as a number no greater than `limit`:
/// `None` where the run is empty, holds another byte, or denotes more.
pub fn parse_digits(s: &[u8], from: usize, limit: u64) -> (r: Option<u64>)
    ensures
        r == (if from < s.len() && all_digits(s@.skip(from as int)) && digits_value(
            s@.skip(from as int),
        ) <= limit {
            Some(digits_value(s@.skip(from as int)) as u64)
        } else {
            None
        }),
{
    let ghost body = s@.skip(from as int);
    if from >= s.len() {
        return None;
    }
    let mut acc: u64 = 0;
    let mut i: usize = from;
    assert(body.take(0) =~= Seq::<u8>::empty());
    while i < s.len()
        invariant
            from <= i <= s.len(),
            body == s@.skip(from as int),
            all_digits(body.take(i - from)),
            acc == digits_value(body.take(i - from)),
            acc <= limit,
        decreases s.len() - i,
    {
        let d: u8 = s[i];
        if d < ZERO || d > NINE {
            assert(!is_digit(body[i - from]));
            return None;
        }
        let wide: u128 = acc as u128 * 10 + (d - ZERO) as u128;
        proof {
            assert(body.take(i - from + 1).drop_last() =~= body.take(i - from));
            assert(body.take(i - from + 1).last() == d);
            assert(digits_value(body.take(i - from + 1)) == wide);
            assert forall|j: int| 0 <= j < i - from + 1 implies is_digit(
                #[trigger] body.take(i - from + 1)[j],
            ) by {
                if j < i - from {
                    assert(body.take(i - from + 1)[j] == body.take(i - from)[j]);
                }
            }
        }
        if wide > limit as u128 {
            proof {
                if all_digits(body) {
                    lemma_digits_value_prefix(body, i - from + 1);
                }
            }
            return None;
        }
        acc = wide as u64;
        i = i + 1;
    }
    assert(body.take(i - from) =~= body);
    Some(acc)
}

/// Reads a decimal text as a signed 64-bit integer.
pub fn parse_i64(s: &[u8]) -> (r: Option<i64>)
    ensures
        r == i64_value(s@),
{
    if s.len() == 0 {
        return None;
    }
    assert(s@.skip(0) =~= s@);
    if s[0] == MINUS {
        match parse_digits(s, 1, 9223372036854775808u64) {
            Some(m) => {
                if m == 9223372036854775808u64 {
                    Some(i64::MIN)
                } else {
                    Some(-(m as i64))
                }
            },
            None => None,
        }
    } else {
        let start: usize = if s[0] == PLUS { 1 } else { 0 };
        match parse_digits(s, start, 9223372036854775807u64) {
            Some(m) => Some(m as i64),
            None => None,
        }
    }
}

/// Reads a decimal text without a minus sign as an unsigned 64-bit integer.
pub fn parse_u64(s: &[u8]) -> (r: Option<u64>)
    ensures
        r == u64_value(s@),
{
    if s.len() == 0 {
        return None;
    }
    assert(s@.skip(0) =~= s@);
    if s[0] == MINUS {
        return None;
    }
    let start: usize = if s[0] == PLUS { 1 } else { 0 };
    parse_digits(s, start, u64::MAX)
}

/// Appends the digits of `n` to `out`.
pub fn push_digits(n: u64, out: &mut Vec<u8>)
    ensures
        final(out)@ == old(out)@ + digits(n as nat),
    decreases n,
{
    if n >= 10 {
        push_digits(n / 10, out);
    }
    let d: u8 = (n % 10) as u8;
    out.push(ZERO + d);
    proof {
        if n >= 10 {
            assert(final(out)@ =~= old(out)@ + digits(n as nat));
        } else {
            assert(final(out)@ =~= old(out)@ + digits(n as nat));
        }
    }
}

/// Appends the decimal text of `v` to `out`.
pub fn push_decimal(v: i64, out: &mut Vec<u8>)
    ensures
        final(out)@ == old(out)@ + decimal(v as int),
{
    if v < 0 {
        out.push(MINUS);
        let m: u64 = (-(v + 1)) as u64 + 1;
        push_digits(m, out);
        assert(final(out)@ =~= old(out)@ + decimal(v as int));
    } else {
        push_digits(v as u64, out);
    }
}

} // verus!
