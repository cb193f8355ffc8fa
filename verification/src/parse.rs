//! Reading one record: a station name, a `;`, and a decimal measurement.

use vstd::prelude::*;
use vstd::slice::slice_subrange;

verus! {

pub const NEWLINE: u8 = 10;

pub const CARRIAGE_RETURN: u8 = 13;

pub const SEPARATOR: u8 = 59;

pub const POINT: u8 = 46;

pub const MINUS: u8 = 45;

pub const PLUS: u8 = 43;

pub const ZERO: u8 = 48;

pub const NINE: u8 = 57;

pub const LOWER_E: u8 = 101;

pub const UPPER_E: u8 = 69;


/// Why a line is not a record.
#[derive(Clone, Copy, Debug, PartialEq, Eq, Structural)]
pub enum ParseError {
    /// The line is not empty and holds no `;`.
    MissingSeparator,
    /// What follows the first `;` is not a decimal number.
    InvalidMeasurement,
}

pub open spec fn is_digit(b: u8) -> bool {
    ZERO <= b <= NINE
}

/// The place of the first byte `b`, or the length where there is none.
pub open spec fn first_index(s: Seq<u8>, b: u8) -> int
    decreases s.len(),
{
    if s.len() == 0 || s[0] == b {
        0
    } else {
        1 + first_index(s.skip(1), b)
    }
}

/// Where the digits begin: after a leading sign, if there is one.
pub open spec fn decimal_start(t: Seq<u8>) -> int {
    if t.len() > 0 && (t[0] == MINUS || t[0] == PLUS) {
        1
    } else {
        0
    }
}

/// The place of the first point after the sign, or the length where there
/// is none.
pub open spec fn decimal_point(t: Seq<u8>) -> int {
    decimal_start(t) + first_index(t.skip(decimal_start(t)), POINT)
}

/// What stands between the sign and the point.
pub open spec fn decimal_whole(t: Seq<u8>) -> Seq<u8> {
    t.subrange(decimal_start(t), decimal_point(t))
}

/// What stands after the point.
pub open spec fn decimal_fraction(t: Seq<u8>) -> Seq<u8> {
    if decimal_point(t) < t.len() {
        t.subrange(decimal_point(t) + 1, t.len() as int)
    } else {
        Seq::empty()
    }
}

/// The place of the first `e` or `E`, or the length where there is none.
pub open spec fn exponent_mark(s: Seq<u8>) -> int
    decreases s.len(),
{
    if s.len() == 0 || s[0] == LOWER_E || s[0] == UPPER_E {
        0
    } else {
        1 + exponent_mark(s.skip(1))
    }
}

/// The text is a decimal number without an exponent: an optional sign, then
/// digits, of which any number may stand after a point; there is at least
/// one digit.
pub open spec fn plain_shape(t: Seq<u8>) -> bool {
    let whole = decimal_whole(t);
    let fraction = decimal_fraction(t);
    &&& whole.len() + fraction.len() >= 1
    &&& forall|i: int| 0 <= i < whole.len() ==> is_digit(#[trigger] whole[i])
    &&& forall|i: int| 0 <= i < fraction.len() ==> is_digit(#[trigger] fraction[i])
}

/// The text is an exponent: an optional sign and one or more digits.
pub open spec fn exponent_shape(x: Seq<u8>) -> bool {
    let digits = x.skip(decimal_start(x));
    &&& digits.len() >= 1
    &&& forall|i: int| 0 <= i < digits.len() ==> is_digit(#[trigger] digits[i])
}

/// The text is a decimal number: one without an exponent, or one followed by
/// `e` or `E` and an exponent. No size and no number of digits is asked.
pub open spec fn number_shape(t: Seq<u8>) -> bool {
    let k = exponent_mark(t);
    if k == t.len() {
        plain_shape(t)
    } else {
        plain_shape(t.take(k)) && exponent_shape(t.skip(k + 1))
    }
}

/// The line without the one line terminator at its end: a newline, and a
/// carriage return before it.
pub open spec fn trim_terminator(line: Seq<u8>) -> Seq<u8> {
    if line.len() >= 1 && line.last() == NEWLINE {
        let t = line.drop_last();
        if t.len() >= 1 && t.last() == CARRIAGE_RETURN {
            t.drop_last()
        } else {
            t
        }
    } else {
        line
    }
}

/// The place of the first `;`, or the length where there is none.
pub open spec fn first_separator(s: Seq<u8>) -> int {
    first_index(s, SEPARATOR)
}

/// What a line holds: nothing where it is empty, else a station name and the
/// text of a measurement, or the reason why it is malformed.
pub open spec fn line_outcome(line: Seq<u8>) -> Result<Option<(Seq<u8>, Seq<u8>)>, ParseError> {
    let t = trim_terminator(line);
    let k = first_separator(t);
    if t.len() == 0 {
        Ok(None)
    } else if k == t.len() {
        Err(ParseError::MissingSeparator)
    } else if number_shape(t.skip(k + 1)) {
        Ok(Some((t.take(k), t.skip(k + 1))))
    } else {
        Err(ParseError::InvalidMeasurement)
    }
}

/// The first place of a byte holds it, unless it is the end, and no place
/// before it does.
pub proof fn lemma_first_index(s: Seq<u8>, b: u8)
    ensures
        0 <= first_index(s, b) <= s.len(),
        first_index(s, b) < s.len() ==> s[first_index(s, b)] == b,
        forall|j: int| 0 <= j < first_index(s, b) ==> s[j] != b,
    decreases s.len(),
{
    if s.len() > 0 && s[0] != b {
        let rest = s.skip(1);
        lemma_first_index(rest, b);
        assert forall|j: int| 0 <= j < first_index(s, b) implies s[j] != b by {
            if j > 0 {
                assert(rest[j - 1] == s[j]);
            }
        }
    }
}

/// The first place of an `e` or `E` holds one, unless it is the end, and no
/// place before it does.
pub proof fn lemma_exponent_mark(s: Seq<u8>)
    ensures
        0 <= exponent_mark(s) <= s.len(),
        exponent_mark(s) < s.len() ==> s[exponent_mark(s)] == LOWER_E || s[exponent_mark(s)]
            == UPPER_E,
        forall|j: int| 0 <= j < exponent_mark(s) ==> s[j] != LOWER_E && s[j] != UPPER_E,
    decreases s.len(),
{
    if s.len() > 0 && s[0] != LOWER_E && s[0] != UPPER_E {
        let rest = s.skip(1);
        lemma_exponent_mark(rest);
        assert forall|j: int| 0 <= j < exponent_mark(s) implies s[j] != LOWER_E && s[j]
            != UPPER_E by {
            if j > 0 {
                assert(rest[j - 1] == s[j]);
            }
        }
    }
}

/// Whether every byte of the text is a digit.
pub fn all_digits(text: &[u8]) -> (r: bool)
    ensures
        r == forall|i: int| 0 <= i < text@.len() ==> is_digit(#[trigger] text@[i]),
{
    let mut i: usize = 0;
    while i < text.len()
        invariant
            i <= text@.len(),
            forall|j: int| 0 <= j < i ==> is_digit(#[trigger] text@[j]),
        decreases text@.len() - i,
    {
        if text[i] < ZERO || text[i] > NINE {
            return false;
        }
        i = i + 1;
    }
    true
}

/// Whether the text is a decimal number without an exponent.
pub fn is_plain_number(text: &[u8]) -> (r: bool)
    ensures
        r == plain_shape(text@),
{
    let n: usize = text.len();
    let start: usize = if n > 0 && (text[0] == MINUS || text[0] == PLUS) {
        1
    } else {
        0
    };
    let ghost body = text@.skip(start as int);
    let mut i: usize = start;
    while i < n && text[i] != POINT
        invariant
            start <= i <= n,
            n == text@.len(),
            body == text@.skip(start as int),
            forall|j: int| 0 <= j < i - start ==> body[j] != POINT,
        decreases n - i,
    {
        assert(body[i - start] == text@[i as int]);
        i = i + 1;
    }
    proof {
        lemma_first_index(body, POINT);
        let first = first_index(body, POINT);
        if first < i - start {
            assert(body[first] == POINT);
        }
        if i < n {
            assert(body[i - start] == POINT);
        }
        assert(decimal_point(text@) == i);
    }
    let whole = slice_subrange(text, start, i);
    assert(whole@ == decimal_whole(text@));
    if i < n {
        let fraction = slice_subrange(text, i + 1, n);
        assert(fraction@ == decimal_fraction(text@));
        (i - start) + (n - i - 1) >= 1 && all_digits(whole) && all_digits(fraction)
    } else {
        assert(decimal_fraction(text@).len() == 0);
        i - start >= 1 && all_digits(whole)
    }
}

/// Whether the text is an exponent.
pub fn is_exponent(text: &[u8]) -> (r: bool)
    ensures
        r == exponent_shape(text@),
{
    let n: usize = text.len();
    let start: usize = if n > 0 && (text[0] == MINUS || text[0] == PLUS) {
        1
    } else {
        0
    };
    let digits = slice_subrange(text, start, n);
    assert(digits@ =~= text@.skip(start as int));
    n - start >= 1 && all_digits(digits)
}

/// Whether the text is a decimal number.
pub fn is_number(text: &[u8]) -> (r: bool)
    ensures
        r == number_shape(text@),
{
    let n: usize = text.len();
    let mut k: usize = 0;
    while k < n && text[k] != LOWER_E && text[k] != UPPER_E
        invariant
            k <= n,
            n == text@.len(),
            forall|j: int| 0 <= j < k ==> text@[j] != LOWER_E && text@[j] != UPPER_E,
        decreases n - k,
    {
        k = k + 1;
    }
    proof {
        lemma_exponent_mark(text@);
        let first = exponent_mark(text@);
        if first < k {
            assert(text@[first] == LOWER_E || text@[first] == UPPER_E);
        }
        if k < n {
            assert(text@[k as int] == LOWER_E || text@[k as int] == UPPER_E);
        }
        assert(first == k);
    }
    if k == n {
        return is_plain_number(text);
    }
    let mantissa = slice_subrange(text, 0, k);
    let exponent = slice_subrange(text, k + 1, n);
    assert(mantissa@ =~= text@.take(k as int));
    assert(exponent@ =~= text@.skip(k + 1));
    is_plain_number(mantissa) && is_exponent(exponent)
}

/// Splits one line into a station name and the text of its measurement. An
/// empty line, with or without its terminator, holds no record.
pub fn process_line(line: &[u8]) -> (r: Result<Option<(&[u8], &[u8])>, ParseError>)
    ensures
        match line_outcome(line@) {
            Ok(None) => r == Ok::<Option<(&[u8], &[u8])>, ParseError>(None),
            Ok(Some((name, text))) => r is Ok && r.unwrap() is Some && r.unwrap().unwrap().0@
                == name && r.unwrap().unwrap().1@ == text,
            Err(e) => r is Err && r.unwrap_err() == e,
        },
{
    let mut end: usize = line.len();
    if end >= 1 && line[end - 1] == NEWLINE {
        end = end - 1;
        if end >= 1 && line[end - 1] == CARRIAGE_RETURN {
            end = end - 1;
        }
    }
    let ghost t = trim_terminator(line@);
    assert(t =~= line@.take(end as int));
    if end == 0 {
        return Ok(None);
    }
    let mut k: usize = 0;
    while k < end && line[k] != SEPARATOR
        invariant
            k <= end <= line@.len(),
            t == line@.take(end as int),
            forall|j: int| 0 <= j < k ==> t[j] != SEPARATOR,
        decreases end - k,
    {
        k = k + 1;
    }
    proof {
        lemma_first_index(t, SEPARATOR);
        let first = first_separator(t);
        if first < k {
            assert(t[first] == SEPARATOR);
        }
        if k < end {
            assert(t[k as int] == SEPARATOR);
        }
        assert(first == k);
    }
    if k == end {
        return Err(ParseError::MissingSeparator);
    }
    let name = slice_subrange(line, 0, k);
    let text = slice_subrange(line, k + 1, end);
    assert(name@ =~= t.take(k as int));
    assert(text@ =~= t.skip(k + 1));
    if is_number(text) {
        Ok(Some((name, text)))
    } else {
        Err(ParseError::InvalidMeasurement)
    }
}

} // verus!
