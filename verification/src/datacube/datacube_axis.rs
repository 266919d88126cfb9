//! Reading a span of time from its text: a whole number, with or without a
//! sign, followed by nothing or by one letter for the unit.

use vstd::prelude::*;
use vstd::string::*;

verus! {

/// The unit of a span of time.
#[derive(Debug, Clone, Copy, PartialEq, Eq, Structural)]
pub enum TimeUnit {
    Hours,
    Minutes,
    Seconds,
}

/// Whether a character is white space: the characters with the Unicode
/// property `White_Space`.
pub open spec fn is_white_space(c: char) -> bool {
    let u = c as u32;
    ||| 0x09 <= u <= 0x0D
    ||| u == 0x20
    ||| u == 0x85
    ||| u == 0xA0
    ||| u == 0x1680
    ||| 0x2000 <= u <= 0x200A
    ||| u == 0x2028
    ||| u == 0x2029
    ||| u == 0x202F
    ||| u == 0x205F
    ||| u == 0x3000
}

/// The number of white-space characters that a text begins with.
pub open spec fn leading_spaces(s: Seq<char>) -> nat
    decreases s.len(),
{
    if s.len() == 0 || !is_white_space(s.first()) {
        0
    } else {
        1 + leading_spaces(s.drop_first())
    }
}

/// The number of white-space characters that a text ends with.
pub open spec fn trailing_spaces(s: Seq<char>) -> nat
    decreases s.len(),
{
    if s.len() == 0 || !is_white_space(s.last()) {
        0
    } else {
        1 + trailing_spaces(s.drop_last())
    }
}

/// A text without the white space that it begins and ends with.
pub open spec fn trimmed(s: Seq<char>) -> Seq<char> {
    if leading_spaces(s) == s.len() {
        Seq::empty()
    } else {
        s.subrange(leading_spaces(s) as int, s.len() - trailing_spaces(s))
    }
}

/// Whether a character is one of the ten digits.
pub open spec fn is_digit(c: char) -> bool {
    '0' <= c <= '9'
}

/// Whether a text holds digits only.
pub open spec fn all_digits(s: Seq<char>) -> bool {
    forall|i: int| 0 <= i < s.len() ==> is_digit(#[trigger] s[i])
}

/// The number that a text of digits writes in base ten.
pub open spec fn number(s: Seq<char>) -> int
    decreases s.len(),
{
    if s.len() == 0 {
        0
    } else {
        10 * number(s.drop_last()) + (s.last() as u32 - '0' as u32)
    }
}

/// The digits of a text that may begin with a sign.
pub open spec fn unsigned_part(s: Seq<char>) -> Seq<char> {
    if s.len() > 0 && (s[0] == '-' || s[0] == '+') {
        s.drop_first()
    } else {
        s
    }
}

/// The whole number that a text writes: an optional sign, then at least one
/// digit and nothing else; `None` for any other text and for a number
/// outside the range of `i64`.
pub open spec fn integer_of(s: Seq<char>) -> Option<int> {
    let digits = unsigned_part(s);
    let value = if s.len() > 0 && s[0] == '-' {
        -number(digits)
    } else {
        number(digits)
    };
    if digits.len() == 0 || !all_digits(digits) || value < i64::MIN || value > i64::MAX {
        None
    } else {
        Some(value)
    }
}

/// The span of time with the given unit that the text before the last
/// character writes.
pub open spec fn with_unit(s: Seq<char>, unit: TimeUnit) -> Option<(int, TimeUnit)> {
    match integer_of(s.drop_last()) {
        Some(amount) => Some((amount, unit)),
        None => None,
    }
}

/// The span of time that a text writes, white space around it set aside: a
/// whole number alone is a number of hours; a whole number followed by `s`,
/// `m` or `h` is a number of seconds, minutes or hours; any other text
/// writes none.
pub open spec fn timedelta_of(s: Seq<char>) -> Option<(int, TimeUnit)> {
    let t = trimmed(s);
    if integer_of(t) is Some {
        Some((integer_of(t)->0, TimeUnit::Hours))
    } else if t.len() > 0 && t.last() == 's' {
        with_unit(t, TimeUnit::Seconds)
    } else if t.len() > 0 && t.last() == 'm' {
        with_unit(t, TimeUnit::Minutes)
    } else if t.len() > 0 && t.last() == 'h' {
        with_unit(t, TimeUnit::Hours)
    } else {
        None
    }
}

/// Calls std's `str::trim`.
///
/// Trusted: the result is the text without the white space it begins and
/// ends with, white space being the characters with the Unicode property
/// `White_Space`, as the documentation of `trim` says.
#[verifier::external_body]
fn trim_text<'a>(text: &'a str) -> (kept: &'a str)
    ensures
        kept@ == trimmed(text@),
{
    text.trim()
}

/// Calls std's `str::parse` for `i64`.
///
/// Trusted: the text is read as the documentation of `i64::from_str` says:
/// an optional sign, then digits only; an empty text, a text without
/// digits, any other character and a number outside the range of `i64` are
/// refused.
#[verifier::external_body]
fn parse_whole(text: &str) -> (value: Option<i64>)
    ensures
        match value {
            Some(v) => integer_of(text@) == Some(v as int),
            None => integer_of(text@) is None,
        },
{
    match text.parse::<i64>() {
        Ok(v) => Some(v),
        Err(_) => None,
    }
}

/// The span of time that a text writes: the amount and the unit, or `None`
/// where the text writes none.
pub fn parse_timedelta(text: &str) -> (parsed: Option<(i64, TimeUnit)>)
    ensures
        match parsed {
            Some(p) => timedelta_of(text@) == Some((p.0 as int, p.1)),
            None => timedelta_of(text@) is None,
        },
{
    let kept = trim_text(text);
    match parse_whole(kept) {
        Some(hours) => {
            return Some((hours, TimeUnit::Hours));
        },
        None => {},
    }
    let n = kept.unicode_len();
    if n == 0 {
        return None;
    }
    let last = kept.get_char(n - 1);
    let unit = if last == 's' {
        TimeUnit::Seconds
    } else if last == 'm' {
        TimeUnit::Minutes
    } else if last == 'h' {
        TimeUnit::Hours
    } else {
        return None;
    };
    let amount_text = kept.substring_char(0, n - 1);
    proof {
        assert(kept@.subrange(0, n - 1) == kept@.drop_last());
    }
    match parse_whole(amount_text) {
        Some(amount) => Some((amount, unit)),
        None => None,
    }
}

} // verus!
