use vstd::prelude::*;

use crate::error::ParserErrors;
use crate::text::{contains_char, equals_chars, string_of};
use crate::token::{TokenView, Tokens};

verus! {

/// Why a literal word could not become a token.
pub enum LexError {
    /// A character that begins no token, outside any string or literal.
    UnrecognizedChar,
    /// A string that no quote closes.
    UnterminatedString,
    /// A word without `.`, `e` or `E` that is no `i64`.
    BadInteger,
    /// A word with `.`, `e` or `E` that is no float; the word itself.
    BadFloat(Seq<char>),
}

pub open spec fn is_digit(c: char) -> bool {
    '0' <= c && c <= '9'
}

/// The number written by the decimal digits `d`.
pub open spec fn digits_value(d: Seq<char>) -> int
    decreases d.len(),
{
    if d.len() == 0 {
        0
    } else {
        10 * digits_value(d.drop_last()) + (d.last() as u32 - '0' as u32)
    }
}

/// All of `s[lo..hi]` are decimal digits.
pub open spec fn digits_between(s: Seq<char>, lo: int, hi: int) -> bool {
    forall|i: int| lo <= i < hi ==> is_digit(s[i])
}

/// 1 if `s[lo..hi]` starts with `+` or `-`, else 0.
pub open spec fn sign_len(s: Seq<char>, lo: int, hi: int) -> int {
    if lo < hi && (s[lo] == '+' || s[lo] == '-') {
        1
    } else {
        0
    }
}

/// The first index in `i..hi` that holds `a` or `b`, or `hi`.
pub open spec fn find_between(s: Seq<char>, a: char, b: char, i: int, hi: int) -> int
    decreases hi - i,
{
    if i >= hi {
        hi
    } else if s[i] == a || s[i] == b {
        i
    } else {
        find_between(s, a, b, i + 1, hi)
    }
}

/// The integer that `i64`'s `FromStr` reads from `s`, before its range check:
/// an optional `+` or `-`, then one or more ASCII digits.
pub open spec fn decimal_int(s: Seq<char>) -> Option<int> {
    let m = sign_len(s, 0, s.len() as int);
    if m < s.len() && digits_between(s, m, s.len() as int) {
        let v = digits_value(s.subrange(m, s.len() as int));
        Some(if s[0] == '-' { -v } else { v })
    } else {
        None
    }
}

pub open spec fn fits_i64(v: int) -> bool {
    i64::MIN <= v <= i64::MAX
}

/// Digits with at most one `.` among them, and at least one digit.
pub open spec fn mantissa_between(s: Seq<char>, lo: int, hi: int) -> bool {
    let d = find_between(s, '.', '.', lo, hi);
    &&& digits_between(s, lo, d)
    &&& digits_between(s, d + 1, hi)
    &&& hi - lo > (if d < hi { 1int } else { 0int })
}

/// The decimal form that Rust's float `FromStr` accepts: an optional sign, a
/// mantissa, then optionally `e` or `E`, an optional sign and one or more digits.
pub open spec fn float_syntax(s: Seq<char>) -> bool {
    let n = s.len() as int;
    let m = sign_len(s, 0, n);
    let k = find_between(s, 'e', 'E', m, n);
    &&& mantissa_between(s, m, k)
    &&& (k < n ==> {
        let x = k + 1 + sign_len(s, k + 1, n);
        x < n && digits_between(s, x, n)
    })
}

/// The token that a literal word stands for.
pub open spec fn classify(w: Seq<char>) -> Result<TokenView, LexError> {
    if w == seq!['t', 'r', 'u', 'e'] {
        Ok(TokenView::BooleanValue(true))
    } else if w == seq!['f', 'a', 'l', 's', 'e'] {
        Ok(TokenView::BooleanValue(false))
    } else if w == seq!['n', 'u', 'l', 'l'] {
        Ok(TokenView::NullValue)
    } else if w.contains('.') || w.contains('e') || w.contains('E') {
        if float_syntax(w) {
            Ok(TokenView::FloatValue(w))
        } else {
            Err(LexError::BadFloat(w))
        }
    } else {
        match decimal_int(w) {
            Some(v) => if fits_i64(v) {
                Ok(TokenView::IntegerValue(v))
            } else {
                Err(LexError::BadInteger)
            },
            None => Err(LexError::BadInteger),
        }
    }
}

/// An executable error agrees with a literal or lexical error.
pub open spec fn same_lex_error(r: ParserErrors, e: LexError) -> bool {
    match e {
        LexError::UnrecognizedChar => r is TokenizeError,
        LexError::UnterminatedString => r is TokenizeError,
        LexError::BadInteger => r is ParseIntError,
        LexError::BadFloat(w) => r matches ParserErrors::ParseFloatError(f) && f@ == w,
    }
}

/// Relies on `i64`'s `FromStr` (`str::parse`): it accepts exactly an optional
/// sign followed by ASCII digits whose value is in range, and returns that value.
#[verifier::external_body]
fn parse_i64(s: &str) -> (r: Result<i64, std::num::ParseIntError>)
    ensures
        match r {
            Ok(v) => decimal_int(s@) == Some(v as int),
            Err(_) => !(decimal_int(s@) matches Some(v) && fits_i64(v)),
        },
{
    s.parse::<i64>()
}

/// The first index in `lo..hi` where `v` holds `a` or `b`, or `hi`.
fn find_index(v: &Vec<char>, a: char, b: char, lo: usize, hi: usize) -> (r: usize)
    requires
        lo <= hi <= v.len(),
    ensures
        r as int == find_between(v@, a, b, lo as int, hi as int),
        lo <= r <= hi,
{
    let mut i: usize = lo;
    while i < hi
        invariant
            lo <= i <= hi <= v.len(),
            find_between(v@, a, b, lo as int, hi as int) == find_between(v@, a, b, i as int, hi as int),
        decreases hi - i,
    {
        if v[i] == a || v[i] == b {
            return i;
        }
        i = i + 1;
    }
    i
}

/// Whether all of `v[lo..hi]` are decimal digits.
fn digits_in(v: &Vec<char>, lo: usize, hi: usize) -> (r: bool)
    requires
        hi <= v.len(),
    ensures
        r == digits_between(v@, lo as int, hi as int),
{
    let mut i: usize = lo;
    while i < hi
        invariant
            lo <= i,
            hi <= v.len(),
            digits_between(v@, lo as int, i as int),
        decreases hi - i,
    {
        if !('0' <= v[i] && v[i] <= '9') {
            return false;
        }
        i = i + 1;
    }
    true
}

/// 1 if `v[lo..hi]` starts with a sign, else 0.
fn sign_at(v: &Vec<char>, lo: usize, hi: usize) -> (r: usize)
    requires
        hi <= v.len(),
    ensures
        r as int == sign_len(v@, lo as int, hi as int),
{
    if lo < hi && (v[lo] == '+' || v[lo] == '-') {
        1
    } else {
        0
    }
}

/// Whether `v` is written in Rust's decimal float form.
pub fn is_float_text(v: &Vec<char>) -> (r: bool)
    ensures
        r == float_syntax(v@),
{
    let n = v.len();
    let m = sign_at(v, 0, n);
    let k = find_index(v, 'e', 'E', m, n);
    let d = find_index(v, '.', '.', m, k);
    let after_dot = if d < k {
        digits_in(v, d + 1, k)
    } else {
        true
    };
    let needed: usize = if d < k {
        1
    } else {
        0
    };
    let mantissa = digits_in(v, m, d) && after_dot && k - m > needed;
    if !mantissa {
        return false;
    }
    if k < n {
        let x = k + 1 + sign_at(v, k + 1, n);
        x < n && digits_in(v, x, n)
    } else {
        true
    }
}

/// The token for the literal word `w`: a boolean, `null`, a float or an integer.
pub fn classify_word(w: &Vec<char>) -> (r: Result<Tokens, ParserErrors>)
    ensures
        match classify(w@) {
            Ok(t) => r matches Ok(x) && x@ == t,
            Err(e) => r matches Err(x) && same_lex_error(x, e),
        },
{
    if equals_chars(w, &['t', 'r', 'u', 'e']) {
        return Ok(Tokens::BooleanValue(true));
    }
    if equals_chars(w, &['f', 'a', 'l', 's', 'e']) {
        return Ok(Tokens::BooleanValue(false));
    }
    if equals_chars(w, &['n', 'u', 'l', 'l']) {
        return Ok(Tokens::NullValue);
    }
    if contains_char(w, '.') || contains_char(w, 'e') || contains_char(w, 'E') {
        if is_float_text(w) {
            return Ok(Tokens::FloatValue(string_of(w)));
        } else {
            return Err(ParserErrors::ParseFloatError(string_of(w)));
        }
    }
    let text = string_of(w);
    match parse_i64(text.as_str()) {
        Ok(v) => Ok(Tokens::IntegerValue(v)),
        Err(e) => Err(ParserErrors::ParseIntError(e)),
    }
}

} // verus!
