use vstd::prelude::*;

use crate::literal::{fits_i64, float_syntax, is_digit};
use crate::token::TokenView;

verus! {

broadcast use vstd::seq::axiom_seq_index_decreases, vstd::seq::axiom_seq_subrange_decreases;

/// A JSON value as a mathematical tree. Object members keep their order, and
/// a key may occur more than once.
pub enum JsonValue {
    Str(Seq<char>),
    Bool(bool),
    Int(int),
    Float(Seq<char>),
    Null,
    Object(Seq<(Seq<char>, JsonValue)>),
    Array(Seq<JsonValue>),
}

pub open spec fn digit_char(d: int) -> char {
    seq!['0', '1', '2', '3', '4', '5', '6', '7', '8', '9'][d]
}

/// The decimal digits of `n`, without leading zeros.
pub open spec fn nat_text(n: nat) -> Seq<char>
    decreases n,
{
    if n < 10 {
        seq![digit_char(n as int)]
    } else {
        nat_text(n / 10).push(digit_char((n % 10) as int))
    }
}

/// `i` in decimal, with a `-` when it is negative.
pub open spec fn int_text(i: int) -> Seq<char> {
    if i < 0 {
        seq!['-'] + nat_text((-i) as nat)
    } else {
        nat_text(i as nat)
    }
}

pub open spec fn quoted(s: Seq<char>) -> Seq<char> {
    seq!['"'] + s + seq!['"']
}

/// The canonical text of a value: no whitespace, members as `"key":value`,
/// entries separated by `,`.
pub open spec fn value_text(v: JsonValue) -> Seq<char>
    decreases v,
{
    match v {
        JsonValue::Str(s) => quoted(s),
        JsonValue::Bool(b) => if b {
            seq!['t', 'r', 'u', 'e']
        } else {
            seq!['f', 'a', 'l', 's', 'e']
        },
        JsonValue::Int(i) => int_text(i),
        JsonValue::Float(f) => f,
        JsonValue::Null => seq!['n', 'u', 'l', 'l'],
        JsonValue::Object(m) => seq!['{'] + members_text(m) + seq!['}'],
        JsonValue::Array(a) => seq!['['] + elements_text(a) + seq![']'],
    }
}

pub open spec fn members_text(m: Seq<(Seq<char>, JsonValue)>) -> Seq<char>
    decreases m,
{
    if m.len() == 0 {
        seq![]
    } else {
        proof {
            assert(decreases_to!(m => m[0]));
        }
        let entry = quoted(m[0].0) + seq![':'] + value_text(m[0].1);
        if m.len() == 1 {
            entry
        } else {
            entry + seq![','] + members_text(m.drop_first())
        }
    }
}

pub open spec fn elements_text(a: Seq<JsonValue>) -> Seq<char>
    decreases a,
{
    if a.len() == 0 {
        seq![]
    } else if a.len() == 1 {
        value_text(a[0])
    } else {
        value_text(a[0]) + seq![','] + elements_text(a.drop_first())
    }
}

/// The tokens of a value, as the tokenizer gives them for its canonical text.
pub open spec fn value_tokens(v: JsonValue) -> Seq<TokenView>
    decreases v,
{
    match v {
        JsonValue::Str(s) => seq![TokenView::DoubleQuote, TokenView::StringValue(s), TokenView::DoubleQuote],
        JsonValue::Bool(b) => seq![TokenView::BooleanValue(b)],
        JsonValue::Int(i) => seq![TokenView::IntegerValue(i)],
        JsonValue::Float(f) => seq![TokenView::FloatValue(f)],
        JsonValue::Null => seq![TokenView::NullValue],
        JsonValue::Object(m) => seq![TokenView::LeftBrace] + members_tokens(m) + seq![TokenView::RightBrace],
        JsonValue::Array(a) => seq![TokenView::LeftBracket] + elements_tokens(a) + seq![TokenView::RightBracket],
    }
}

pub open spec fn members_tokens(m: Seq<(Seq<char>, JsonValue)>) -> Seq<TokenView>
    decreases m,
{
    if m.len() == 0 {
        seq![]
    } else {
        proof {
            assert(decreases_to!(m => m[0]));
        }
        let key = seq![TokenView::DoubleQuote, TokenView::StringValue(m[0].0), TokenView::DoubleQuote];
        let entry = key + seq![TokenView::Colon] + value_tokens(m[0].1);
        if m.len() == 1 {
            entry
        } else {
            entry + seq![TokenView::Comma] + members_tokens(m.drop_first())
        }
    }
}

pub open spec fn elements_tokens(a: Seq<JsonValue>) -> Seq<TokenView>
    decreases a,
{
    if a.len() == 0 {
        seq![]
    } else if a.len() == 1 {
        value_tokens(a[0])
    } else {
        value_tokens(a[0]) + seq![TokenView::Comma] + elements_tokens(a.drop_first())
    }
}

/// Written with digits, signs, `.`, `e` and `E` only.
pub open spec fn float_chars(f: Seq<char>) -> bool {
    forall|i: int|
        0 <= i < f.len() ==> is_digit(#[trigger] f[i]) || f[i] == '+' || f[i] == '-' || f[i] == '.'
            || f[i] == 'e' || f[i] == 'E'
}

/// A float's text: Rust's decimal float form, with a `.`, `e` or `E` in it.
pub open spec fn float_text_ok(f: Seq<char>) -> bool {
    float_syntax(f) && float_chars(f) && (f.contains('.') || f.contains('e') || f.contains('E'))
}

/// Every string and key is free of quotes, every integer is an `i64`, every
/// float is written as a float.
pub open spec fn well_formed(v: JsonValue) -> bool
    decreases v,
{
    match v {
        JsonValue::Str(s) => !s.contains('"'),
        JsonValue::Int(i) => fits_i64(i),
        JsonValue::Float(f) => float_text_ok(f),
        JsonValue::Object(m) => members_well_formed(m),
        JsonValue::Array(a) => elements_well_formed(a),
        _ => true,
    }
}

pub open spec fn members_well_formed(m: Seq<(Seq<char>, JsonValue)>) -> bool
    decreases m,
{
    if m.len() == 0 {
        true
    } else {
        proof {
            assert(decreases_to!(m => m[0]));
        }
        !m[0].0.contains('"') && well_formed(m[0].1) && members_well_formed(m.drop_first())
    }
}

pub open spec fn elements_well_formed(a: Seq<JsonValue>) -> bool
    decreases a,
{
    if a.len() == 0 {
        true
    } else {
        well_formed(a[0]) && elements_well_formed(a.drop_first())
    }
}

/// How many objects and arrays enclose the deepest part of a value, itself included.
pub open spec fn nesting(v: JsonValue) -> nat
    decreases v,
{
    match v {
        JsonValue::Object(m) => 1 + members_nesting(m),
        JsonValue::Array(a) => 1 + elements_nesting(a),
        _ => 0,
    }
}

pub open spec fn members_nesting(m: Seq<(Seq<char>, JsonValue)>) -> nat
    decreases m,
{
    if m.len() == 0 {
        0
    } else {
        proof {
            assert(decreases_to!(m => m[0]));
        }
        let first = nesting(m[0].1);
        let rest = members_nesting(m.drop_first());
        if first >= rest {
            first
        } else {
            rest
        }
    }
}

pub open spec fn elements_nesting(a: Seq<JsonValue>) -> nat
    decreases a,
{
    if a.len() == 0 {
        0
    } else {
        let first = nesting(a[0]);
        let rest = elements_nesting(a.drop_first());
        if first >= rest {
            first
        } else {
            rest
        }
    }
}

} // verus!
