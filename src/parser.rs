use vstd::prelude::*;

use crate::error::{ParserErrors, SyntaxError, SyntaxErrorKind};
use crate::token::{token_at, tokens_view, TokenView, Tokens};
use crate::tree::JsonValue;
use crate::value::{elements_view, lemma_elements_view_push, lemma_members_view_push, members_view, Value};

verus! {

/// How many objects and arrays may enclose one another.
pub const MAX_DEPTH: usize = 128;

/// The failure of kind `kind` at token `p`.
pub open spec fn fail<T>(kind: SyntaxErrorKind, p: int) -> Result<T, SyntaxError> {
    Err(SyntaxError { kind, position: p as usize })
}

/// A scalar token, which stands for a value by itself.
pub open spec fn is_scalar(t: TokenView) -> bool {
    t is IntegerValue || t is FloatValue || t is BooleanValue || t is NullValue
}

/// The rest of a quoted string whose opening quote stands just before `p`:
/// the string's text, then the closing quote. On success, the position after it.
pub open spec fn string_rest(t: Seq<TokenView>, p: int) -> Result<int, SyntaxError> {
    match token_at(t, p) {
        None => fail(SyntaxErrorKind::ExpectedMoreTokens, p),
        Some(TokenView::StringValue(_)) => match token_at(t, p + 1) {
            None => fail(SyntaxErrorKind::ExpectedMoreTokens, p + 1),
            Some(TokenView::DoubleQuote) => Ok(p + 2),
            Some(_) => fail(SyntaxErrorKind::ExpectedDoubleQuote, p + 1),
        },
        Some(_) => fail(SyntaxErrorKind::ExpectedStringValue, p),
    }
}

/// The value that starts at `p`, with `d` objects and arrays around it: on
/// success, the position just after it.
pub open spec fn value_at(t: Seq<TokenView>, p: int, d: int) -> Result<int, SyntaxError>
    decreases t.len() - p, 1int,
{
    match token_at(t, p) {
        None => fail(SyntaxErrorKind::ExpectedMoreTokens, p),
        Some(TokenView::LeftBrace) => object_at(t, p, d),
        Some(TokenView::LeftBracket) => array_at(t, p, d),
        Some(TokenView::DoubleQuote) => string_rest(t, p + 1),
        Some(tok) => if is_scalar(tok) {
            Ok(p + 1)
        } else {
            fail(SyntaxErrorKind::ExpectedValue, p)
        },
    }
}

/// The object whose `{` stands at `p`, with `d` objects and arrays around it.
pub open spec fn object_at(t: Seq<TokenView>, p: int, d: int) -> Result<int, SyntaxError>
    decreases t.len() - p, 0int,
{
    if d >= MAX_DEPTH {
        fail(SyntaxErrorKind::DepthExceeded, p)
    } else {
        match token_at(t, p + 1) {
            None => fail(SyntaxErrorKind::ExpectedMoreTokens, p + 1),
            Some(TokenView::RightBrace) => Ok(p + 2),
            Some(_) => members_at(t, p + 1, d + 1),
        }
    }
}

/// The members of an object from the key that starts at `q` up to its `}`;
/// `d` counts the object itself.
pub open spec fn members_at(t: Seq<TokenView>, q: int, d: int) -> Result<int, SyntaxError>
    decreases t.len() - q, 2int,
{
    match token_at(t, q) {
        None => fail(SyntaxErrorKind::ExpectedMoreTokens, q),
        Some(TokenView::DoubleQuote) => match string_rest(t, q + 1) {
            Err(x) => Err(x),
            Ok(_) => match token_at(t, q + 3) {
                None => fail(SyntaxErrorKind::ExpectedMoreTokens, q + 3),
                Some(TokenView::Colon) => match value_at(t, q + 4, d) {
                    Err(x) => Err(x),
                    // a value always ends after it starts (`lemma_value_advances`): the
                    // first test never holds, it only makes the recursion visibly well founded
                    Ok(e) => if e <= q {
                        fail(SyntaxErrorKind::ExpectedValue, q + 4)
                    } else {
                        match token_at(t, e) {
                            None => fail(SyntaxErrorKind::ExpectedMoreTokens, e),
                            Some(TokenView::RightBrace) => Ok(e + 1),
                            Some(TokenView::Comma) => members_at(t, e + 1, d),
                            Some(TokenView::EOF) => fail(SyntaxErrorKind::MissingRightBrace, e),
                            Some(_) => fail(SyntaxErrorKind::ExpectedRightBraceOrComma, e),
                        }
                    },
                },
                Some(_) => fail(SyntaxErrorKind::ExpectedColon, q + 3),
            },
        },
        Some(_) => fail(SyntaxErrorKind::ExpectedDoubleQuote, q),
    }
}

/// The array whose `[` stands at `p`, with `d` objects and arrays around it.
pub open spec fn array_at(t: Seq<TokenView>, p: int, d: int) -> Result<int, SyntaxError>
    decreases t.len() - p, 0int,
{
    if d >= MAX_DEPTH {
        fail(SyntaxErrorKind::DepthExceeded, p)
    } else {
        match token_at(t, p + 1) {
            None => fail(SyntaxErrorKind::ExpectedMoreTokens, p + 1),
            Some(TokenView::RightBracket) => Ok(p + 2),
            Some(_) => elements_at(t, p + 1, d + 1),
        }
    }
}

/// The elements of an array from the one that starts at `q` up to its `]`;
/// `d` counts the array itself.
pub open spec fn elements_at(t: Seq<TokenView>, q: int, d: int) -> Result<int, SyntaxError>
    decreases t.len() - q, 2int,
{
    match value_at(t, q, d) {
        Err(x) => Err(x),
        // as in `members_at`, the first test never holds
        Ok(e) => if e <= q {
            fail(SyntaxErrorKind::ExpectedValue, q)
        } else {
            match token_at(t, e) {
                None => fail(SyntaxErrorKind::ExpectedMoreTokens, e),
                Some(TokenView::RightBracket) => Ok(e + 1),
                Some(TokenView::Comma) => elements_at(t, e + 1, d),
                Some(TokenView::EOF) => fail(SyntaxErrorKind::MissingRightBracket, e),
                Some(_) => fail(SyntaxErrorKind::ExpectedRightBracketOrComma, e),
            }
        },
    }
}

/// A whole document: at least two tokens, an object or an array at the root,
/// nested no deeper than `MAX_DEPTH`, then nothing but an optional end marker.
pub open spec fn document(t: Seq<TokenView>) -> Result<(), SyntaxError> {
    if t.len() < 2 {
        fail(SyntaxErrorKind::NotEnoughElements, 0)
    } else {
        let root = match t[0] {
            TokenView::LeftBrace => object_at(t, 0, 0),
            TokenView::LeftBracket => array_at(t, 0, 0),
            _ => fail(SyntaxErrorKind::InvalidInitialToken, 0),
        };
        match root {
            Err(x) => Err(x),
            Ok(e) => if e == t.len() || (e + 1 == t.len() && t[e] is EOF) {
                Ok(())
            } else {
                fail(SyntaxErrorKind::TrailingTokens, e)
            },
        }
    }
}

/// A value that is read ends after it starts, and within the tokens.
pub proof fn lemma_value_advances(t: Seq<TokenView>, p: int, d: int)
    requires
        0 <= p,
    ensures
        value_at(t, p, d) matches Ok(e) ==> p < e <= t.len(),
    decreases t.len() - p, 1int,
{
    match token_at(t, p) {
        Some(TokenView::LeftBrace) => lemma_object_advances(t, p, d),
        Some(TokenView::LeftBracket) => lemma_array_advances(t, p, d),
        _ => {},
    }
}

pub proof fn lemma_object_advances(t: Seq<TokenView>, p: int, d: int)
    requires
        0 <= p,
    ensures
        object_at(t, p, d) matches Ok(e) ==> p < e <= t.len(),
    decreases t.len() - p, 0int,
{
    if let Some(tok) = token_at(t, p + 1) {
        if !(tok is RightBrace) {
            lemma_members_advances(t, p + 1, d + 1);
        }
    }
}

pub proof fn lemma_members_advances(t: Seq<TokenView>, q: int, d: int)
    requires
        0 <= q,
    ensures
        members_at(t, q, d) matches Ok(e) ==> q < e <= t.len(),
    decreases t.len() - q, 2int,
{
    if token_at(t, q + 3) is Some {
        if let Ok(e) = value_at(t, q + 4, d) {
            if e > q && token_at(t, e) == Some(TokenView::Comma) {
                lemma_members_advances(t, e + 1, d);
            }
        }
    }
}

pub proof fn lemma_array_advances(t: Seq<TokenView>, p: int, d: int)
    requires
        0 <= p,
    ensures
        array_at(t, p, d) matches Ok(e) ==> p < e <= t.len(),
    decreases t.len() - p, 0int,
{
    if let Some(tok) = token_at(t, p + 1) {
        if !(tok is RightBracket) {
            lemma_elements_advances(t, p + 1, d + 1);
        }
    }
}

pub proof fn lemma_elements_advances(t: Seq<TokenView>, q: int, d: int)
    requires
        0 <= q,
    ensures
        elements_at(t, q, d) matches Ok(e) ==> q < e <= t.len(),
    decreases t.len() - q, 2int,
{
    if let Ok(e) = value_at(t, q, d) {
        if e > q && token_at(t, e) == Some(TokenView::Comma) {
            lemma_elements_advances(t, e + 1, d);
        }
    }
}

/// The tree read from the value at `p`; it is what the parser returns where
/// `value_at(t, p, d)` succeeds.
pub open spec fn value_tree(t: Seq<TokenView>, p: int, d: int) -> JsonValue
    decreases t.len() - p, 1int,
{
    match token_at(t, p) {
        Some(TokenView::LeftBrace) => object_tree(t, p, d),
        Some(TokenView::LeftBracket) => array_tree(t, p, d),
        Some(TokenView::DoubleQuote) => match token_at(t, p + 1) {
            Some(TokenView::StringValue(s)) => JsonValue::Str(s),
            _ => JsonValue::Null,
        },
        Some(TokenView::IntegerValue(i)) => JsonValue::Int(i),
        Some(TokenView::FloatValue(f)) => JsonValue::Float(f),
        Some(TokenView::BooleanValue(b)) => JsonValue::Bool(b),
        _ => JsonValue::Null,
    }
}

/// The tree read from the object whose `{` stands at `p`.
pub open spec fn object_tree(t: Seq<TokenView>, p: int, d: int) -> JsonValue
    decreases t.len() - p, 0int,
{
    match token_at(t, p + 1) {
        None => JsonValue::Object(seq![]),
        Some(TokenView::RightBrace) => JsonValue::Object(seq![]),
        Some(_) => JsonValue::Object(members_tree(t, p + 1, d + 1)),
    }
}

/// The members read from the key that starts at `q` on, in order.
pub open spec fn members_tree(t: Seq<TokenView>, q: int, d: int) -> Seq<(Seq<char>, JsonValue)>
    decreases t.len() - q, 2int,
{
    if q + 3 >= t.len() {
        seq![]
    } else {
        let key = match token_at(t, q + 1) {
            Some(TokenView::StringValue(k)) => k,
            _ => seq![],
        };
        let entry = (key, value_tree(t, q + 4, d));
        match value_at(t, q + 4, d) {
            Ok(e) => if e > q && token_at(t, e) == Some(TokenView::Comma) {
                seq![entry] + members_tree(t, e + 1, d)
            } else {
                seq![entry]
            },
            Err(_) => seq![entry],
        }
    }
}

/// The tree read from the array whose `[` stands at `p`.
pub open spec fn array_tree(t: Seq<TokenView>, p: int, d: int) -> JsonValue
    decreases t.len() - p, 0int,
{
    match token_at(t, p + 1) {
        None => JsonValue::Array(seq![]),
        Some(TokenView::RightBracket) => JsonValue::Array(seq![]),
        Some(_) => JsonValue::Array(elements_tree(t, p + 1, d + 1)),
    }
}

/// The elements read from the one that starts at `q` on, in order.
pub open spec fn elements_tree(t: Seq<TokenView>, q: int, d: int) -> Seq<JsonValue>
    decreases t.len() - q, 2int,
{
    let v = value_tree(t, q, d);
    match value_at(t, q, d) {
        Ok(e) => if e > q && token_at(t, e) == Some(TokenView::Comma) {
            seq![v] + elements_tree(t, e + 1, d)
        } else {
            seq![v]
        },
        Err(_) => seq![v],
    }
}

/// An executable outcome (value and end position, or error) agrees with the
/// grammar's outcome and the tree it reads.
pub open spec fn read_outcome(
    r: Result<(Value, usize), SyntaxError>,
    s: Result<int, SyntaxError>,
    tree: JsonValue,
) -> bool {
    match r {
        Ok((v, e)) => s == Ok::<int, SyntaxError>(e as int) && v@ == tree,
        Err(x) => s == Err::<int, SyntaxError>(x),
    }
}

impl Tokens {
    /// Reads the rest of a quoted string whose opening quote stands just before
    /// `pos`; on success, returns its text and the position after the closing quote.
    pub fn parse_string_value(tokens: &Vec<Tokens>, pos: usize) -> (r: Result<(String, usize), SyntaxError>)
        ensures
            match r {
                Ok((s, e)) => string_rest(tokens_view(tokens@), pos as int) == Ok::<int, SyntaxError>(e as int)
                    && token_at(tokens_view(tokens@), pos as int) == Some(TokenView::StringValue(s@)),
                Err(x) => string_rest(tokens_view(tokens@), pos as int) == Err::<int, SyntaxError>(x),
            },
            r matches Ok((_, e)) ==> e == pos + 2 && e <= tokens.len(),
    {
        if pos >= tokens.len() {
            return Err(SyntaxError { kind: SyntaxErrorKind::ExpectedMoreTokens, position: pos });
        }
        let text = match &tokens[pos] {
            Tokens::StringValue(s) => s.clone(),
            _ => {
                return Err(SyntaxError { kind: SyntaxErrorKind::ExpectedStringValue, position: pos });
            },
        };
        let close = pos + 1;
        if close >= tokens.len() {
            return Err(SyntaxError { kind: SyntaxErrorKind::ExpectedMoreTokens, position: close });
        }
        match &tokens[close] {
            Tokens::DoubleQuote => Ok((text, close + 1)),
            _ => Err(SyntaxError { kind: SyntaxErrorKind::ExpectedDoubleQuote, position: close }),
        }
    }
}

/// Reads the value that starts at `pos`, with `depth` objects and arrays
/// around it; on success, returns it and the position after it.
pub fn parse_value(tokens: &Vec<Tokens>, pos: usize, depth: usize) -> (r: Result<(Value, usize), SyntaxError>)
    ensures
        read_outcome(
            r,
            value_at(tokens_view(tokens@), pos as int, depth as int),
            value_tree(tokens_view(tokens@), pos as int, depth as int),
        ),
        r matches Ok((_, e)) ==> pos < e <= tokens.len(),
    decreases tokens@.len() - pos, 1int,
{
    if pos >= tokens.len() {
        return Err(SyntaxError { kind: SyntaxErrorKind::ExpectedMoreTokens, position: pos });
    }
    match &tokens[pos] {
        Tokens::LeftBrace => parse_object(tokens, pos, depth),
        Tokens::LeftBracket => parse_list(tokens, pos, depth),
        Tokens::DoubleQuote => match Tokens::parse_string_value(tokens, pos + 1) {
            Ok((s, e)) => Ok((Value::String(s), e)),
            Err(x) => Err(x),
        },
        Tokens::IntegerValue(i) => Ok((Value::Integer(*i), pos + 1)),
        Tokens::FloatValue(f) => Ok((Value::Float(f.clone()), pos + 1)),
        Tokens::BooleanValue(b) => Ok((Value::Boolean(*b), pos + 1)),
        Tokens::NullValue => Ok((Value::Null, pos + 1)),
        _ => Err(SyntaxError { kind: SyntaxErrorKind::ExpectedValue, position: pos }),
    }
}

/// Reads the object whose `{` stands at `pos`, with `depth` objects and arrays
/// around it; on success, returns it and the position after its `}`.
pub fn parse_object(tokens: &Vec<Tokens>, pos: usize, depth: usize) -> (r: Result<(Value, usize), SyntaxError>)
    requires
        pos < tokens.len(),
    ensures
        read_outcome(
            r,
            object_at(tokens_view(tokens@), pos as int, depth as int),
            object_tree(tokens_view(tokens@), pos as int, depth as int),
        ),
        r matches Ok((_, e)) ==> pos < e <= tokens.len(),
    decreases tokens@.len() - pos, 0int,
{
    let ghost t = tokens_view(tokens@);
    if depth >= MAX_DEPTH {
        return Err(SyntaxError { kind: SyntaxErrorKind::DepthExceeded, position: pos });
    }
    let first = pos + 1;
    let mut members: Vec<(String, Value)> = Vec::new();
    if first >= tokens.len() {
        return Err(SyntaxError { kind: SyntaxErrorKind::ExpectedMoreTokens, position: first });
    }
    if let Tokens::RightBrace = &tokens[first] {
        return Ok((Value::Object(members), first + 1));
    }
    let mut q = first;
    proof {
        assert(members_view(members@) + members_tree(t, q as int, depth + 1) =~= members_tree(t, q as int, depth + 1));
    }
    loop
        invariant
            t == tokens_view(tokens@),
            depth < MAX_DEPTH,
            pos < first <= q <= tokens.len(),
            object_at(t, pos as int, depth as int) == members_at(t, q as int, depth + 1),
            object_tree(t, pos as int, depth as int) == JsonValue::Object(members_tree(t, first as int, depth + 1)),
            members_tree(t, first as int, depth + 1) == members_view(members@) + members_tree(t, q as int, depth + 1),
        decreases tokens.len() - q,
    {
        if q >= tokens.len() {
            return Err(SyntaxError { kind: SyntaxErrorKind::ExpectedMoreTokens, position: q });
        }
        match &tokens[q] {
            Tokens::DoubleQuote => {},
            _ => {
                return Err(SyntaxError { kind: SyntaxErrorKind::ExpectedDoubleQuote, position: q });
            },
        }
        let key = match Tokens::parse_string_value(tokens, q + 1) {
            Err(x) => {
                return Err(x);
            },
            Ok((key, _)) => key,
        };
        let colon = q + 3;
        if colon >= tokens.len() {
            return Err(SyntaxError { kind: SyntaxErrorKind::ExpectedMoreTokens, position: colon });
        }
        match &tokens[colon] {
            Tokens::Colon => {},
            _ => {
                return Err(SyntaxError { kind: SyntaxErrorKind::ExpectedColon, position: colon });
            },
        }
        let (value, e) = match parse_value(tokens, colon + 1, depth + 1) {
            Err(x) => {
                return Err(x);
            },
            Ok(found) => found,
        };
        if e >= tokens.len() {
            return Err(SyntaxError { kind: SyntaxErrorKind::ExpectedMoreTokens, position: e });
        }
        let ghost entry = (key@, value@);
        let ghost old_members = members@;
        let ghost pair = (key, value);
        match &tokens[e] {
            Tokens::RightBrace => {
                members.push((key, value));
                proof {
                    lemma_members_view_push(old_members, pair);
                    assert(members_tree(t, q as int, depth + 1) == seq![entry]);
                    assert(members_view(old_members) + seq![entry] =~= members_view(members@));
                }
                let object = Value::Object(members);
                proof {
                    assert(object@ == JsonValue::Object(members_view(members@)));
                }
                return Ok((object, e + 1));
            },
            Tokens::Comma => {
                members.push((key, value));
                proof {
                    lemma_members_view_push(old_members, pair);
                    assert(members_tree(t, q as int, depth + 1) == seq![entry] + members_tree(t, e + 1, depth + 1));
                    assert(members_view(old_members) + (seq![entry] + members_tree(t, e + 1, depth + 1))
                        =~= members_view(members@) + members_tree(t, e + 1, depth + 1));
                }
                q = e + 1;
            },
            Tokens::EOF => {
                return Err(SyntaxError { kind: SyntaxErrorKind::MissingRightBrace, position: e });
            },
            _ => {
                return Err(
                    SyntaxError { kind: SyntaxErrorKind::ExpectedRightBraceOrComma, position: e },
                );
            },
        }
    }
}

/// Reads the array whose `[` stands at `pos`, with `depth` objects and arrays
/// around it; on success, returns it and the position after its `]`.
pub fn parse_list(tokens: &Vec<Tokens>, pos: usize, depth: usize) -> (r: Result<(Value, usize), SyntaxError>)
    requires
        pos < tokens.len(),
    ensures
        read_outcome(
            r,
            array_at(tokens_view(tokens@), pos as int, depth as int),
            array_tree(tokens_view(tokens@), pos as int, depth as int),
        ),
        r matches Ok((_, e)) ==> pos < e <= tokens.len(),
    decreases tokens@.len() - pos, 0int,
{
    let ghost t = tokens_view(tokens@);
    if depth >= MAX_DEPTH {
        return Err(SyntaxError { kind: SyntaxErrorKind::DepthExceeded, position: pos });
    }
    let first = pos + 1;
    let mut elements: Vec<Value> = Vec::new();
    if first >= tokens.len() {
        return Err(SyntaxError { kind: SyntaxErrorKind::ExpectedMoreTokens, position: first });
    }
    if let Tokens::RightBracket = &tokens[first] {
        return Ok((Value::Array(elements), first + 1));
    }
    let mut q = first;
    proof {
        assert(elements_view(elements@) + elements_tree(t, q as int, depth + 1) =~= elements_tree(t, q as int, depth + 1));
    }
    loop
        invariant
            t == tokens_view(tokens@),
            depth < MAX_DEPTH,
            pos < first <= q <= tokens.len(),
            array_at(t, pos as int, depth as int) == elements_at(t, q as int, depth + 1),
            array_tree(t, pos as int, depth as int) == JsonValue::Array(elements_tree(t, first as int, depth + 1)),
            elements_tree(t, first as int, depth + 1) == elements_view(elements@) + elements_tree(t, q as int, depth + 1),
        decreases tokens.len() - q,
    {
        let (value, e) = match parse_value(tokens, q, depth + 1) {
            Err(x) => {
                return Err(x);
            },
            Ok(found) => found,
        };
        if e >= tokens.len() {
            return Err(SyntaxError { kind: SyntaxErrorKind::ExpectedMoreTokens, position: e });
        }
        let ghost v = value@;
        let ghost old_elements = elements@;
        match &tokens[e] {
            Tokens::RightBracket => {
                proof {
                    lemma_elements_view_push(old_elements, value);
                    assert(elements_tree(t, q as int, depth + 1) == seq![v]);
                }
                elements.push(value);
                proof {
                    assert(elements_view(old_elements) + seq![v] =~= elements_view(elements@));
                }
                let array = Value::Array(elements);
                proof {
                    assert(array@ == JsonValue::Array(elements_view(elements@)));
                }
                return Ok((array, e + 1));
            },
            Tokens::Comma => {
                proof {
                    lemma_elements_view_push(old_elements, value);
                    assert(elements_tree(t, q as int, depth + 1) == seq![v] + elements_tree(t, e + 1, depth + 1));
                }
                elements.push(value);
                proof {
                    assert(elements_view(old_elements) + (seq![v] + elements_tree(t, e + 1, depth + 1))
                        =~= elements_view(elements@) + elements_tree(t, e + 1, depth + 1));
                }
                q = e + 1;
            },
            Tokens::EOF => {
                return Err(SyntaxError { kind: SyntaxErrorKind::MissingRightBracket, position: e });
            },
            _ => {
                return Err(
                    SyntaxError { kind: SyntaxErrorKind::ExpectedRightBracketOrComma, position: e },
                );
            },
        }
    }
}

/// The tree of a whole document: the value read from its first token.
pub open spec fn document_tree(t: Seq<TokenView>) -> JsonValue {
    value_tree(t, 0, 0)
}

/// Reads a whole document and returns its root value.
fn read_document(tokens: &Vec<Tokens>) -> (r: Result<Value, SyntaxError>)
    ensures
        match document(tokens_view(tokens@)) {
            Ok(()) => r matches Ok(v) && v@ == document_tree(tokens_view(tokens@)),
            Err(x) => r == Err::<Value, SyntaxError>(x),
        },
{
    if tokens.len() < 2 {
        return Err(SyntaxError { kind: SyntaxErrorKind::NotEnoughElements, position: 0 });
    }
    let root = match &tokens[0] {
        Tokens::LeftBrace => parse_object(tokens, 0, 0),
        Tokens::LeftBracket => parse_list(tokens, 0, 0),
        _ => Err(SyntaxError { kind: SyntaxErrorKind::InvalidInitialToken, position: 0 }),
    };
    let (value, e) = match root {
        Err(x) => {
            return Err(x);
        },
        Ok(found) => found,
    };
    if e == tokens.len() {
        return Ok(value);
    }
    if e + 1 == tokens.len() {
        if let Tokens::EOF = &tokens[e] {
            return Ok(value);
        }
    }
    Err(SyntaxError { kind: SyntaxErrorKind::TrailingTokens, position: e })
}

/// A validator for whole JSON documents given as token sequences.
pub struct JSONDocument {}

impl JSONDocument {
    /// Checks that `tokens` form one JSON document: an object or an array,
    /// followed by nothing but an optional end marker.
    pub fn parse(&mut self, tokens: Vec<Tokens>) -> (r: Result<bool, ParserErrors>)
        ensures
            match document(tokens_view(tokens@)) {
                Ok(()) => r == Ok::<bool, ParserErrors>(true),
                Err(x) => r == Err::<bool, ParserErrors>(ParserErrors::ParsingError(x)),
            },
            *final(self) == *old(self),
    {
        match read_document(&tokens) {
            Ok(_) => Ok(true),
            Err(x) => Err(ParserErrors::ParsingError(x)),
        }
    }

    /// Reads `tokens` as one JSON document, as `parse` checks it, and returns
    /// its root value.
    pub fn parse_tree(&mut self, tokens: Vec<Tokens>) -> (r: Result<Value, ParserErrors>)
        ensures
            match document(tokens_view(tokens@)) {
                Ok(()) => r matches Ok(v) && v@ == document_tree(tokens_view(tokens@)),
                Err(x) => r matches Err(ParserErrors::ParsingError(y)) && y == x,
            },
            *final(self) == *old(self),
    {
        match read_document(&tokens) {
            Ok(v) => Ok(v),
            Err(x) => Err(ParserErrors::ParsingError(x)),
        }
    }
}

} // verus!
