use vstd::prelude::*;

use crate::error::{SyntaxError, SyntaxErrorKind};
use crate::lexer::{
    is_json_whitespace, is_literal_char, lemma_literal_end_bounds, lemma_string_end_bounds, lex,
    lex_all, literal_end, string_end, structural_token,
};
use crate::literal::classify;
use crate::literal::LexError;
use crate::parser::{
    array_at, document, document_tree, fail, lemma_array_advances, lemma_object_advances, object_at,
    MAX_DEPTH,
};
use crate::round_trip::{lemma_lex_value, lemma_parse_value, lemma_read_array, lemma_read_object};
use crate::token::TokenView;
use crate::tree::{
    elements_tokens, members_tokens, nesting, value_text, value_tokens, well_formed, JsonValue,
};

verus! {

/// All characters of `s` are whitespace.
pub open spec fn all_whitespace(s: Seq<char>) -> bool {
    forall|k: int| 0 <= k < s.len() ==> is_json_whitespace(#[trigger] s[k])
}

/// Whitespace between `i` and `j` produces no token.
pub proof fn lemma_skip_whitespace(s: Seq<char>, i: int, j: int)
    requires
        0 <= i <= j <= s.len(),
        forall|k: int| i <= k < j ==> is_json_whitespace(#[trigger] s[k]),
    ensures
        lex(s, i) == lex(s, j),
    decreases j - i,
{
    if i < j {
        lemma_skip_whitespace(s, i + 1, j);
    }
}

/// An empty object or an empty array, with any whitespace before, inside and
/// after it, tokenizes to `{ }` or `[ ]` and the end marker, and that is a
/// valid document.
pub proof fn law_empty_container_is_valid(
    lead: Seq<char>,
    inside: Seq<char>,
    trail: Seq<char>,
    object: bool,
)
    requires
        all_whitespace(lead),
        all_whitespace(inside),
        all_whitespace(trail),
    ensures
        ({
            let (open, close) = if object {
                ('{', '}')
            } else {
                ('[', ']')
            };
            let text = lead + seq![open] + inside + seq![close] + trail;
            lex_all(text) matches Ok(t) && document(t) is Ok
        }),
{
    let (open, close) = if object {
        ('{', '}')
    } else {
        ('[', ']')
    };
    let (open_tok, close_tok) = if object {
        (TokenView::LeftBrace, TokenView::RightBrace)
    } else {
        (TokenView::LeftBracket, TokenView::RightBracket)
    };
    let text = lead + seq![open] + inside + seq![close] + trail;
    let a = lead.len() as int;
    let b = a + 1 + inside.len();
    let n = text.len() as int;
    assert(text[a] == open);
    assert(text[b] == close);
    assert forall|k: int| 0 <= k < a implies is_json_whitespace(#[trigger] text[k]) by {
        assert(text[k] == lead[k]);
    }
    assert forall|k: int| a + 1 <= k < b implies is_json_whitespace(#[trigger] text[k]) by {
        assert(text[k] == inside[k - a - 1]);
    }
    assert forall|k: int| b + 1 <= k < n implies is_json_whitespace(#[trigger] text[k]) by {
        assert(text[k] == trail[k - b - 1]);
    }
    lemma_skip_whitespace(text, 0, a);
    lemma_skip_whitespace(text, a + 1, b);
    lemma_skip_whitespace(text, b + 1, n);
    assert(structural_token(close) == Some(close_tok));
    assert(lex(text, b) == Ok::<Seq<TokenView>, LexError>(seq![close_tok] + seq![TokenView::EOF]));
    assert(structural_token(open) == Some(open_tok));
    let t = seq![open_tok] + (seq![close_tok] + seq![TokenView::EOF]);
    assert(lex(text, a) == Ok::<Seq<TokenView>, LexError>(t));
    assert(t =~= seq![open_tok, close_tok, TokenView::EOF]);
    assert(lex_all(text) == Ok::<Seq<TokenView>, LexError>(t));
    assert(document(t) is Ok);
}

/// A character that is not whitespace, punctuation, a quote or part of a
/// literal word is rejected by the tokenizer.
pub proof fn law_unrecognized_char_is_rejected(c: char)
    requires
        !is_json_whitespace(c),
        structural_token(c) is None,
        c != '"',
        !is_literal_char(c),
    ensures
        lex_all(seq![c]) == Err::<Seq<TokenView>, LexError>(LexError::UnrecognizedChar),
{
}

/// Fewer than two tokens never form a document, whatever they are.
pub proof fn law_short_token_sequence_is_rejected(t: Seq<TokenView>)
    requires
        t.len() < 2,
    ensures
        document(t) == fail::<()>(SyntaxErrorKind::NotEnoughElements, 0),
{
}

/// Round trip: the canonical text of any well-formed object or array, nested
/// no deeper than the parser allows, tokenizes to exactly the tree's tokens
/// followed by the end marker, those tokens form a valid document, and the
/// tree read from them is the tree the text was written from.
pub proof fn law_canonical_text_round_trip(v: JsonValue)
    requires
        well_formed(v),
        v is Object || v is Array,
        nesting(v) <= MAX_DEPTH,
    ensures
        lex_all(value_text(v)) == Ok::<Seq<TokenView>, LexError>(value_tokens(v) + seq![TokenView::EOF]),
        document(value_tokens(v) + seq![TokenView::EOF]) is Ok,
        document_tree(value_tokens(v) + seq![TokenView::EOF]) == v,
{
    let s = value_text(v);
    let vt = value_tokens(v);
    let t = vt + seq![TokenView::EOF];
    assert(s.subrange(0, s.len() as int) =~= s);
    lemma_lex_value(s, 0, v);
    assert(lex(s, s.len() as int) == Ok::<Seq<TokenView>, LexError>(seq![TokenView::EOF]));
    assert(t.subrange(0, vt.len() as int) =~= vt);
    lemma_parse_value(t, 0, v, 0);
    assert(t[vt.len() as int] is EOF);
    match v {
        JsonValue::Object(m) => {
            assert(vt =~= seq![TokenView::LeftBrace] + members_tokens(m) + seq![TokenView::RightBrace]);
            assert(t[0] == TokenView::LeftBrace);
        },
        JsonValue::Array(a) => {
            assert(vt =~= seq![TokenView::LeftBracket] + elements_tokens(a) + seq![TokenView::RightBracket]);
            assert(t[0] == TokenView::LeftBracket);
        },
        _ => {},
    }
}

/// A token sequence as the tokenizer makes it: one end marker, at the end;
/// each string text with a quote just before and just after it; each quote
/// either opens a string text (one follows it, none precedes it) or closes one.
pub open spec fn well_tokenized(ts: Seq<TokenView>) -> bool {
    &&& ts.len() > 0
    &&& ts.last() is EOF
    &&& forall|j: int| 0 <= j < ts.len() - 1 ==> !(#[trigger] ts[j] is EOF)
    &&& forall|j: int|
        #![trigger ts[j]]
        0 <= j < ts.len() && ts[j] is StringValue ==> 0 < j < ts.len() - 1 && ts[j - 1] is DoubleQuote
            && ts[j + 1] is DoubleQuote
    &&& forall|j: int|
        #![trigger ts[j]]
        0 <= j < ts.len() && ts[j] is DoubleQuote ==> {
            let opens = j + 1 < ts.len() && ts[j + 1] is StringValue;
            let closes = j > 0 && ts[j - 1] is StringValue;
            opens != closes
        }
}

/// A token other than a quote, a string text or the end marker keeps a token
/// sequence well formed when put in front of it.
pub proof fn lemma_prepend_plain(x: TokenView, rest: Seq<TokenView>)
    requires
        well_tokenized(rest),
        !(x is DoubleQuote || x is StringValue || x is EOF),
    ensures
        well_tokenized(seq![x] + rest),
{
    let ts = seq![x] + rest;
    assert(ts.last() == rest.last());
    assert forall|j: int| 1 <= j < ts.len() implies #[trigger] ts[j] == rest[j - 1] by {}
    assert forall|j: int| 0 <= j < ts.len() - 1 implies !(#[trigger] ts[j] is EOF) by {
        if j > 0 {
            assert(ts[j] == rest[j - 1]);
        }
    }
    assert forall|j: int| 0 <= j < ts.len() && (#[trigger] ts[j]) is StringValue implies 0 < j < ts.len() - 1
        && ts[j - 1] is DoubleQuote && ts[j + 1] is DoubleQuote by {
        assert(ts[j] == rest[j - 1]);
        assert(rest[j - 1] is StringValue);
    }
    assert forall|j: int| 0 <= j < ts.len() && (#[trigger] ts[j]) is DoubleQuote implies {
        let opens = j + 1 < ts.len() && ts[j + 1] is StringValue;
        let closes = j > 0 && ts[j - 1] is StringValue;
        opens != closes
    } by {
        assert(ts[j] == rest[j - 1]);
        assert(rest[j - 1] is DoubleQuote);
        if j > 1 {
            assert(ts[j - 1] == rest[j - 2]);
        }
        if j + 1 < ts.len() {
            assert(ts[j + 1] == rest[j]);
        }
    }
}

/// A quoted string's three tokens keep a token sequence well formed when put
/// in front of it.
pub proof fn lemma_prepend_string(text: Seq<char>, rest: Seq<TokenView>)
    requires
        well_tokenized(rest),
    ensures
        well_tokenized(
            seq![TokenView::DoubleQuote, TokenView::StringValue(text), TokenView::DoubleQuote] + rest,
        ),
{
    let ts = seq![TokenView::DoubleQuote, TokenView::StringValue(text), TokenView::DoubleQuote] + rest;
    assert(ts.last() == rest.last());
    assert forall|j: int| 3 <= j < ts.len() implies #[trigger] ts[j] == rest[j - 3] by {}
    assert(ts[0] is DoubleQuote && ts[1] is StringValue && ts[2] is DoubleQuote);
    assert forall|j: int| 0 <= j < ts.len() - 1 implies !(#[trigger] ts[j] is EOF) by {
        if j >= 3 {
            assert(ts[j] == rest[j - 3]);
        }
    }
    assert forall|j: int| 0 <= j < ts.len() && (#[trigger] ts[j]) is StringValue implies 0 < j < ts.len() - 1
        && ts[j - 1] is DoubleQuote && ts[j + 1] is DoubleQuote by {
        if j >= 3 {
            assert(ts[j] == rest[j - 3]);
            assert(rest[j - 3] is StringValue);
            if j > 3 {
                assert(ts[j - 1] == rest[j - 4]);
            }
            assert(ts[j + 1] == rest[j - 2]);
        }
    }
    assert forall|j: int| 0 <= j < ts.len() && (#[trigger] ts[j]) is DoubleQuote implies {
        let opens = j + 1 < ts.len() && ts[j + 1] is StringValue;
        let closes = j > 0 && ts[j - 1] is StringValue;
        opens != closes
    } by {
        if j == 2 {
            assert(ts[3] == rest[0]);
            assert(!(rest[0] is StringValue));
        }
        if j >= 3 {
            assert(ts[j] == rest[j - 3]);
            assert(rest[j - 3] is DoubleQuote);
            if j > 3 {
                assert(ts[j - 1] == rest[j - 4]);
            }
            if j + 1 < ts.len() {
                assert(ts[j + 1] == rest[j - 2]);
            }
        }
    }
}

/// Whatever the tokenizer returns from index `i` on is well formed.
pub proof fn lemma_lex_well_tokenized(s: Seq<char>, i: int)
    ensures
        lex(s, i) matches Ok(ts) ==> well_tokenized(ts),
    decreases s.len() - i,
{
    if i >= s.len() {
        assert(seq![TokenView::EOF].last() is EOF);
    } else {
        let c = s[i];
        if is_json_whitespace(c) {
            lemma_lex_well_tokenized(s, i + 1);
        } else if structural_token(c) is Some {
            lemma_lex_well_tokenized(s, i + 1);
            if let Ok(rest) = lex(s, i + 1) {
                lemma_prepend_plain(structural_token(c)->0, rest);
            }
        } else if c == '"' {
            let k = string_end(s, i + 1);
            lemma_string_end_bounds(s, i + 1);
            if k < s.len() {
                lemma_lex_well_tokenized(s, k + 1);
                if let Ok(rest) = lex(s, k + 1) {
                    lemma_prepend_string(s.subrange(i + 1, k), rest);
                }
            }
        } else if is_literal_char(c) {
            let k = literal_end(s, i + 1);
            lemma_literal_end_bounds(s, i + 1);
            lemma_lex_well_tokenized(s, k);
            if let Ok(tok) = classify(s.subrange(i, k)) {
                if let Ok(rest) = lex(s, k) {
                    lemma_prepend_plain(tok, rest);
                }
            }
        }
    }
}

/// Every token sequence the tokenizer returns ends with its one end marker
/// and holds each string as a quote, its text and a quote.
pub proof fn law_tokens_are_well_formed(s: Seq<char>)
    ensures
        lex_all(s) matches Ok(ts) ==> well_tokenized(ts),
{
    lemma_lex_well_tokenized(s, 0);
}

/// Every accepted token sequence is the token form of the tree read from it,
/// an object or an array, followed by at most the end marker.
pub proof fn law_accepted_tokens_are_a_tree(t: Seq<TokenView>)
    requires
        document(t) is Ok,
    ensures
        document_tree(t) is Object || document_tree(t) is Array,
        t == value_tokens(document_tree(t)) || t == value_tokens(document_tree(t)) + seq![
            TokenView::EOF,
        ],
{
    let e = if t[0] is LeftBrace {
        lemma_object_advances(t, 0, 0);
        lemma_read_object(t, 0, 0);
        object_at(t, 0, 0)->Ok_0
    } else {
        lemma_array_advances(t, 0, 0);
        lemma_read_array(t, 0, 0);
        array_at(t, 0, 0)->Ok_0
    };
    if e == t.len() {
        assert(t =~= t.subrange(0, e));
    } else {
        assert(t =~= t.subrange(0, e) + seq![TokenView::EOF]);
    }
}

} // verus!
