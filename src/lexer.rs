use vstd::prelude::*;

use crate::error::ParserErrors;
use crate::literal::{classify, classify_word, same_lex_error, LexError};
use crate::text::{alphanumeric, chars_between, chars_of, is_alphanumeric, string_of};
use crate::token::{tokens_view, TokenView, Tokens};

verus! {

/// Space, tab, newline and carriage return: skipped between tokens.
pub open spec fn is_json_whitespace(c: char) -> bool {
    c == ' ' || c == '\t' || c == '\n' || c == '\r'
}

/// A character after a quote that makes the quote close its string.
pub open spec fn closes_string(c: char) -> bool {
    c == ',' || c == ':' || c == ']' || c == '}'
}

/// A character that begins or continues a literal word.
pub open spec fn is_literal_char(c: char) -> bool {
    alphanumeric(c) || c == '-' || c == '+' || c == '.'
}

/// The token of a one-character punctuation mark other than the quote.
pub open spec fn structural_token(c: char) -> Option<TokenView> {
    if c == '{' {
        Some(TokenView::LeftBrace)
    } else if c == '}' {
        Some(TokenView::RightBrace)
    } else if c == '[' {
        Some(TokenView::LeftBracket)
    } else if c == ']' {
        Some(TokenView::RightBracket)
    } else if c == ':' {
        Some(TokenView::Colon)
    } else if c == ',' {
        Some(TokenView::Comma)
    } else {
        None
    }
}

/// The index of the quote that closes a string whose text starts at `j`: the
/// first quote followed by the end of input or by one of `, : ] }`.
/// `s.len()` if there is none.
pub open spec fn string_end(s: Seq<char>, j: int) -> int
    decreases s.len() - j,
{
    if j >= s.len() {
        s.len() as int
    } else if s[j] == '"' && (j + 1 == s.len() || closes_string(s[j + 1])) {
        j
    } else {
        string_end(s, j + 1)
    }
}

/// The index just after the literal word that continues at `j`.
pub open spec fn literal_end(s: Seq<char>, j: int) -> int
    decreases s.len() - j,
{
    if j >= s.len() {
        s.len() as int
    } else if !is_literal_char(s[j]) {
        j
    } else {
        literal_end(s, j + 1)
    }
}

pub proof fn lemma_string_end_bounds(s: Seq<char>, j: int)
    requires
        j <= s.len(),
    ensures
        j <= string_end(s, j) <= s.len(),
    decreases s.len() - j,
{
    if j < s.len() {
        lemma_string_end_bounds(s, j + 1);
    }
}

pub proof fn lemma_literal_end_bounds(s: Seq<char>, j: int)
    requires
        j <= s.len(),
    ensures
        j <= literal_end(s, j) <= s.len(),
    decreases s.len() - j,
{
    if j < s.len() {
        lemma_literal_end_bounds(s, j + 1);
    }
}

/// `r` with `prefix` put in front of its tokens.
pub open spec fn after(prefix: Seq<TokenView>, r: Result<Seq<TokenView>, LexError>) -> Result<
    Seq<TokenView>,
    LexError,
> {
    match r {
        Ok(rest) => Ok(prefix + rest),
        Err(e) => Err(e),
    }
}

/// The tokens of `s` from index `i` on, ending with one end marker, or the
/// first error met from there.
pub open spec fn lex(s: Seq<char>, i: int) -> Result<Seq<TokenView>, LexError>
    decreases s.len() - i,
{
    if i >= s.len() {
        Ok(seq![TokenView::EOF])
    } else {
        let c = s[i];
        if is_json_whitespace(c) {
            lex(s, i + 1)
        } else if structural_token(c) is Some {
            after(seq![structural_token(c)->0], lex(s, i + 1))
        } else if c == '"' {
            let k = string_end(s, i + 1);
            proof {
                lemma_string_end_bounds(s, i + 1);
            }
            let text = TokenView::StringValue(s.subrange(i + 1, k));
            if k < s.len() {
                after(seq![TokenView::DoubleQuote, text, TokenView::DoubleQuote], lex(s, k + 1))
            } else {
                Err(LexError::UnterminatedString)
            }
        } else if is_literal_char(c) {
            let k = literal_end(s, i + 1);
            proof {
                lemma_literal_end_bounds(s, i + 1);
            }
            match classify(s.subrange(i, k)) {
                Ok(tok) => after(seq![tok], lex(s, k)),
                Err(e) => Err(e),
            }
        } else {
            Err(LexError::UnrecognizedChar)
        }
    }
}

/// The tokens of the whole text `s`.
pub open spec fn lex_all(s: Seq<char>) -> Result<Seq<TokenView>, LexError> {
    lex(s, 0)
}

pub proof fn lemma_after_after(a: Seq<TokenView>, b: Seq<TokenView>, r: Result<Seq<TokenView>, LexError>)
    ensures
        after(a, after(b, r)) == after(a + b, r),
{
    if let Ok(rest) = r {
        assert(a + (b + rest) =~= (a + b) + rest);
    }
}

pub proof fn lemma_view_push(v: Seq<Tokens>, x: Tokens)
    ensures
        tokens_view(v.push(x)) == tokens_view(v) + seq![x@],
{
    assert(tokens_view(v.push(x)) =~= tokens_view(v) + seq![x@]);
}

pub fn is_whitespace_char(c: char) -> (r: bool)
    ensures
        r == is_json_whitespace(c),
{
    c == ' ' || c == '\t' || c == '\n' || c == '\r'
}

pub fn is_literal_start(c: char) -> (r: bool)
    ensures
        r == is_literal_char(c),
{
    is_alphanumeric(c) || c == '-' || c == '+' || c == '.'
}

/// The token of a punctuation mark other than the quote, if `c` is one.
pub fn structural(c: char) -> (r: Option<Tokens>)
    ensures
        match structural_token(c) {
            Some(t) => r matches Some(x) && x@ == t,
            None => r is None,
        },
{
    match c {
        '{' => Some(Tokens::LeftBrace),
        '}' => Some(Tokens::RightBrace),
        '[' => Some(Tokens::LeftBracket),
        ']' => Some(Tokens::RightBracket),
        ':' => Some(Tokens::Colon),
        ',' => Some(Tokens::Comma),
        _ => None,
    }
}

/// The index of the quote that closes a string whose text starts at `j`.
fn string_end_index(chars: &Vec<char>, j: usize) -> (r: usize)
    requires
        j <= chars.len(),
    ensures
        r as int == string_end(chars@, j as int),
        j <= r <= chars.len(),
{
    let mut k: usize = j;
    while k < chars.len()
        invariant
            j <= k <= chars.len(),
            string_end(chars@, j as int) == string_end(chars@, k as int),
        decreases chars.len() - k,
    {
        if chars[k] == '"' {
            if k + 1 == chars.len() {
                return k;
            }
            let next = chars[k + 1];
            if next == ',' || next == ':' || next == ']' || next == '}' {
                return k;
            }
        }
        k = k + 1;
    }
    k
}

/// The index just after the literal word that continues at `j`.
fn literal_end_index(chars: &Vec<char>, j: usize) -> (r: usize)
    requires
        j <= chars.len(),
    ensures
        r as int == literal_end(chars@, j as int),
        j <= r <= chars.len(),
{
    let mut k: usize = j;
    while k < chars.len()
        invariant
            j <= k <= chars.len(),
            literal_end(chars@, j as int) == literal_end(chars@, k as int),
        decreases chars.len() - k,
    {
        if !is_literal_start(chars[k]) {
            return k;
        }
        k = k + 1;
    }
    k
}

/// Splits `input` into tokens, ending with one end marker.
///
/// Whitespace between tokens is dropped. A quote starts a string, which runs
/// to the first quote followed by the end of input or by one of `, : ] }`;
/// other quotes belong to its text. A string that no quote closes is an error,
/// so every string comes out as a quote, its text and a quote. A run of alphanumeric characters, `-`,
/// `+` and `.` is a literal word: `true`, `false`, `null`, a float if it holds
/// `.`, `e` or `E`, else an integer. Any other character is an error.
pub fn tokenize(input: String) -> (r: Result<Vec<Tokens>, ParserErrors>)
    ensures
        match lex_all(input@) {
            Ok(v) => r matches Ok(x) && tokens_view(x@) == v,
            Err(e) => r matches Err(x) && same_lex_error(x, e),
        },
{
    let chars = chars_of(input.as_str());
    let ghost s = input@;
    let mut tokens: Vec<Tokens> = Vec::new();
    let mut i: usize = 0;
    proof {
        assert(tokens_view(tokens@) =~= Seq::<TokenView>::empty());
        assert(after(Seq::<TokenView>::empty(), lex(s, 0)) == lex(s, 0)) by {
            if let Ok(rest) = lex(s, 0) {
                assert(Seq::<TokenView>::empty() + rest =~= rest);
            }
        }
    }
    while i < chars.len()
        invariant
            chars@ == s,
            s == input@,
            i <= chars.len(),
            lex(s, 0) == after(tokens_view(tokens@), lex(s, i as int)),
        decreases chars.len() - i,
    {
        let ghost before = tokens@;
        let c = chars[i];
        if is_whitespace_char(c) {
            i = i + 1;
        } else if let Some(tok) = structural(c) {
            tokens.push(tok);
            proof {
                lemma_view_push(before, tok);
                lemma_after_after(tokens_view(before), seq![tok@], lex(s, i + 1));
            }
            i = i + 1;
        } else if c == '"' {
            let k = string_end_index(&chars, i + 1);
            if k >= chars.len() {
                return Err(ParserErrors::TokenizeError);
            }
            let text = string_of(&chars_between(&chars, i + 1, k));
            let ghost text_tok = TokenView::StringValue(s.subrange(i + 1, k as int));
            tokens.push(Tokens::DoubleQuote);
            tokens.push(Tokens::StringValue(text));
            tokens.push(Tokens::DoubleQuote);
            proof {
                let added = seq![TokenView::DoubleQuote, text_tok, TokenView::DoubleQuote];
                assert(tokens_view(tokens@) =~= tokens_view(before) + added);
                lemma_after_after(tokens_view(before), added, lex(s, k + 1));
            }
            i = k + 1;
        } else if is_literal_start(c) {
            let k = literal_end_index(&chars, i + 1);
            let word = chars_between(&chars, i, k);
            match classify_word(&word) {
                Ok(tok) => {
                    tokens.push(tok);
                    proof {
                        lemma_view_push(before, tok);
                        lemma_after_after(tokens_view(before), seq![tok@], lex(s, k as int));
                    }
                    i = k;
                },
                Err(e) => {
                    return Err(e);
                },
            }
        } else {
            return Err(ParserErrors::TokenizeError);
        }
    }
    let ghost before = tokens@;
    tokens.push(Tokens::EOF);
    proof {
        lemma_view_push(before, Tokens::EOF);
    }
    Ok(tokens)
}

} // verus!
