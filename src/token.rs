use vstd::prelude::*;

verus! {

/// One lexical unit of a JSON text.
///
/// Quotes are tokens of their own: a quoted string always appears as
/// `DoubleQuote, StringValue(..), DoubleQuote`. A float literal keeps the
/// text it was written with; that text is accepted by Rust's float grammar.
#[derive(Debug, Clone, PartialEq)]
pub enum Tokens {
    LeftBrace,
    RightBrace,
    LeftBracket,
    RightBracket,
    DoubleQuote,
    Colon,
    Comma,
    StringValue(String),
    BooleanValue(bool),
    IntegerValue(i64),
    FloatValue(String),
    NullValue,
    EOF,
}

/// The mathematical value of a token: strings are seen as character sequences.
pub enum TokenView {
    LeftBrace,
    RightBrace,
    LeftBracket,
    RightBracket,
    DoubleQuote,
    Colon,
    Comma,
    StringValue(Seq<char>),
    BooleanValue(bool),
    IntegerValue(int),
    FloatValue(Seq<char>),
    NullValue,
    EOF,
}

impl View for Tokens {
    type V = TokenView;

    open spec fn view(&self) -> TokenView {
        match self {
            Tokens::LeftBrace => TokenView::LeftBrace,
            Tokens::RightBrace => TokenView::RightBrace,
            Tokens::LeftBracket => TokenView::LeftBracket,
            Tokens::RightBracket => TokenView::RightBracket,
            Tokens::DoubleQuote => TokenView::DoubleQuote,
            Tokens::Colon => TokenView::Colon,
            Tokens::Comma => TokenView::Comma,
            Tokens::StringValue(s) => TokenView::StringValue(s@),
            Tokens::BooleanValue(b) => TokenView::BooleanValue(*b),
            Tokens::IntegerValue(i) => TokenView::IntegerValue(*i as int),
            Tokens::FloatValue(s) => TokenView::FloatValue(s@),
            Tokens::NullValue => TokenView::NullValue,
            Tokens::EOF => TokenView::EOF,
        }
    }
}

/// The token sequence as mathematical values.
pub open spec fn tokens_view(v: Seq<Tokens>) -> Seq<TokenView> {
    v.map_values(|t: Tokens| t@)
}

/// The token at position `p`, if there is one.
pub open spec fn token_at(t: Seq<TokenView>, p: int) -> Option<TokenView> {
    if 0 <= p < t.len() {
        Some(t[p])
    } else {
        None
    }
}

} // verus!
