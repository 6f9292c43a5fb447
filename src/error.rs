use vstd::prelude::*;

verus! {

/// std's error for a string that is not a valid integer, carried through unread.
#[verifier::external_type_specification]
#[verifier::external_body]
pub struct ExParseIntError(std::num::ParseIntError);

/// What the structural parser expected and did not find.
#[derive(Debug, Clone, Copy, PartialEq, Eq, Structural)]
pub enum SyntaxErrorKind {
    /// The token sequence is shorter than two tokens.
    NotEnoughElements,
    /// The document starts with something other than `{` or `[`.
    InvalidInitialToken,
    /// The token sequence ended in the middle of a value.
    ExpectedMoreTokens,
    /// A `"` was expected (around a key or a string value).
    ExpectedDoubleQuote,
    /// The text of a string was expected between two quotes.
    ExpectedStringValue,
    /// A `:` was expected after an object key.
    ExpectedColon,
    /// A value was expected.
    ExpectedValue,
    /// After an object member, neither `}` nor `,` followed.
    ExpectedRightBraceOrComma,
    /// After an array element, neither `]` nor `,` followed.
    ExpectedRightBracketOrComma,
    /// The input ended inside an object.
    MissingRightBrace,
    /// The input ended inside an array.
    MissingRightBracket,
    /// Tokens other than the end marker follow the document's value.
    TrailingTokens,
    /// Objects and arrays are nested deeper than the parser allows.
    DepthExceeded,
}

/// A structural violation, with the index of the token where it was found.
#[derive(Debug, Clone, Copy, PartialEq, Eq, Structural)]
pub struct SyntaxError {
    pub kind: SyntaxErrorKind,
    pub position: usize,
}

/// Every way in which reading a JSON document can fail.
#[derive(Debug)]
pub enum ParserErrors {
    /// The program was invoked with the wrong arguments.
    ArgumentError(String),
    /// A character outside any string or literal that no token starts with,
    /// or a string that no quote closes.
    TokenizeError,
    /// The tokens do not form a JSON document.
    ParsingError(SyntaxError),
    /// A literal without `.`, `e` or `E` that is not an `i64`.
    ParseIntError(std::num::ParseIntError),
    /// A literal with `.`, `e` or `E` that is not a float; it holds the literal.
    ParseFloatError(String),
}

} // verus!
