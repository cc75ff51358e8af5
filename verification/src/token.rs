//! The token model: a closed set of token kinds with positional metadata.

use vstd::prelude::*;

verus! {

/// The kind of a lexical unit. `LeftBrace` and `RightBrace` are the
/// object delimiters `{` and `}`; `LeftBracket` and `RightBracket` the
/// list delimiters `[` and `]`.
#[derive(Debug, Clone, Copy, PartialEq, Eq, Structural)]
pub enum TokenType {
    LeftBrace,
    RightBrace,
    LeftBracket,
    RightBracket,
    Colon,
    Comma,
    String,
    Number,
    Literal,
}

/// One classified, positioned lexical unit of the input text.
///
/// `val` borrows the matched substring of the input: for a string token
/// the characters strictly between the opening quote and its
/// terminator, for every other kind the characters of the token itself.
/// `row` and `col` are the 1-based line and column of the token's first
/// character (for a string token, of the first character after the
/// opening quote).
#[derive(Debug, Clone, Copy, PartialEq)]
pub struct Token<'a> {
    pub typ: TokenType,
    pub val: &'a str,
    pub row: usize,
    pub col: usize,
}

impl<'a> Token<'a> {
    /// Builds a token from its four parts, unchanged.
    pub fn from_args(typ: TokenType, val: &'a str, row: usize, col: usize) -> (t: Token<'a>)
        ensures
            t.typ == typ,
            t.val == val,
            t.row == row,
            t.col == col,
    {
        Token { typ, val, row, col }
    }
}

} // verus!
