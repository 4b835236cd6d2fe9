//! The pure data side of the lexer: tokens, token kinds and delimiter
//! families.

use vstd::prelude::*;

verus! {

/// Represents a token: a kind together with the half-open byte span
/// `[start, end)` of the source text it covers.
#[derive(Debug, PartialEq, Eq, Structural, Clone, Copy)]
pub struct Token {
    /// Token type.
    pub kind: TokenKind,
    /// Byte offset of the first byte of the span.
    pub start: usize,
    /// Byte offset one past the last byte of the span (exclusive).
    pub end: usize,
}

impl Token {
    /// Creates a new token from the given type and span.
    pub fn new(kind: TokenKind, start: usize, end: usize) -> (t: Token)
        ensures
            t == (Token { kind, start, end }),
    {
        Token { kind, start, end }
    }
}

/// Represents the token types.
#[derive(Debug, PartialEq, Eq, Structural, Clone, Copy)]
pub enum TokenKind {
    /// Opening template delimiter: `{{`, `{%` or `{#`.
    OpenDelim(Delim),
    /// Closing template delimiter: `}}`, `%}` or `#}`.
    CloseDelim(Delim),
    /// Text which will be output as is.
    Raw,
}

/// Represents the template delimiter families.
#[derive(Debug, PartialEq, Eq, Structural, Clone, Copy)]
pub enum Delim {
    /// Expression delimiter: `{{` or `}}`.
    Expr,
    /// Statement delimiter: `{%` or `%}`.
    Stmt,
    /// Comment delimiter: `{#` or `#}`.
    Cmnt,
}

} // verus!
