//! The failures of the two stages. Each is final for the run that met it.

use vstd::prelude::*;
use crate::token::Loc;

verus! {

/// What the lexer could not accept.
#[derive(Debug, Clone, Copy, PartialEq, Eq, Structural)]
pub enum LexicalErrorKind {
    /// A character that begins no token.
    UnexpectedCharacter,
    /// The input ended inside a string literal.
    UnterminatedString,
    /// A backslash in a string literal that is not followed by one of
    /// `0 n r t \ "`.
    InvalidEscape,
    /// An integer literal whose value does not fit in 64 signed bits.
    MalformedNumber,
}

/// A lexical error and the place in the source where it was met.
#[derive(Debug, Clone, Copy, PartialEq, Eq, Structural)]
pub struct LexicalError {
    pub kind: LexicalErrorKind,
    pub loc: Loc,
}

/// Why a token sequence could not be brought into postfix order.
#[derive(Debug, Clone, Copy, PartialEq, Eq, Structural)]
pub enum ParseError {
    /// The structural error: a right parenthesis that meets no left
    /// parenthesis, or a left parenthesis that is never closed.
    MismatchedParentheses,
    /// The internal error: a token of a kind that has no place in an
    /// expression.
    UnhandledToken,
}

} // verus!
