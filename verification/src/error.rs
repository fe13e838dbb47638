use crate::span::Span;
use vstd::prelude::*;

verus! {

/// Why tokenizing a source stopped.
#[derive(Debug, Clone, Copy, PartialEq, Eq, Structural)]
pub enum TokenizeErrorKind {
    /// A line is indented less than the one before it, to a width that no
    /// enclosing block has.
    IndentationError,
    /// The text of an integer, float, character or string literal is malformed.
    LiteralParseError,
    /// The interner has no symbol left for a new string.
    InternerCapacityError,
}

/// A failure of the tokenizer and the place in the source where it arose.
/// After one, no further token comes for that source.
#[derive(Debug, Clone, Copy, PartialEq, Eq, Structural)]
pub struct TokenizeError {
    pub kind: TokenizeErrorKind,
    pub span: Span,
}

} // verus!
