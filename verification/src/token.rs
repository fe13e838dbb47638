use crate::delimiter::Delimiter;
use crate::interner::Symbol;
use crate::keyword::Keyword;
use crate::operator::Operator;
use crate::span::Span;
use vstd::prelude::*;

verus! {

pub type Sym = Symbol;

/// The value of a literal atom.
#[derive(Clone, Copy, Debug, PartialEq, Eq, Structural)]
pub enum Literal {
    /// The interned content of a string literal, quotes removed.
    String(Symbol),
    Char(char),
    Integer(i64),
    /// Where a floating-point literal stands in the source. Its text was
    /// checked to be a decimal number with an optional exponent.
    Float(Span),
}

/// One element of the stream that the lexer hands to a parser.
#[derive(Debug, Clone, Copy, PartialEq, Eq, Structural)]
pub enum Token {
    Indent,
    Dedent,
    Newline,
    EndOfInput,
    Identifier(Sym),
    Literal(Literal),
    Operator(Operator),
    Keyword(Keyword),
    Delimiter(Delimiter),
}

impl Token {
    /// Whether the token marks block structure rather than source text.
    pub open spec fn is_layout(self) -> bool {
        self is Indent || self is Dedent
    }
}

} // verus!
