use vstd::prelude::*;

verus! {

/// The reserved words of the language.
#[derive(Debug, Clone, Copy, PartialEq, Eq, Structural)]
pub enum Keyword {
    Let,
    In,
    If,
    Then,
    Else,
    Match,
    Case,
    Import,
    Export,
    Class,
    Instance,
    Data,
    Type,
}

} // verus!
