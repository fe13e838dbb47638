use vstd::prelude::*;

verus! {

#[derive(Debug, Clone, Copy, PartialEq, Eq, Structural)]
pub enum Operator {
    /// `=`
    Eq,
    /// `-`
    Negate,
    /// `->`
    Arrow,
    Add,
    Div,
    Mul,
}

} // verus!
