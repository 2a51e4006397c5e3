//! Operators.

use vstd::prelude::*;

verus! {

/// An arithmetic operator.
#[derive(Debug, Clone, Copy, PartialEq, Eq, Structural)]
pub enum ArithBiOp {
    Add,
    Sub,
    Mul,
    Div,
}

/// A unary boolean operator.
#[derive(Debug, Clone, Copy, PartialEq, Eq, Structural)]
pub enum BoolUOp {
    Not,
}

/// A binary boolean operator.
#[derive(Debug, Clone, Copy, PartialEq, Eq, Structural)]
pub enum BoolBiOp {
    And,
    Or,
}

/// A comparison operator.
#[derive(Debug, Clone, Copy, PartialEq, Eq, Structural)]
pub enum ComOp {
    Lt,
    Le,
    Gt,
    Ge,
    Eq,
    Ne,
}

} // verus!
