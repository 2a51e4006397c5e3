//! Expressions.

use super::ops::{ArithBiOp, BoolBiOp, BoolUOp, ComOp};
use super::types::Pos;
use crate::common::text::owned;
use vstd::prelude::*;
use vstd::string::*;

verus! {

/// A place that can be assigned to.
#[derive(Debug)]
pub struct LeftVal {
    pub pos: Pos,
    pub inner: LeftValInner,
}

/// The form of a place.
#[derive(Debug)]
pub enum LeftValInner {
    Id(String),
    ArrayExpr(Box<ArrayExpr>),
    MemberExpr(Box<MemberExpr>),
}

/// The form of an array index.
#[derive(Debug)]
pub enum IndexExprInner {
    Num(usize),
    Id(String),
}

/// An array index: a literal or a variable.
#[derive(Debug)]
pub struct IndexExpr {
    pub inner: IndexExprInner,
}

/// An array element, `arr[idx]`.
#[derive(Debug)]
pub struct ArrayExpr {
    pub arr: Box<LeftVal>,
    pub idx: Box<IndexExpr>,
}

/// A struct member, `struct_id.member_id`.
#[derive(Debug)]
pub struct MemberExpr {
    pub struct_id: Box<LeftVal>,
    pub member_id: String,
}

/// A binary arithmetic expression.
#[derive(Debug)]
pub struct ArithBiOpExpr {
    pub op: ArithBiOp,
    pub left: Box<ArithExpr>,
    pub right: Box<ArithExpr>,
}

/// The form of an arithmetic expression.
#[derive(Debug)]
pub enum ArithExprInner {
    ArithBiOpExpr(Box<ArithBiOpExpr>),
    ExprUnit(Box<ExprUnit>),
}

/// An arithmetic expression.
#[derive(Debug)]
pub struct ArithExpr {
    pub pos: Pos,
    pub inner: ArithExprInner,
}

/// A comparison.
#[derive(Debug)]
pub struct ComExpr {
    pub op: ComOp,
    pub left: Box<ExprUnit>,
    pub right: Box<ExprUnit>,
}

/// A unary boolean expression.
#[derive(Debug)]
pub struct BoolUOpExpr {
    pub op: BoolUOp,
    pub cond: Box<BoolUnit>,
}

/// A binary boolean expression.
#[derive(Debug)]
pub struct BoolBiOpExpr {
    pub op: BoolBiOp,
    pub left: Box<BoolExpr>,
    pub right: Box<BoolExpr>,
}

/// The form of a boolean expression.
#[derive(Debug)]
pub enum BoolExprInner {
    BoolBiOpExpr(Box<BoolBiOpExpr>),
    BoolUnit(Box<BoolUnit>),
}

/// A boolean expression.
#[derive(Debug)]
pub struct BoolExpr {
    pub pos: Pos,
    pub inner: BoolExprInner,
}

/// The form of an atomic boolean expression.
#[derive(Debug)]
pub enum BoolUnitInner {
    ComExpr(Box<ComExpr>),
    BoolExpr(Box<BoolExpr>),
    BoolUOpExpr(Box<BoolUOpExpr>),
}

/// An atomic boolean expression.
#[derive(Debug)]
pub struct BoolUnit {
    pub pos: Pos,
    pub inner: BoolUnitInner,
}

/// A list of right-hand-side values.
pub type RightValList = Vec<RightVal>;

/// A function call.
#[derive(Debug)]
pub struct FnCall {
    pub module_prefix: Option<String>,
    pub name: String,
    pub vals: RightValList,
}

impl FnCall {
    /// The name of the callee, with its module in front where it has one.
    pub open spec fn callee(&self) -> Seq<char> {
        match self.module_prefix {
            Some(module) => module@ + "::"@ + self.name@,
            None => self.name@,
        }
    }

    /// The name of the callee, with its module in front where it has one.
    pub fn qualified_name(&self) -> (name: String)
        ensures
            name@ == self.callee(),
    {
        match &self.module_prefix {
            Some(module) => {
                let mut name = owned(module.as_str());
                name.append("::");
                name.append(self.name.as_str());
                name
            },
            None => self.name.clone(),
        }
    }
}

/// The form of an atomic expression.
#[derive(Debug)]
pub enum ExprUnitInner {
    Num(i32),
    Id(String),
    ArithExpr(Box<ArithExpr>),
    FnCall(Box<FnCall>),
    ArrayExpr(Box<ArrayExpr>),
    MemberExpr(Box<MemberExpr>),
    Reference(String),
}

/// An atomic expression.
#[derive(Debug)]
pub struct ExprUnit {
    pub pos: Pos,
    pub inner: ExprUnitInner,
}

/// The form of a right-hand-side value.
#[derive(Debug)]
pub enum RightValInner {
    ArithExpr(Box<ArithExpr>),
    BoolExpr(Box<BoolExpr>),
}

/// A right-hand-side value.
#[derive(Debug)]
pub struct RightVal {
    pub inner: RightValInner,
}

} // verus!
