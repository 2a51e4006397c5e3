//! Statements.

use super::decl::VarDeclStmt;
use super::expr::{BoolUnit, FnCall, LeftVal, RightVal};
use vstd::prelude::*;

verus! {

/// An assignment.
#[derive(Debug)]
pub struct AssignmentStmt {
    pub left_val: Box<LeftVal>,
    pub right_val: Box<RightVal>,
}

/// A call for its effects.
#[derive(Debug)]
pub struct CallStmt {
    pub fn_call: Box<FnCall>,
}

/// A return, with or without a value.
#[derive(Debug)]
pub struct ReturnStmt {
    pub val: Option<Box<RightVal>>,
}

/// A `continue`.
#[derive(Debug)]
pub struct ContinueStmt {}

/// A `break`.
#[derive(Debug)]
pub struct BreakStmt {}

/// An empty statement.
#[derive(Debug)]
pub struct NullStmt {}

/// A conditional.
#[derive(Debug)]
pub struct IfStmt {
    pub bool_unit: Box<BoolUnit>,
    pub if_stmts: CodeBlockStmtList,
    pub else_stmts: Option<CodeBlockStmtList>,
}

/// A loop.
#[derive(Debug)]
pub struct WhileStmt {
    pub bool_unit: Box<BoolUnit>,
    pub stmts: CodeBlockStmtList,
}

/// The form of a statement.
#[derive(Debug)]
pub enum CodeBlockStmtInner {
    VarDecl(Box<VarDeclStmt>),
    Assignment(Box<AssignmentStmt>),
    Call(Box<CallStmt>),
    If(Box<IfStmt>),
    While(Box<WhileStmt>),
    Return(Box<ReturnStmt>),
    Continue(Box<ContinueStmt>),
    Break(Box<BreakStmt>),
    Null(Box<NullStmt>),
}

/// A statement of a code block.
#[derive(Debug)]
pub struct CodeBlockStmt {
    pub inner: CodeBlockStmtInner,
}

/// The statements of a code block.
pub type CodeBlockStmtList = Vec<CodeBlockStmt>;

} // verus!
