//! Whole programs.

use super::decl::{FnDeclStmt, FnDef, StructDef, VarDeclStmt};
use vstd::prelude::*;

verus! {

/// An import of a module.
#[derive(Debug)]
pub struct UseStmt {
    pub module_name: String,
}

/// The form of a top-level element.
#[derive(Debug)]
pub enum ProgramElementInner {
    VarDeclStmt(Box<VarDeclStmt>),
    StructDef(Box<StructDef>),
    FnDeclStmt(Box<FnDeclStmt>),
    FnDef(Box<FnDef>),
}

/// A top-level element.
#[derive(Debug)]
pub struct ProgramElement {
    pub inner: ProgramElementInner,
}

/// The top-level elements of a program.
pub type ProgramElementList = Vec<ProgramElement>;

/// A program.
#[derive(Debug)]
pub struct Program {
    pub use_stmts: Vec<UseStmt>,
    pub elements: ProgramElementList,
}

} // verus!
