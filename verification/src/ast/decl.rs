//! Declarations and definitions.

use super::expr::{RightVal, RightValList};
use super::stmt::CodeBlockStmtList;
use super::types::TypeSpecifier;
use vstd::prelude::*;

verus! {

/// The length of a declared array.
#[derive(Debug)]
pub struct VarDeclArray {
    pub len: usize,
}

/// Whether a scalar or an array is declared.
#[derive(Debug)]
pub enum VarDeclInner {
    Scalar,
    Array(Box<VarDeclArray>),
}

/// A variable declaration without initializer.
#[derive(Debug)]
pub struct VarDecl {
    pub identifier: String,
    pub type_specifier: Option<TypeSpecifier>,
    pub inner: VarDeclInner,
}

/// A list of variable declarations.
pub type VarDeclList = Vec<VarDecl>;

/// The value of a defined scalar.
#[derive(Debug)]
pub struct VarDefScalar {
    pub val: Box<RightVal>,
}

/// How a defined array gets its elements.
#[derive(Debug)]
pub enum ArrayInitializer {
    /// One value per element.
    ExplicitList(RightValList),
    /// One value for `count` elements.
    Fill { val: Box<RightVal>, count: usize },
}

/// The length and initializer of a defined array.
#[derive(Debug)]
pub struct VarDefArray {
    pub len: usize,
    pub initializer: ArrayInitializer,
}

/// Whether a scalar or an array is defined.
#[derive(Debug)]
pub enum VarDefInner {
    Scalar(Box<VarDefScalar>),
    Array(Box<VarDefArray>),
}

/// A variable declaration with initializer.
#[derive(Debug)]
pub struct VarDef {
    pub identifier: String,
    pub type_specifier: Option<TypeSpecifier>,
    pub inner: VarDefInner,
}

/// A declaration or a definition.
#[derive(Debug)]
pub enum VarDeclStmtInner {
    Decl(Box<VarDecl>),
    Def(Box<VarDef>),
}

/// A statement that introduces a variable.
#[derive(Debug)]
pub struct VarDeclStmt {
    pub inner: VarDeclStmtInner,
}

/// A struct definition.
#[derive(Debug)]
pub struct StructDef {
    pub identifier: String,
    pub decls: VarDeclList,
}

/// The parameters of a function.
#[derive(Debug)]
pub struct ParamDecl {
    pub decls: VarDeclList,
}

/// The signature of a function.
#[derive(Debug)]
pub struct FnDecl {
    pub identifier: String,
    pub param_decl: Option<Box<ParamDecl>>,
    pub return_dtype: Option<TypeSpecifier>,
}

/// A function with its body.
#[derive(Debug)]
pub struct FnDef {
    pub fn_decl: Box<FnDecl>,
    pub stmts: CodeBlockStmtList,
}

/// A function declaration without body.
#[derive(Debug)]
pub struct FnDeclStmt {
    pub fn_decl: Box<FnDecl>,
}

} // verus!
