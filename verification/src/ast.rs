//! The abstract syntax tree of TeaLang.

pub mod copy;
pub mod debug;
pub mod decl;
pub mod display;
pub mod expr;
pub mod ops;
pub mod program;
pub mod stmt;
pub mod tree;
pub mod types;
