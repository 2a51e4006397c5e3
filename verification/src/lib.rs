//! `teac`: a compiler for TeaLang, with its algorithms verified.
#![allow(unused_imports)]


pub mod ast;
pub mod backend;
pub mod common;
pub mod experimental;
pub mod ir;
pub mod opt;
pub mod parser;
