//! Extensions of the language that are off by default.

pub mod agreement;
pub mod return_infer;
pub mod union_find;
