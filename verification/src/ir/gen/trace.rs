//! Tracing: which functions are traced, and the calls that report what a
//! traced function does.

pub mod calls;
pub mod lines;
pub mod plan;
pub mod symbols;
pub mod texts;
