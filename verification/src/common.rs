//! Data structures shared by every stage of the compiler.

pub mod bitset;
pub mod cfg;
pub mod generator;
pub mod graph;
pub mod names;
pub mod pass;
pub mod target;
pub mod text;
