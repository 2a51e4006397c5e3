//! The translation of syntax trees to the intermediate representation.

pub mod blocks;
pub mod conversions;
pub mod folding;
pub mod function_gen;
pub mod harvest;
pub mod labels;
pub mod limits;
pub mod lowering;
pub mod meaning;
pub mod module_gen;
pub mod numbers;
pub mod running;
pub mod static_eval;
pub mod struct_laws;
pub mod trace;
pub mod type_infer;
pub mod type_laws;
