//! Optimizations on the intermediate representation.

pub mod alloca_analysis;
pub mod dominator;
pub mod execution;
pub mod mem2reg;
pub mod optimizer;
pub mod phi_placement;
pub mod promoted;
pub mod promotion;
pub mod renaming;
pub mod steps;
pub mod values;
pub mod versions;

pub use crate::common::pass::FunctionPass;
pub use mem2reg::Mem2RegPass;
pub use optimizer::{install_default_passes, Optimizer};
