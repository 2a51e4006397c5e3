//! The backend: from the intermediate representation to assembly.

pub mod aarch64;
pub mod common;
pub mod error;
