//! Parts of the backend that do not depend on the target: the layout of data
//! types and of stack frames.

pub mod layout;
pub mod stack;
