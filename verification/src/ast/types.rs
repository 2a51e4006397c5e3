//! Type specifiers.

use vstd::prelude::*;

verus! {

/// A byte offset in the source text.
pub type Pos = usize;

/// A built-in type.
#[derive(Debug, Clone, Copy, PartialEq, Eq, Structural)]
pub enum BuiltIn {
    /// The 32-bit signed integer.
    Int,
}

/// The form of a type specifier.
#[derive(Debug)]
pub enum TypeSpecifierInner {
    /// A built-in type.
    BuiltIn(BuiltIn),
    /// A struct, by name.
    Composite(String),
    /// A reference to an array of the inner type.
    Reference(Box<TypeSpecifier>),
}

/// A type specifier with its source position.
#[derive(Debug)]
pub struct TypeSpecifier {
    pub pos: Pos,
    pub inner: TypeSpecifierInner,
}

} // verus!
