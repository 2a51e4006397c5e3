//! Errors of the backend.

use crate::ast::debug::{quoted, quoted_text};
use crate::common::text::{
    group_text, i64_to_text, int_text, nat_text, owned, usize_to_text,
};
use crate::ir::types::{Dtype, DtypeModel};
use vstd::prelude::*;
use vstd::string::*;

verus! {

broadcast use group_text;

/// What the backend cannot handle.
#[derive(Debug)]
pub enum Error {
    /// The output could not be produced.
    Io { cause: String },
    /// A type has no place in the position where it stands.
    UnsupportedDtype { dtype: Dtype },
    /// An operand has no place in the position where it stands.
    UnsupportedOperand { what: String },
    /// A branch depends on a value that no comparison produced.
    MissingCond { vreg: usize },
    /// The layout of a struct is unknown.
    MissingStructLayout { name: String },
    /// A struct has no field with the given position.
    InvalidStructFieldIndex { name: String, index: i64 },
    /// The code that reached this stage is malformed.
    Internal(String),
}

/// The mathematical model of an [`Error`].
pub enum ErrorModel {
    Io { cause: Seq<char> },
    UnsupportedDtype { dtype: DtypeModel },
    UnsupportedOperand { what: Seq<char> },
    MissingCond { vreg: nat },
    MissingStructLayout { name: Seq<char> },
    InvalidStructFieldIndex { name: Seq<char>, index: int },
    Internal(Seq<char>),
}

impl View for Error {
    type V = ErrorModel;

    open spec fn view(&self) -> ErrorModel {
        match *self {
            Error::Io { cause } => ErrorModel::Io { cause: cause@ },
            Error::UnsupportedDtype { dtype } => ErrorModel::UnsupportedDtype { dtype: dtype@ },
            Error::UnsupportedOperand { what } => ErrorModel::UnsupportedOperand { what: what@ },
            Error::MissingCond { vreg } => ErrorModel::MissingCond { vreg: vreg as nat },
            Error::MissingStructLayout { name } => ErrorModel::MissingStructLayout { name: name@ },
            Error::InvalidStructFieldIndex { name, index } => ErrorModel::InvalidStructFieldIndex {
                name: name@,
                index: index as int,
            },
            Error::Internal(what) => ErrorModel::Internal(what@),
        }
    }
}

/// The structural text of a type.
pub open spec fn dtype_debug(d: DtypeModel) -> Seq<char>
    decreases d,
{
    match d {
        DtypeModel::Void => "Void"@,
        DtypeModel::I1 => "I1"@,
        DtypeModel::I32 => "I32"@,
        DtypeModel::Struct(name) => "Struct { type_"@ + "name: "@ + quoted_text(name) + " }"@,
        DtypeModel::Pointer(p) => "Pointer { pointee: "@ + dtype_debug(*p) + " }"@,
        DtypeModel::Array(e, Some(n)) => "Array { element: "@ + dtype_debug(*e)
            + ", length: Some("@ + nat_text(n) + ") }"@,
        DtypeModel::Array(e, None) => "Array { element: "@ + dtype_debug(*e)
            + ", length: None }"@,
    }
}

fn dtype_debug_text(d: &Dtype) -> (s: String)
    ensures
        s@ == dtype_debug(d@),
    decreases d,
{
    match d {
        Dtype::Void => owned("Void"),
        Dtype::I1 => owned("I1"),
        Dtype::I32 => owned("I32"),
        Dtype::Struct { name } => {
            let mut s = owned("Struct { type_");
            s.append("name: ");
            s.append(quoted(name.as_str()).as_str());
            s.append(" }");
            s
        },
        Dtype::Pointer { pointee } => {
            let mut s = owned("Pointer { pointee: ");
            s.append(dtype_debug_text(pointee).as_str());
            s.append(" }");
            s
        },
        Dtype::Array { element, length } => {
            let mut s = owned("Array { element: ");
            s.append(dtype_debug_text(element).as_str());
            match length {
                Some(n) => {
                    s.append(", length: Some(");
                    s.append(usize_to_text(*n).as_str());
                    s.append(") }");
                },
                None => {
                    s.append(", length: None }");
                },
            }
            s
        },
    }
}

impl ErrorModel {
    /// The message of the error.
    pub open spec fn text(self) -> Seq<char> {
        match self {
            ErrorModel::Io { .. } => "I/O error"@,
            ErrorModel::UnsupportedDtype { dtype } => "unsupported data type: "@ + dtype_debug(
                dtype,
            ),
            ErrorModel::UnsupportedOperand { what } => "unsupported IR operand: "@ + what,
            ErrorModel::MissingCond { vreg } =>
                "missing condition mapping for virtual register %"@ + nat_text(vreg),
            ErrorModel::MissingStructLayout { name } => "missing struct layout for '"@ + name
                + "'"@,
            ErrorModel::InvalidStructFieldIndex { name, index } => "invalid struct field index "@
                + int_text(index) + " for struct '"@ + name + "'"@,
            ErrorModel::Internal(what) => "internal error: "@ + what,
        }
    }
}

impl Error {
    /// The message of the error.
    pub fn to_text(&self) -> (s: String)
        ensures
            s@ == self@.text(),
    {
        match self {
            Error::Io { .. } => owned("I/O error"),
            Error::UnsupportedDtype { dtype } => {
                let mut s = owned("unsupported data type: ");
                s.append(dtype_debug_text(dtype).as_str());
                s
            },
            Error::UnsupportedOperand { what } => {
                let mut s = owned("unsupported IR operand: ");
                s.append(what.as_str());
                s
            },
            Error::MissingCond { vreg } => {
                let mut s = owned("missing condition mapping for virtual register %");
                s.append(usize_to_text(*vreg).as_str());
                s
            },
            Error::MissingStructLayout { name } => {
                let mut s = owned("missing struct layout for '");
                s.append(name.as_str());
                s.append("'");
                s
            },
            Error::InvalidStructFieldIndex { name, index } => {
                let mut s = owned("invalid struct field index ");
                s.append(i64_to_text(*index).as_str());
                s.append(" for struct '");
                s.append(name.as_str());
                s.append("'");
                s
            },
            Error::Internal(what) => {
                let mut s = owned("internal error: ");
                s.append(what.as_str());
                s
            },
        }
    }
}

/// The outcome of an operation that returns nothing.
pub open spec fn done(r: Result<(), Error>) -> Result<(), ErrorModel> {
    match r {
        Ok(_) => Ok(()),
        Err(e) => Err(e@),
    }
}

/// The outcome of an operation that returns plain data.
pub open spec fn plain<T>(r: Result<T, Error>) -> Result<T, ErrorModel> {
    match r {
        Ok(v) => Ok(v),
        Err(e) => Err(e@),
    }
}

/// The outcome of an operation, by the view of what it returns.
pub open spec fn outcome<T: View>(r: Result<T, Error>) -> Result<T::V, ErrorModel> {
    match r {
        Ok(v) => Ok(v@),
        Err(e) => Err(e@),
    }
}

} // verus!
