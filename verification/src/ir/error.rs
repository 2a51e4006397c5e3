//! Errors of the translation to the intermediate representation.

use super::types::{Dtype, DtypeModel};
use crate::ast::copy::ExprModel;
use crate::ast::expr::{ExprUnit, MemberExpr};
use crate::common::text::{group_text, owned};
use vstd::prelude::*;
use vstd::string::*;

verus! {

broadcast use group_text;

/// What can be wrong with a program.
#[derive(Debug)]
pub enum Error {
    /// A struct variable has an initializer.
    StructInitialization,
    /// The header of an imported module is missing.
    ModuleNotFound { module_name: String, path: String },
    /// The header of an imported module cannot be parsed.
    ModuleParseFailed { module_name: String, message: String },
    /// A constant expression divides by zero.
    DivisionByZero,
    /// A constant expression overflows.
    IntegerOverflow,
    /// A variable is defined twice.
    VariableRedefinition { symbol: String },
    /// A function is declared twice, with different types.
    ConflictedFunction { symbol: String },
    /// A declaration has no name.
    SymbolMissing,
    /// A function is defined with another type than declared.
    DeclDefMismatch { symbol: String },
    /// A function is unknown.
    FunctionNotDefined { symbol: String },
    /// A variable is unknown.
    VariableNotDefined { symbol: String },
    /// Something that is not an array is indexed.
    InvalidArrayExpression,
    /// A reference is taken to something that is not an array.
    InvalidReference { symbol: String },
    /// A parameter is an array.
    ArrayParameterNotAllowed { symbol: String },
    /// An array is used as a scalar.
    ArrayUsedAsValue { symbol: String },
    /// A member access has no meaning.
    InvalidStructMemberExpression { expr: MemberExpr },
    /// An expression has no meaning.
    InvalidExprUnit { expr_unit: ExprUnit },
    /// A local definition is not supported.
    LocalVarDefinitionUnsupported,
    /// A call is not supported.
    FunctionCallUnsupported,
    /// A `continue` stands outside of a loop.
    InvalidContinueInst,
    /// A `break` stands outside of a loop.
    InvalidBreakInst,
    /// A function returns neither nothing nor an integer.
    UnsupportedReturnType { symbol: String },
    /// A member has the type of an unknown struct.
    UndefinedStructMemberType { struct_name: String, member_type: String },
    /// Two types that must agree do not.
    TypeMismatch { symbol: String, expected: Dtype, actual: Dtype },
    /// The type of a variable or function cannot be determined.
    TypeNotDetermined { symbol: String },
    /// Something could not be read or written.
    Io { cause: String },
}

/// The mathematical model of an [`Error`].
pub enum ErrorModel {
    StructInitialization,
    ModuleNotFound { module_name: Seq<char>, path: Seq<char> },
    ModuleParseFailed { module_name: Seq<char>, message: Seq<char> },
    DivisionByZero,
    IntegerOverflow,
    VariableRedefinition { symbol: Seq<char> },
    ConflictedFunction { symbol: Seq<char> },
    SymbolMissing,
    DeclDefMismatch { symbol: Seq<char> },
    FunctionNotDefined { symbol: Seq<char> },
    VariableNotDefined { symbol: Seq<char> },
    InvalidArrayExpression,
    InvalidReference { symbol: Seq<char> },
    ArrayParameterNotAllowed { symbol: Seq<char> },
    ArrayUsedAsValue { symbol: Seq<char> },
    InvalidStructMemberExpression { expr: MemberExpr },
    InvalidExprUnit { expr_unit: ExprModel },
    LocalVarDefinitionUnsupported,
    FunctionCallUnsupported,
    InvalidContinueInst,
    InvalidBreakInst,
    UnsupportedReturnType { symbol: Seq<char> },
    UndefinedStructMemberType { struct_name: Seq<char>, member_type: Seq<char> },
    TypeMismatch { symbol: Seq<char>, expected: DtypeModel, actual: DtypeModel },
    TypeNotDetermined { symbol: Seq<char> },
    Io { cause: Seq<char> },
}

impl View for Error {
    type V = ErrorModel;

    open spec fn view(&self) -> ErrorModel {
        match *self {
            Error::StructInitialization => ErrorModel::StructInitialization,
            Error::ModuleNotFound { module_name, path } => ErrorModel::ModuleNotFound { module_name: module_name@, path: path@ },
            Error::ModuleParseFailed { module_name, message } => ErrorModel::ModuleParseFailed { module_name: module_name@, message: message@ },
            Error::DivisionByZero => ErrorModel::DivisionByZero,
            Error::IntegerOverflow => ErrorModel::IntegerOverflow,
            Error::VariableRedefinition { symbol } => ErrorModel::VariableRedefinition { symbol: symbol@ },
            Error::ConflictedFunction { symbol } => ErrorModel::ConflictedFunction { symbol: symbol@ },
            Error::SymbolMissing => ErrorModel::SymbolMissing,
            Error::DeclDefMismatch { symbol } => ErrorModel::DeclDefMismatch { symbol: symbol@ },
            Error::FunctionNotDefined { symbol } => ErrorModel::FunctionNotDefined { symbol: symbol@ },
            Error::VariableNotDefined { symbol } => ErrorModel::VariableNotDefined { symbol: symbol@ },
            Error::InvalidArrayExpression => ErrorModel::InvalidArrayExpression,
            Error::InvalidReference { symbol } => ErrorModel::InvalidReference { symbol: symbol@ },
            Error::ArrayParameterNotAllowed { symbol } => ErrorModel::ArrayParameterNotAllowed { symbol: symbol@ },
            Error::ArrayUsedAsValue { symbol } => ErrorModel::ArrayUsedAsValue { symbol: symbol@ },
            Error::InvalidStructMemberExpression { expr } => ErrorModel::InvalidStructMemberExpression { expr },
            Error::InvalidExprUnit { expr_unit } => ErrorModel::InvalidExprUnit { expr_unit: expr_unit@ },
            Error::LocalVarDefinitionUnsupported => ErrorModel::LocalVarDefinitionUnsupported,
            Error::FunctionCallUnsupported => ErrorModel::FunctionCallUnsupported,
            Error::InvalidContinueInst => ErrorModel::InvalidContinueInst,
            Error::InvalidBreakInst => ErrorModel::InvalidBreakInst,
            Error::UnsupportedReturnType { symbol } => ErrorModel::UnsupportedReturnType { symbol: symbol@ },
            Error::UndefinedStructMemberType { struct_name, member_type } => ErrorModel::UndefinedStructMemberType { struct_name: struct_name@, member_type: member_type@ },
            Error::TypeMismatch { symbol, expected, actual } => ErrorModel::TypeMismatch { symbol: symbol@, expected: expected@, actual: actual@ },
            Error::TypeNotDetermined { symbol } => ErrorModel::TypeNotDetermined { symbol: symbol@ },
            Error::Io { cause } => ErrorModel::Io { cause: cause@ },
        }
    }
}

impl ErrorModel {
    /// The message of the error.
    pub open spec fn text(self) -> Seq<char> {
        match self {
            ErrorModel::StructInitialization => "Initialization of structs not supported"@,
            ErrorModel::ModuleNotFound { module_name, path } => "Module '"@ + module_name + "' not found: expected header file at '"@ + path + "'"@,
            ErrorModel::ModuleParseFailed { module_name, message } => "Failed to parse module '"@ + module_name + "': "@ + message,
            ErrorModel::DivisionByZero => "Division by zero in constant expression"@,
            ErrorModel::IntegerOverflow => "Integer overflow in constant expression"@,
            ErrorModel::VariableRedefinition { symbol } => "Duplicated definition of variable "@ + symbol,
            ErrorModel::ConflictedFunction { symbol } => "Conflicted definition of function "@ + symbol,
            ErrorModel::SymbolMissing => "Symbol missing"@,
            ErrorModel::DeclDefMismatch { symbol } => "Mismatched declaration and definition of "@ + symbol,
            ErrorModel::FunctionNotDefined { symbol } => "Function "@ + symbol + " not defined"@,
            ErrorModel::VariableNotDefined { symbol } => "Variable "@ + symbol + " not defined"@,
            ErrorModel::InvalidArrayExpression => "Invalid array expression"@,
            ErrorModel::InvalidReference { symbol } => "Reference operator '&' can only be applied to array variables, not '"@ + symbol + "'"@,
            ErrorModel::ArrayParameterNotAllowed { symbol } => "Array parameter '"@ + symbol + "' must be passed by reference: use &[T] instead of [T; N]"@,
            ErrorModel::ArrayUsedAsValue { symbol } => "Array '"@ + symbol + "' cannot be used as a value directly; use '&"@ + symbol + "' to pass by reference"@,
            ErrorModel::InvalidStructMemberExpression { expr } => "Invalid struct member expression "@ + expr.text(),
            ErrorModel::InvalidExprUnit { expr_unit } => "Invalid expression unit: "@ + expr_unit.text,
            ErrorModel::LocalVarDefinitionUnsupported => "Unsupported local variable definition"@,
            ErrorModel::FunctionCallUnsupported => "Unsupported function call"@,
            ErrorModel::InvalidContinueInst => "Invalid continue instruction"@,
            ErrorModel::InvalidBreakInst => "Invalid break instruction"@,
            ErrorModel::UnsupportedReturnType { .. } => "Unsupported return type"@,
            ErrorModel::UndefinedStructMemberType { struct_name, member_type } => "Struct type '"@ + member_type + "' used in struct '"@ + struct_name + "' is not defined"@,
            ErrorModel::TypeMismatch { symbol, expected, actual } => "Type mismatch for "@ + symbol + ": expected "@ + expected.text() + ", found "@ + actual.text(),
            ErrorModel::TypeNotDetermined { symbol } => "Type of "@ + symbol + " cannot be determined"@,
            ErrorModel::Io { .. } => "I/O error"@,
        }
    }
}

impl Error {
    /// The message of the error.
    pub fn to_text(&self) -> (s: String)
        ensures
            s@ == self@.text(),
    {
        match self {
            Error::StructInitialization => owned("Initialization of structs not supported"),
            Error::ModuleNotFound { module_name, path } => {
                let mut s = owned("Module '");
                s.append(module_name.as_str());
                s.append("' not found: expected header file at '");
                s.append(path.as_str());
                s.append("'");
                s
            },
            Error::ModuleParseFailed { module_name, message } => {
                let mut s = owned("Failed to parse module '");
                s.append(module_name.as_str());
                s.append("': ");
                s.append(message.as_str());
                s
            },
            Error::DivisionByZero => owned("Division by zero in constant expression"),
            Error::IntegerOverflow => owned("Integer overflow in constant expression"),
            Error::VariableRedefinition { symbol } => {
                let mut s = owned("Duplicated definition of variable ");
                s.append(symbol.as_str());
                s
            },
            Error::ConflictedFunction { symbol } => {
                let mut s = owned("Conflicted definition of function ");
                s.append(symbol.as_str());
                s
            },
            Error::SymbolMissing => owned("Symbol missing"),
            Error::DeclDefMismatch { symbol } => {
                let mut s = owned("Mismatched declaration and definition of ");
                s.append(symbol.as_str());
                s
            },
            Error::FunctionNotDefined { symbol } => {
                let mut s = owned("Function ");
                s.append(symbol.as_str());
                s.append(" not defined");
                s
            },
            Error::VariableNotDefined { symbol } => {
                let mut s = owned("Variable ");
                s.append(symbol.as_str());
                s.append(" not defined");
                s
            },
            Error::InvalidArrayExpression => owned("Invalid array expression"),
            Error::InvalidReference { symbol } => {
                let mut s = owned("Reference operator '&' can only be applied to array variables, not '");
                s.append(symbol.as_str());
                s.append("'");
                s
            },
            Error::ArrayParameterNotAllowed { symbol } => {
                let mut s = owned("Array parameter '");
                s.append(symbol.as_str());
                s.append("' must be passed by reference: use &[T] instead of [T; N]");
                s
            },
            Error::ArrayUsedAsValue { symbol } => {
                let mut s = owned("Array '");
                s.append(symbol.as_str());
                s.append("' cannot be used as a value directly; use '&");
                s.append(symbol.as_str());
                s.append("' to pass by reference");
                s
            },
            Error::InvalidStructMemberExpression { expr } => {
                let mut s = owned("Invalid struct member expression ");
                s.append(expr.to_text().as_str());
                s
            },
            Error::InvalidExprUnit { expr_unit } => {
                let mut s = owned("Invalid expression unit: ");
                s.append(expr_unit.to_text().as_str());
                s
            },
            Error::LocalVarDefinitionUnsupported => owned("Unsupported local variable definition"),
            Error::FunctionCallUnsupported => owned("Unsupported function call"),
            Error::InvalidContinueInst => owned("Invalid continue instruction"),
            Error::InvalidBreakInst => owned("Invalid break instruction"),
            Error::UnsupportedReturnType { .. } => owned("Unsupported return type"),
            Error::UndefinedStructMemberType { struct_name, member_type } => {
                let mut s = owned("Struct type '");
                s.append(member_type.as_str());
                s.append("' used in struct '");
                s.append(struct_name.as_str());
                s.append("' is not defined");
                s
            },
            Error::TypeMismatch { symbol, expected, actual } => {
                let mut s = owned("Type mismatch for ");
                s.append(symbol.as_str());
                s.append(": expected ");
                s.append(expected.to_text().as_str());
                s.append(", found ");
                s.append(actual.to_text().as_str());
                s
            },
            Error::TypeNotDetermined { symbol } => {
                let mut s = owned("Type of ");
                s.append(symbol.as_str());
                s.append(" cannot be determined");
                s
            },
            Error::Io { .. } => owned("I/O error"),
        }
    }
}

} // verus!
