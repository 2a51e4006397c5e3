//! Registers, operands, addresses and conditions.

use crate::backend::error::{plain, Error, ErrorModel};
use crate::ir::types::{Dtype, DtypeModel};
use vstd::prelude::*;

verus! {

/// The first integer argument register, which also holds integer results.
pub const REG_X0: u8 = 0;

/// How many integer arguments go in registers.
pub const NUM_INT_ARG_REGS: u8 = 8;

/// The first floating-point argument register, which also holds such results.
pub const REG_S0: u8 = 0;

/// How many floating-point arguments go in registers.
pub const NUM_FP_ARG_REGS: u8 = 8;

/// The first register that calls may change on the way.
pub const REG_IP0: u8 = 16;

/// The second register that calls may change on the way.
pub const REG_IP1: u8 = 17;

/// The frame pointer.
pub const REG_FP: u8 = 29;

/// The first register kept free for generated code.
pub const SCRATCH0: u8 = 16;

/// The second register kept free for generated code.
pub const SCRATCH1: u8 = 17;

/// A register.
#[derive(Debug, Clone, Copy, PartialEq, Eq, Hash, Structural)]
pub enum Register {
    /// A register still to be allocated.
    Virtual(usize),
    /// A register of the machine, by its number.
    Physical(u8),
    StackPointer,
}

/// The bank that a register belongs to.
#[derive(Debug, Clone, Copy, PartialEq, Eq, Hash, Structural)]
pub enum RegisterClass {
    /// General purpose.
    Gpr,
    /// Floating point.
    Fpr,
}

/// The width under which a register is accessed.
#[derive(Debug, Clone, Copy, PartialEq, Eq, Structural)]
pub enum RegisterSize {
    /// 32 bits, general purpose.
    W32,
    /// 64 bits, general purpose.
    X64,
    /// 32 bits, floating point.
    S32,
}

/// The bank of a width.
pub open spec fn class_of(size: RegisterSize) -> RegisterClass {
    match size {
        RegisterSize::S32 => RegisterClass::Fpr,
        _ => RegisterClass::Gpr,
    }
}

/// The width of a scalar type.
pub open spec fn register_size(d: DtypeModel) -> Result<RegisterSize, ErrorModel> {
    match d {
        DtypeModel::I1 => Ok(RegisterSize::W32),
        DtypeModel::I32 => Ok(RegisterSize::W32),
        DtypeModel::Pointer(_) => Ok(RegisterSize::X64),
        _ => Err(ErrorModel::UnsupportedDtype { dtype: d }),
    }
}

impl RegisterSize {
    /// The bank of the width.
    pub fn class(&self) -> (c: RegisterClass)
        ensures
            c == class_of(*self),
    {
        match self {
            RegisterSize::W32 => RegisterClass::Gpr,
            RegisterSize::X64 => RegisterClass::Gpr,
            RegisterSize::S32 => RegisterClass::Fpr,
        }
    }

    /// The width of a scalar type.
    pub fn try_from(dtype: &Dtype) -> (r: Result<RegisterSize, Error>)
        ensures
            plain(r) == register_size(dtype@),
    {
        match dtype {
            Dtype::I1 => Ok(RegisterSize::W32),
            Dtype::I32 => Ok(RegisterSize::W32),
            Dtype::Pointer { .. } => Ok(RegisterSize::X64),
            _ => Err(Error::UnsupportedDtype { dtype: dtype.clone() }),
        }
    }
}

/// An operation on integers.
#[derive(Debug, Clone, Copy, PartialEq, Eq, Structural)]
pub enum InstBinOp {
    Add,
    Sub,
    Mul,
    SDiv,
}

/// An operation on single-precision numbers.
#[derive(Debug, Clone, Copy, PartialEq, Eq, Structural)]
pub enum FBinOp {
    FAdd,
    FSub,
    FMul,
    FDiv,
}

/// The condition of a branch.
#[derive(Debug, Clone, Copy, PartialEq, Eq, Structural)]
pub enum Cond {
    Eq,
    Ne,
    Lt,
    Le,
    Gt,
    Ge,
}

/// A register or an immediate.
#[derive(Debug, Clone, Copy, PartialEq, Eq, Structural)]
pub enum InstOperand {
    Register(Register),
    Immediate(i64),
}

/// The address of a memory access.
#[derive(Debug)]
pub enum Addr {
    BaseOff { base: Register, offset: i64 },
    Global(String),
}

/// The mathematical model of an [`Addr`].
pub enum AddrModel {
    BaseOff { base: Register, offset: int },
    Global(Seq<char>),
}

impl View for Addr {
    type V = AddrModel;

    open spec fn view(&self) -> AddrModel {
        match *self {
            Addr::BaseOff { base, offset } => AddrModel::BaseOff { base, offset: offset as int },
            Addr::Global(sym) => AddrModel::Global(sym@),
        }
    }
}

impl Clone for Addr {
    fn clone(&self) -> (copy: Self)
        ensures
            copy == *self,
    {
        match self {
            Addr::BaseOff { base, offset } => Addr::BaseOff { base: *base, offset: *offset },
            Addr::Global(sym) => Addr::Global(sym.clone()),
        }
    }
}

} // verus!
