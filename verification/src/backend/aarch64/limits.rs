//! The test that a function can be printed.

use super::inst::Instruction;
use super::lines::{addr_printable, all_printable, nameable, operand_nameable, printable};
use super::types::{Addr, InstBinOp, InstOperand, Register, RegisterSize};
use super::GeneratedFunction;
use vstd::prelude::*;

verus! {

/// Whether the register has a name under the width.
fn is_nameable(r: Register, size: RegisterSize) -> (b: bool)
    ensures
        b == nameable(r, size),
{
    match r {
        Register::Virtual(_) => false,
        Register::Physical(n) => !(n == 31 && size == RegisterSize::S32),
        Register::StackPointer => true,
    }
}

/// Whether the operand has a name.
fn is_operand_nameable(op: InstOperand, size: RegisterSize) -> (b: bool)
    ensures
        b == operand_nameable(op, size),
{
    match op {
        InstOperand::Register(r) => is_nameable(r, size),
        InstOperand::Immediate(_) => true,
    }
}

/// Whether the address can be printed.
fn is_addr_printable(addr: &Addr) -> (b: bool)
    ensures
        b == addr_printable(addr@),
{
    match addr {
        Addr::BaseOff { base, offset } => is_nameable(*base, RegisterSize::X64) && *offset
            > i64::MIN,
        Addr::Global(_) => true,
    }
}

/// Whether the distance of an element can be computed.
fn is_scalable(index: InstOperand, scale: i64) -> (b: bool)
    ensures
        b == (index matches InstOperand::Immediate(i) ==> i64::MIN < i * scale <= i64::MAX),
{
    match index {
        InstOperand::Immediate(i) => match i.checked_mul(scale) {
            Some(distance) => distance > i64::MIN,
            None => false,
        },
        InstOperand::Register(_) => true,
    }
}

/// Whether the instruction can be printed.
fn is_printable(inst: &Instruction, uses_fp: bool) -> (b: bool)
    ensures
        b == printable(inst@, uses_fp),
{
    let x = RegisterSize::X64;
    let w = RegisterSize::W32;
    let s = RegisterSize::S32;
    match inst {
        Instruction::Mov { size, dst, src } => is_nameable(*dst, *size) && is_operand_nameable(
            *src,
            *size,
        ),
        Instruction::BinOp { op, size, dst, lhs, rhs } => is_nameable(*dst, *size) && is_nameable(
            *lhs,
            *size,
        ) && is_operand_nameable(*rhs, *size) && match op {
            InstBinOp::Add | InstBinOp::Sub => *rhs != InstOperand::Immediate(i64::MIN),
            _ => true,
        },
        Instruction::FBinOp { dst, lhs, rhs, .. } => is_nameable(*dst, s) && is_nameable(*lhs, s)
            && is_nameable(*rhs, s),
        Instruction::Ldr { size, dst, addr } => is_nameable(*dst, *size) && is_addr_printable(addr),
        Instruction::Str { size, src, addr } => is_nameable(*src, *size) && is_addr_printable(addr),
        Instruction::Lea { dst, addr } => is_nameable(*dst, x) && is_addr_printable(addr),
        Instruction::Gep { dst, base, index, scale } => is_nameable(*dst, x) && is_nameable(
            *base,
            x,
        ) && is_operand_nameable(*index, w) && is_scalable(*index, *scale),
        Instruction::Cmp { size, lhs, rhs } => is_nameable(*lhs, *size) && is_operand_nameable(
            *rhs,
            *size,
        ),
        Instruction::FCmp { lhs, rhs } => is_nameable(*lhs, s) && is_nameable(*rhs, s),
        Instruction::Scvtf { dst, src } => is_nameable(*dst, s) && is_nameable(*src, w),
        Instruction::Fcvtzs { dst, src } => is_nameable(*dst, w) && is_nameable(*src, s),
        Instruction::Fmov { .. } => false,
        Instruction::SaveCallerRegs => !uses_fp,
        Instruction::RestoreCallerRegs => !uses_fp,
        _ => true,
    }
}

/// Whether all the instructions of a function can be printed.
pub fn can_print(f: &GeneratedFunction) -> (b: bool)
    ensures
        b == all_printable(f@.insts, f@.uses_fp),
{
    let mut i: usize = 0;
    while i < f.insts.len()
        invariant
            i <= f.insts.len(),
            forall|k: int| 0 <= k < i ==> printable(#[trigger] f@.insts[k], f@.uses_fp),
        decreases f.insts.len() - i,
    {
        assert(f@.insts[i as int] == f.insts@[i as int]@);
        if !is_printable(&f.insts[i], f.uses_fp) {
            return false;
        }
        i = i + 1;
    }
    true
}

} // verus!
