//! The printer of assembly.

use super::frame::SCRATCH_SPILL_SLOT;
use super::inst::{inst_models, InstModel, Instruction};
use super::lines::{
    AsmLine, MemOp, add_offset_lines, addr_printable, address_lines, addsub_encodable, all_printable, binop_lines, bits, bounced_index_lines, bounced_store_lines, chunk_lines, column_text, compare_lines, cond_text, epilogue_lines, fop_text, free_scratch, function_lines, functions_lines, gep_lines, global_lines, globals_lines, group_lines, imm_text, inst_lines, insts_lines, is_scratch, lea_lines, lines_text, load_lines, mem_text, mov_imm_lines, nameable, one_text, op_text, operand_nameable, other_scratch, printable, program_lines, prologue_lines, reg_text, restore_lines, save_lines, scaled_encodable, scaled_index_lines, scratch_or, shift_of, sp_lines, store_lines, symbol_lines, three_text, two_text, unscaled_encodable, via_scratch_lines, word_lines,
};
use super::types::{
    Addr, Cond, FBinOp, InstBinOp, InstOperand, Register, RegisterSize, REG_FP, SCRATCH0, SCRATCH1,
};
use super::{function_models, global_models, GeneratedFunction, GeneratedGlobal, GlobalData};
use crate::common::target::Target;
use crate::common::text::{group_text, i64_to_text, owned, u64_to_text};
use vstd::prelude::*;
use vstd::string::*;

verus! {

broadcast use {group_text, group_lines};

/// Collects the printed form of a program.
pub struct AsmPrinter {
    pub out: String,
    pub target: Target,
    /// Whether the current function uses floating-point registers.
    pub current_fn_uses_fp: bool,
}

impl AsmPrinter {
    /// Exactly the given lines have been printed since `before`.
    pub open spec fn printed(&self, before: &AsmPrinter, lines: Seq<AsmLine>) -> bool {
        &&& self.out@ == before.out@ + lines_text(lines)
        &&& self.target == before.target
        &&& self.current_fn_uses_fp == before.current_fn_uses_fp
    }

    /// A printer that has printed nothing.
    pub fn new(target: Target) -> (p: Self)
        ensures
            p.out@ == Seq::<char>::empty(),
            p.target == target,
            !p.current_fn_uses_fp,
    {
        AsmPrinter { out: String::new(), target, current_fn_uses_fp: false }
    }

    /// Notes whether the function to be printed uses floating-point registers.
    pub fn set_uses_fp(&mut self, uses_fp: bool)
        ensures
            final(self).out@ == old(self).out@,
            final(self).target == old(self).target,
            final(self).current_fn_uses_fp == uses_fp,
    {
        self.current_fn_uses_fp = uses_fp;
    }

    fn reg_name(r: Register, size: RegisterSize) -> (s: String)
        requires
            nameable(r, size),
        ensures
            s@ == reg_text(r, size),
    {
        match r {
            Register::Physical(n) => {
                if n == 31 {
                    match size {
                        RegisterSize::W32 => owned("wzr"),
                        _ => owned("xzr"),
                    }
                } else {
                    let mut s = match size {
                        RegisterSize::W32 => owned("w"),
                        RegisterSize::X64 => owned("x"),
                        RegisterSize::S32 => owned("s"),
                    };
                    s.append(u64_to_text(n as u64).as_str());
                    s
                }
            },
            _ => owned("sp"),
        }
    }

    fn op_mnemonic(op: InstBinOp) -> (s: &'static str)
        ensures
            s@ == op_text(op),
    {
        match op {
            InstBinOp::Add => "add",
            InstBinOp::Sub => "sub",
            InstBinOp::Mul => "mul",
            InstBinOp::SDiv => "sdiv",
        }
    }

    fn fop_mnemonic(op: FBinOp) -> (s: &'static str)
        ensures
            s@ == fop_text(op),
    {
        match op {
            FBinOp::FAdd => "fadd",
            FBinOp::FSub => "fsub",
            FBinOp::FMul => "fmul",
            FBinOp::FDiv => "fdiv",
        }
    }

    fn mem_mnemonic(op: MemOp) -> (s: &'static str)
        ensures
            s@ == mem_text(op),
    {
        match op {
            MemOp::Ldr => "ldr",
            MemOp::Str => "str",
            MemOp::Ldur => "ldur",
            MemOp::Stur => "stur",
        }
    }

    fn cond_suffix(c: Cond) -> (s: &'static str)
        ensures
            s@ == cond_text(c),
    {
        match c {
            Cond::Eq => "eq",
            Cond::Ne => "ne",
            Cond::Lt => "lt",
            Cond::Le => "le",
            Cond::Gt => "gt",
            Cond::Ge => "ge",
        }
    }

    fn imm_name(imm: i64) -> (s: String)
        ensures
            s@ == imm_text(imm as int),
    {
        let mut s = owned("#");
        s.append(i64_to_text(imm).as_str());
        s
    }

    fn is_addsub_imm_encodable(imm: i64) -> (b: bool)
        ensures
            b == addsub_encodable(imm as int),
    {
        if imm < 0 {
            return false;
        }
        if imm <= 4095 {
            return true;
        }
        let n: u64 = imm as u64;
        n % 4096 == 0 && n / 4096 <= 4095
    }

    fn is_ldr_str_offset_encodable(size: RegisterSize, offset: i64) -> (b: bool)
        ensures
            b == scaled_encodable(size, offset as int),
    {
        if offset < 0 {
            return false;
        }
        let scale: u64 = match size {
            RegisterSize::X64 => 8,
            _ => 4,
        };
        let n: u64 = offset as u64;
        n % scale == 0 && n / scale <= 4095
    }

    fn is_ldur_stur_offset_encodable(offset: i64) -> (b: bool)
        ensures
            b == unscaled_encodable(offset as int),
    {
        -256 <= offset && offset <= 255
    }

    fn scale_to_shift(scale: i64) -> (shift: Option<u8>)
        ensures
            match shift {
                Some(s) => shift_of(scale as int) == Some(s as nat),
                None => shift_of(scale as int) is None,
            },
    {
        if scale == 1 {
            Some(0)
        } else if scale == 2 {
            Some(1)
        } else if scale == 4 {
            Some(2)
        } else if scale == 8 {
            Some(3)
        } else {
            None
        }
    }

    fn scratch_in_use(a: Register, b: Register, scratch: u8) -> (used: bool)
        ensures
            used == (a == Register::Physical(scratch) || b == Register::Physical(scratch)),
    {
        a == Register::Physical(scratch) || b == Register::Physical(scratch)
    }

    fn pick_free_scratch(a: Register, b: Register) -> (r: Option<Register>)
        ensures
            r == free_scratch(a, b),
    {
        if !Self::scratch_in_use(a, b, SCRATCH0) {
            Some(Register::Physical(SCRATCH0))
        } else if !Self::scratch_in_use(a, b, SCRATCH1) {
            Some(Register::Physical(SCRATCH1))
        } else {
            None
        }
    }

    fn pick_other_scratch(r: Register) -> (s: Register)
        ensures
            s == other_scratch(r),
    {
        if r == Register::Physical(SCRATCH0) {
            Register::Physical(SCRATCH1)
        } else {
            Register::Physical(SCRATCH0)
        }
    }

    fn pick_scratch_or_clobber_dst(a: Register, b: Register, dst: Register) -> (r: Register)
        ensures
            r == scratch_or(a, b, dst),
    {
        match Self::pick_free_scratch(a, b) {
            Some(r) => r,
            None => dst,
        }
    }

    fn to_bits(n: i64) -> (b: u64)
        ensures
            b == bits(n as int),
    {
        if n >= 0 {
            n as u64
        } else {
            (n as i128 + 0x1_0000_0000_0000_0000i128) as u64
        }
    }

    fn put_one(&mut self, mn: &str, a: &str)
        ensures
            final(self).out@ == old(self).out@ + one_text(mn@, a@),
            final(self).target == old(self).target,
            final(self).current_fn_uses_fp == old(self).current_fn_uses_fp,
    {
        self.out.append("\t");
        self.out.append(mn);
        self.out.append(" ");
        self.out.append(a);
        self.out.append("\n");
    }

    fn put_two(&mut self, mn: &str, a: &str, b: &str)
        ensures
            final(self).out@ == old(self).out@ + two_text(mn@, a@, b@),
            final(self).target == old(self).target,
            final(self).current_fn_uses_fp == old(self).current_fn_uses_fp,
    {
        self.out.append("\t");
        self.out.append(mn);
        self.out.append(" ");
        self.out.append(a);
        self.out.append(", ");
        self.out.append(b);
        self.out.append("\n");
    }

    fn put_three(&mut self, mn: &str, a: &str, b: &str, c: &str)
        ensures
            final(self).out@ == old(self).out@ + three_text(mn@, a@, b@, c@),
            final(self).target == old(self).target,
            final(self).current_fn_uses_fp == old(self).current_fn_uses_fp,
    {
        self.out.append("\t");
        self.out.append(mn);
        self.out.append(" ");
        self.out.append(a);
        self.out.append(", ");
        self.out.append(b);
        self.out.append(", ");
        self.out.append(c);
        self.out.append("\n");
    }

    fn line_mov_imm(&mut self, size: RegisterSize, dst: Register, imm: i64)
        requires
            nameable(dst, size),
        ensures
            final(self).printed(old(self), seq![AsmLine::MovImm { size, dst, imm: imm as int }]),
    {
        proof {
            reveal(AsmLine::text);
        }
        self.put_two("mov", Self::reg_name(dst, size).as_str(), Self::imm_name(imm).as_str());
    }

    fn line_mov_reg(&mut self, size: RegisterSize, dst: Register, src: Register)
        requires
            nameable(dst, size),
            nameable(src, size),
        ensures
            final(self).printed(old(self), seq![AsmLine::MovReg { size, dst, src }]),
    {
        proof {
            reveal(AsmLine::text);
        }
        self.put_two("mov", Self::reg_name(dst, size).as_str(), Self::reg_name(src, size).as_str());
    }

    fn line_movz(&mut self, size: RegisterSize, dst: Register, imm: u16, shift: u8)
        requires
            nameable(dst, size),
        ensures
            final(self).printed(old(self), seq![AsmLine::MovZ { size, dst, imm: imm as nat, shift: shift as nat }]),
    {
        proof {
            reveal(AsmLine::text);
        }
        let imm_s = Self::imm_name(imm as i64);
        if shift == 0 {
            self.put_two("movz", Self::reg_name(dst, size).as_str(), imm_s.as_str());
        } else {
            let mut lsl = owned("lsl ");
            lsl.append(Self::imm_name(shift as i64).as_str());
            self.put_three("movz", Self::reg_name(dst, size).as_str(), imm_s.as_str(), lsl.as_str());
        }
    }

    fn line_movk(&mut self, size: RegisterSize, dst: Register, imm: u16, shift: u8)
        requires
            nameable(dst, size),
        ensures
            final(self).printed(old(self), seq![AsmLine::MovK { size, dst, imm: imm as nat, shift: shift as nat }]),
    {
        proof {
            reveal(AsmLine::text);
        }
        let imm_s = Self::imm_name(imm as i64);
        let mut lsl = owned("lsl ");
        lsl.append(Self::imm_name(shift as i64).as_str());
        self.put_three("movk", Self::reg_name(dst, size).as_str(), imm_s.as_str(), lsl.as_str());
    }

    fn line_op_imm(&mut self, op: InstBinOp, size: RegisterSize, dst: Register, lhs: Register, imm: i64)
        requires
            nameable(dst, size),
            nameable(lhs, size),
        ensures
            final(self).printed(old(self), seq![AsmLine::OpImm { op, size, dst, lhs, imm: imm as int }]),
    {
        proof {
            reveal(AsmLine::text);
        }
        self.put_three(
            Self::op_mnemonic(op),
            Self::reg_name(dst, size).as_str(),
            Self::reg_name(lhs, size).as_str(),
            Self::imm_name(imm).as_str(),
        );
    }

    fn line_op_reg(&mut self, op: InstBinOp, size: RegisterSize, dst: Register, lhs: Register, rhs: Register)
        requires
            nameable(dst, size),
            nameable(lhs, size),
            nameable(rhs, size),
        ensures
            final(self).printed(old(self), seq![AsmLine::OpReg { op, size, dst, lhs, rhs }]),
    {
        proof {
            reveal(AsmLine::text);
        }
        self.put_three(
            Self::op_mnemonic(op),
            Self::reg_name(dst, size).as_str(),
            Self::reg_name(lhs, size).as_str(),
            Self::reg_name(rhs, size).as_str(),
        );
    }

    fn line_mem(&mut self, op: MemOp, size: RegisterSize, reg: Register, base: Register, offset: i64)
        requires
            nameable(reg, size),
            nameable(base, RegisterSize::X64),
        ensures
            final(self).printed(old(self), seq![AsmLine::Mem { op, size, reg, base, offset: offset as int }]),
    {
        proof {
            reveal(AsmLine::text);
        }
        let mut place = owned("[");
        place.append(Self::reg_name(base, RegisterSize::X64).as_str());
        if offset != 0 {
            place.append(", ");
            place.append(Self::imm_name(offset).as_str());
        }
        place.append("]");
        self.put_two(Self::mem_mnemonic(op), Self::reg_name(reg, size).as_str(), place.as_str());
    }

    fn line_add_ext(&mut self, dst: Register, base: Register, index: Register, shift: u8)
        requires
            nameable(dst, RegisterSize::X64),
            nameable(base, RegisterSize::X64),
            nameable(index, RegisterSize::W32),
        ensures
            final(self).printed(old(self), seq![AsmLine::AddExt { dst, base, index, shift: shift as nat }]),
    {
        proof {
            reveal(AsmLine::text);
        }
        let mut last = Self::reg_name(index, RegisterSize::W32);
        last.append(", sxtw ");
        last.append(Self::imm_name(shift as i64).as_str());
        self.put_three("add", Self::reg_name(dst, RegisterSize::X64).as_str(), Self::reg_name(base, RegisterSize::X64).as_str(), last.as_str());
    }

    fn line_sxtw(&mut self, dst: Register, src: Register)
        requires
            nameable(dst, RegisterSize::X64),
            nameable(src, RegisterSize::W32),
        ensures
            final(self).printed(old(self), seq![AsmLine::Sxtw { dst, src }]),
    {
        proof {
            reveal(AsmLine::text);
        }
        self.put_two("sxtw", Self::reg_name(dst, RegisterSize::X64).as_str(), Self::reg_name(src, RegisterSize::W32).as_str());
    }

    fn line_compare_reg(&mut self, size: RegisterSize, lhs: Register, rhs: Register)
        requires
            nameable(lhs, size),
            nameable(rhs, size),
        ensures
            final(self).printed(old(self), seq![AsmLine::CmpReg { size, lhs, rhs }]),
    {
        proof {
            reveal(AsmLine::text);
        }
        self.put_two("cmp", Self::reg_name(lhs, size).as_str(), Self::reg_name(rhs, size).as_str());
    }

    fn line_compare_imm(&mut self, size: RegisterSize, lhs: Register, imm: i64)
        requires
            nameable(lhs, size),
        ensures
            final(self).printed(old(self), seq![AsmLine::CmpImm { size, lhs, imm: imm as int }]),
    {
        proof {
            reveal(AsmLine::text);
        }
        self.put_two("cmp", Self::reg_name(lhs, size).as_str(), Self::imm_name(imm).as_str());
    }

    /// Prints an operation on single-precision numbers.
    fn emit_fbinop(&mut self, op: FBinOp, dst: Register, lhs: Register, rhs: Register)
        requires
            nameable(dst, RegisterSize::S32),
            nameable(lhs, RegisterSize::S32),
            nameable(rhs, RegisterSize::S32),
        ensures
            final(self).printed(old(self), seq![AsmLine::FOp { op, dst, lhs, rhs }]),
    {
        proof {
            reveal(AsmLine::text);
        }
        self.put_three(
            Self::fop_mnemonic(op),
            Self::reg_name(dst, RegisterSize::S32).as_str(),
            Self::reg_name(lhs, RegisterSize::S32).as_str(),
            Self::reg_name(rhs, RegisterSize::S32).as_str(),
        );
    }

    /// Prints a comparison of single-precision numbers.
    fn emit_fcmp(&mut self, lhs: Register, rhs: Register)
        requires
            nameable(lhs, RegisterSize::S32),
            nameable(rhs, RegisterSize::S32),
        ensures
            final(self).printed(old(self), seq![AsmLine::FCmp { lhs, rhs }]),
    {
        proof {
            reveal(AsmLine::text);
        }
        self.put_two(
            "fcmp",
            Self::reg_name(lhs, RegisterSize::S32).as_str(),
            Self::reg_name(rhs, RegisterSize::S32).as_str(),
        );
    }

    /// Prints the conversion of an integer to a single-precision number.
    fn emit_scvtf(&mut self, dst: Register, src: Register)
        requires
            nameable(dst, RegisterSize::S32),
            nameable(src, RegisterSize::W32),
        ensures
            final(self).printed(old(self), seq![AsmLine::Scvtf { dst, src }]),
    {
        proof {
            reveal(AsmLine::text);
        }
        self.put_two(
            "scvtf",
            Self::reg_name(dst, RegisterSize::S32).as_str(),
            Self::reg_name(src, RegisterSize::W32).as_str(),
        );
    }

    /// Prints the conversion of a single-precision number to an integer.
    fn emit_fcvtzs(&mut self, dst: Register, src: Register)
        requires
            nameable(dst, RegisterSize::W32),
            nameable(src, RegisterSize::S32),
        ensures
            final(self).printed(old(self), seq![AsmLine::Fcvtzs { dst, src }]),
    {
        proof {
            reveal(AsmLine::text);
        }
        self.put_two(
            "fcvtzs",
            Self::reg_name(dst, RegisterSize::W32).as_str(),
            Self::reg_name(src, RegisterSize::S32).as_str(),
        );
    }

    fn line_page(&mut self, dst: Register, sym: &str)
        requires
            nameable(dst, RegisterSize::X64),
        ensures
            final(self).printed(
                old(self),
                seq![AsmLine::Page { target: old(self).target, dst, sym: sym@ }],
            ),
    {
        proof {
            reveal(AsmLine::text);
        }
        let mut place = owned(sym);
        if let Target::Macos = self.target {
            place.append("@PAGE");
        }
        self.put_two("adrp", Self::reg_name(dst, RegisterSize::X64).as_str(), place.as_str());
    }

    fn line_page_off(&mut self, dst: Register, sym: &str)
        requires
            nameable(dst, RegisterSize::X64),
        ensures
            final(self).printed(
                old(self),
                seq![AsmLine::PageOff { target: old(self).target, dst, sym: sym@ }],
            ),
    {
        proof {
            reveal(AsmLine::text);
        }
        let place = match self.target {
            Target::Macos => {
                let mut p = owned(sym);
                p.append("@PAGEOFF");
                p
            },
            Target::Linux => {
                let mut p = owned(":lo12:");
                p.append(sym);
                p
            },
        };
        self.put_three(
            "add ",
            Self::reg_name(dst, RegisterSize::X64).as_str(),
            Self::reg_name(dst, RegisterSize::X64).as_str(),
            place.as_str(),
        );
    }

    fn put_column(&mut self, n: u8)
        ensures
            final(self).out@ == old(self).out@ + column_text(n),
            final(self).target == old(self).target,
            final(self).current_fn_uses_fp == old(self).current_fn_uses_fp,
    {
        self.out.append("x");
        self.out.append(u64_to_text(n as u64).as_str());
        if n < 10 {
            self.out.append(",  ");
        } else {
            self.out.append(", ");
        }
    }

    fn line_push(&mut self, n: u8)
        ensures
            final(self).printed(old(self), seq![AsmLine::Push(n)]),
    {
        proof {
            reveal(AsmLine::text);
        }
        self.out.append("\tstr ");
        self.put_column(n);
        self.out.append("[sp, #-16]!\n");
    }

    fn line_pop(&mut self, n: u8)
        ensures
            final(self).printed(old(self), seq![AsmLine::Pop(n)]),
    {
        proof {
            reveal(AsmLine::text);
        }
        self.out.append("\tldr ");
        self.put_column(n);
        self.out.append("[sp], #16\n");
    }

    fn line_push_pair(&mut self, n: u8, m: u8)
        ensures
            final(self).printed(old(self), seq![AsmLine::PushPair(n, m)]),
    {
        proof {
            reveal(AsmLine::text);
        }
        self.out.append("\tstp ");
        self.put_column(n);
        self.out.append("x");
        self.out.append(u64_to_text(m as u64).as_str());
        self.out.append(", [sp, #-16]!\n");
    }

    fn line_pop_pair(&mut self, n: u8, m: u8)
        ensures
            final(self).printed(old(self), seq![AsmLine::PopPair(n, m)]),
    {
        proof {
            reveal(AsmLine::text);
        }
        self.out.append("\tldp ");
        self.put_column(n);
        self.out.append("x");
        self.out.append(u64_to_text(m as u64).as_str());
        self.out.append(", [sp], #16\n");
    }

    fn line_return(&mut self)
        ensures
            final(self).printed(old(self), seq![AsmLine::Return]),
    {
        proof {
            reveal(AsmLine::text);
        }
        self.out.append("\tret\n");
    }

    fn emit_label(&mut self, name: &str)
        ensures
            final(self).printed(old(self), seq![AsmLine::Label(name@)]),
    {
        proof {
            reveal(AsmLine::text);
        }
        self.out.append(name);
        self.out.append(":\n");
    }

    fn emit_global(&mut self, sym: &str)
        ensures
            final(self).printed(old(self), seq![AsmLine::Globl(sym@)]),
    {
        proof {
            reveal(AsmLine::text);
        }
        self.out.append(".globl ");
        self.out.append(sym);
        self.out.append("\n");
    }

    fn emit_align(&mut self, power: u32)
        ensures
            final(self).printed(old(self), seq![AsmLine::Align(power as nat)]),
    {
        proof {
            reveal(AsmLine::text);
        }
        self.out.append(".p2align ");
        self.out.append(u64_to_text(power as u64).as_str());
        self.out.append("\n");
    }

    fn emit_section(&mut self, name: &str)
        ensures
            final(self).printed(old(self), seq![AsmLine::Section(name@)]),
    {
        proof {
            reveal(AsmLine::text);
        }
        self.out.append(".");
        self.out.append(name);
        self.out.append("\n");
    }

    fn emit_word(&mut self, value: i64)
        ensures
            final(self).printed(old(self), seq![AsmLine::Word(value as int)]),
    {
        proof {
            reveal(AsmLine::text);
        }
        self.put_one(".word", i64_to_text(value).as_str());
    }

    fn emit_zero(&mut self, bytes: i64)
        ensures
            final(self).printed(old(self), seq![AsmLine::Zero(bytes as int)]),
    {
        proof {
            reveal(AsmLine::text);
        }
        self.put_one(".zero", i64_to_text(bytes).as_str());
    }

    fn emit_newline(&mut self)
        ensures
            final(self).printed(old(self), seq![AsmLine::Blank]),
    {
        proof {
            reveal(AsmLine::text);
        }
        self.out.append("\n");
    }

    fn emit_mov(&mut self, size: RegisterSize, dst: Register, src: InstOperand)
        requires
            nameable(dst, size),
            operand_nameable(src, size),
        ensures
            final(self).printed(
                old(self),
                inst_lines(old(self).target, InstModel::Mov { size, dst, src }),
            ),
    {
        match src {
            InstOperand::Immediate(imm) => self.line_mov_imm(size, dst, imm),
            InstOperand::Register(r) => self.line_mov_reg(size, dst, r),
        }
    }

    fn emit_chunk(
        &mut self,
        reg: Register,
        size: RegisterSize,
        c: u16,
        shift: u8,
        first: bool,
    ) -> (still_first: bool)
        requires
            nameable(reg, size),
            shift > 0,
        ensures
            final(self).printed(
                old(self),
                if c == 0 {
                    Seq::empty()
                } else if first {
                    seq![AsmLine::MovZ { size, dst: reg, imm: c as nat, shift: shift as nat }]
                } else {
                    seq![AsmLine::MovK { size, dst: reg, imm: c as nat, shift: shift as nat }]
                },
            ),
            still_first == (first && c == 0),
    {
        assert(self.out@ + Seq::<char>::empty() =~= self.out@);
        if c != 0 {
            if first {
                self.line_movz(size, reg, c, shift);
            } else {
                self.line_movk(size, reg, c, shift);
            }
            false
        } else {
            first
        }
    }

    fn emit_mov_imm(&mut self, reg: Register, size: RegisterSize, value: u64)
        requires
            nameable(reg, size),
        ensures
            final(self).printed(old(self), mov_imm_lines(reg, size, value as int)),
    {
        let is_32bit = match (reg, size) {
            (Register::Physical(_), RegisterSize::W32) => true,
            _ => false,
        };
        let value: u64 = if is_32bit {
            value % 0x1_0000_0000
        } else {
            value
        };
        if value <= 0xFFFF {
            self.line_mov_imm(size, reg, value as i64);
            return ;
        }
        let chunk0: u16 = (value % 0x1_0000) as u16;
        let chunk1: u16 = ((value / 0x1_0000) % 0x1_0000) as u16;
        let chunk2: u16 = ((value / 0x1_0000_0000) % 0x1_0000) as u16;
        let chunk3: u16 = ((value / 0x1_0000_0000_0000) % 0x1_0000) as u16;
        let ghost before = *self;
        proof {
            reveal_with_fuel(chunk_lines, 5);
        }
        let mut first = true;
        assert(self.out@ + Seq::<char>::empty() =~= self.out@);
        if chunk0 != 0 {
            self.line_movz(size, reg, chunk0, 0);
            first = false;
        }
        let first = self.emit_chunk(reg, size, chunk1, 16, first);
        if !is_32bit {
            let first = self.emit_chunk(reg, size, chunk2, 32, first);
            self.emit_chunk(reg, size, chunk3, 48, first);
        }
    }

    fn emit_op_via_imm_scratch(
        &mut self,
        op: InstBinOp,
        size: RegisterSize,
        dst: Register,
        lhs: Register,
        imm: u64,
    )
        requires
            nameable(dst, size),
            nameable(lhs, size),
        ensures
            final(self).printed(old(self), via_scratch_lines(op, size, dst, lhs, imm as int)),
    {
        let tmp = if dst != lhs {
            dst
        } else {
            Self::pick_other_scratch(dst)
        };
        self.emit_mov_imm(tmp, size, imm);
        self.line_op_reg(op, size, dst, lhs, tmp);
    }

    fn emit_binop(
        &mut self,
        op: InstBinOp,
        size: RegisterSize,
        dst: Register,
        lhs: Register,
        rhs: InstOperand,
    )
        requires
            printable(InstModel::BinOp { op, size, dst, lhs, rhs }, false),
        ensures
            final(self).printed(old(self), binop_lines(op, size, dst, lhs, rhs)),
    {
        match rhs {
            InstOperand::Register(r) => self.line_op_reg(op, size, dst, lhs, r),
            InstOperand::Immediate(imm) => match op {
                InstBinOp::Add | InstBinOp::Sub => {
                    let (actual, imm_abs): (InstBinOp, i64) = if imm < 0 {
                        (
                            match op {
                                InstBinOp::Add => InstBinOp::Sub,
                                _ => InstBinOp::Add,
                            },
                            -imm,
                        )
                    } else {
                        (op, imm)
                    };
                    if Self::is_addsub_imm_encodable(imm_abs) {
                        self.line_op_imm(actual, size, dst, lhs, imm_abs);
                    } else {
                        self.emit_op_via_imm_scratch(actual, size, dst, lhs, imm_abs as u64);
                    }
                },
                _ => self.emit_op_via_imm_scratch(op, size, dst, lhs, Self::to_bits(imm)),
            },
        }
    }

    fn emit_adrp_add(&mut self, dst: Register, sym: &str)
        requires
            nameable(dst, RegisterSize::X64),
        ensures
            final(self).printed(old(self), symbol_lines(old(self).target, dst, sym@)),
    {
        self.line_page(dst, sym);
        self.line_page_off(dst, sym);
    }

    fn emit_add_x_imm_with(
        &mut self,
        dst: Register,
        base: Register,
        offset: i64,
        scratch: Register,
    )
        requires
            nameable(dst, RegisterSize::X64),
            nameable(base, RegisterSize::X64),
            nameable(scratch, RegisterSize::X64),
            offset > i64::MIN,
        ensures
            final(self).printed(old(self), add_offset_lines(dst, base, offset as int, scratch)),
    {
        let imm_abs: i64 = if offset < 0 {
            -offset
        } else {
            offset
        };
        let op = if offset > 0 {
            InstBinOp::Add
        } else {
            InstBinOp::Sub
        };
        if offset == 0 {
            self.line_mov_reg(RegisterSize::X64, dst, base);
        } else if Self::is_addsub_imm_encodable(imm_abs) {
            self.line_op_imm(op, RegisterSize::X64, dst, base, imm_abs);
        } else {
            self.emit_mov_imm(scratch, RegisterSize::X64, imm_abs as u64);
            self.line_op_reg(op, RegisterSize::X64, dst, base, scratch);
        }
    }

    fn emit_move_sp(&mut self, op: InstBinOp, imm: i64)
        ensures
            final(self).printed(old(self), sp_lines(op, imm as int)),
    {
        assert(self.out@ + Seq::<char>::empty() =~= self.out@);
        let sp = Register::StackPointer;
        if imm == 0 {
            return ;
        }
        if Self::is_addsub_imm_encodable(imm) {
            self.line_op_imm(op, RegisterSize::X64, sp, sp, imm);
        } else {
            let scratch = Register::Physical(SCRATCH0);
            self.emit_mov_imm(scratch, RegisterSize::X64, Self::to_bits(imm));
            self.line_op_reg(op, RegisterSize::X64, sp, sp, scratch);
        }
    }

    fn emit_add_sp(&mut self, imm: i64)
        ensures
            final(self).printed(old(self), sp_lines(InstBinOp::Add, imm as int)),
    {
        self.emit_move_sp(InstBinOp::Add, imm);
    }

    fn emit_sub_sp(&mut self, imm: i64)
        ensures
            final(self).printed(old(self), sp_lines(InstBinOp::Sub, imm as int)),
    {
        self.emit_move_sp(InstBinOp::Sub, imm);
    }

    fn emit_address(&mut self, tmp: Register, base: Register, offset: i64)
        requires
            nameable(tmp, RegisterSize::X64),
            nameable(base, RegisterSize::X64),
            offset > i64::MIN,
        ensures
            final(self).printed(old(self), address_lines(tmp, base, offset as int)),
    {
        let (op, imm_abs): (InstBinOp, i64) = if offset < 0 {
            (InstBinOp::Sub, -offset)
        } else {
            (InstBinOp::Add, offset)
        };
        self.emit_mov_imm(tmp, RegisterSize::X64, imm_abs as u64);
        self.line_op_reg(op, RegisterSize::X64, tmp, base, tmp);
    }

    fn emit_bounced_store(
        &mut self,
        size: RegisterSize,
        reg: Register,
        base: Register,
        offset: i64,
    )
        requires
            nameable(reg, size),
            is_scratch(reg),
            is_scratch(base),
            offset > i64::MIN,
        ensures
            final(self).printed(
                old(self),
                bounced_store_lines(size, reg, base, offset as int),
            ),
    {
        let sp = Register::StackPointer;
        self.emit_sub_sp(SCRATCH_SPILL_SLOT);
        self.line_mem(MemOp::Str, size, reg, sp, 0);
        self.emit_address(reg, base, offset);
        self.line_mem(MemOp::Ldr, size, base, sp, 0);
        self.emit_add_sp(SCRATCH_SPILL_SLOT);
        self.line_mem(MemOp::Str, size, base, reg, 0);
    }

    fn emit_mem_access(&mut self, load: bool, size: RegisterSize, reg: Register, addr: &Addr)
        requires
            nameable(reg, size),
            addr_printable(addr@),
        ensures
            final(self).printed(
                old(self),
                if load {
                    load_lines(old(self).target, size, reg, addr@)
                } else {
                    store_lines(old(self).target, size, reg, addr@)
                },
            ),
    {
        let op = if load {
            MemOp::Ldr
        } else {
            MemOp::Str
        };
        match addr {
            Addr::BaseOff { base, offset } => {
                let base = *base;
                let offset: i64 = *offset;
                if offset == 0 {
                    self.line_mem(op, size, reg, base, 0);
                } else if Self::is_ldr_str_offset_encodable(size, offset) {
                    self.line_mem(op, size, reg, base, offset);
                } else if Self::is_ldur_stur_offset_encodable(offset) {
                    let unscaled = if load {
                        MemOp::Ldur
                    } else {
                        MemOp::Stur
                    };
                    self.line_mem(unscaled, size, reg, base, offset);
                } else if load {
                    self.emit_address(reg, base, offset);
                    self.line_mem(op, size, reg, reg, 0);
                } else {
                    match Self::pick_free_scratch(reg, base) {
                        Some(scratch) => {
                            self.emit_add_x_imm_with(scratch, base, offset, scratch);
                            self.line_mem(op, size, reg, scratch, 0);
                        },
                        None => self.emit_bounced_store(size, reg, base, offset),
                    }
                }
            },
            Addr::Global(sym) => {
                if load {
                    self.emit_adrp_add(reg, sym.as_str());
                    self.line_mem(op, size, reg, reg, 0);
                } else {
                    let scratch = Self::pick_other_scratch(reg);
                    self.emit_adrp_add(scratch, sym.as_str());
                    self.line_mem(op, size, reg, scratch, 0);
                }
            },
        }
    }

    fn emit_load(&mut self, size: RegisterSize, dst: Register, addr: &Addr)
        requires
            nameable(dst, size),
            addr_printable(addr@),
        ensures
            final(self).printed(
                old(self),
                load_lines(old(self).target, size, dst, addr@),
            ),
    {
        self.emit_mem_access(true, size, dst, addr);
    }

    fn emit_store(&mut self, size: RegisterSize, src: Register, addr: &Addr)
        requires
            nameable(src, size),
            addr_printable(addr@),
        ensures
            final(self).printed(
                old(self),
                store_lines(old(self).target, size, src, addr@),
            ),
    {
        self.emit_mem_access(false, size, src, addr);
    }

    fn emit_lea(&mut self, dst: Register, addr: &Addr)
        requires
            nameable(dst, RegisterSize::X64),
            addr_printable(addr@),
        ensures
            final(self).printed(old(self), lea_lines(old(self).target, dst, addr@)),
    {
        match addr {
            Addr::Global(sym) => self.emit_adrp_add(dst, sym.as_str()),
            Addr::BaseOff { base, offset } => {
                let scratch = Self::pick_scratch_or_clobber_dst(dst, *base, dst);
                self.emit_add_x_imm_with(dst, *base, *offset, scratch);
            },
        }
    }

    fn emit_scaled_index(&mut self, acc: Register, tmp: Register, index: Register, scale: i64)
        requires
            nameable(acc, RegisterSize::X64),
            nameable(tmp, RegisterSize::X64),
            nameable(index, RegisterSize::W32),
        ensures
            final(self).printed(old(self), scaled_index_lines(acc, tmp, index, scale as int)),
    {
        self.line_sxtw(acc, index);
        self.emit_mov_imm(tmp, RegisterSize::X64, Self::to_bits(scale));
        self.line_op_reg(InstBinOp::Mul, RegisterSize::X64, acc, acc, tmp);
    }

    fn emit_bounced_index(
        &mut self,
        acc: Register,
        tmp: Register,
        kept: Register,
        back: Register,
        index: Register,
        scale: i64,
    )
        requires
            nameable(acc, RegisterSize::X64),
            nameable(tmp, RegisterSize::X64),
            nameable(kept, RegisterSize::X64),
            nameable(back, RegisterSize::X64),
            nameable(index, RegisterSize::W32),
        ensures
            final(self).printed(
                old(self),
                bounced_index_lines(acc, tmp, kept, back, index, scale as int),
            ),
    {
        let sp = Register::StackPointer;
        self.emit_sub_sp(SCRATCH_SPILL_SLOT);
        self.line_mem(MemOp::Str, RegisterSize::X64, kept, sp, 0);
        self.emit_scaled_index(acc, tmp, index, scale);
        self.line_mem(MemOp::Ldr, RegisterSize::X64, back, sp, 0);
        self.emit_add_sp(SCRATCH_SPILL_SLOT);
    }

    fn emit_gep(&mut self, dst: Register, base: Register, index: InstOperand, scale: i64)
        requires
            printable(InstModel::Gep { dst, base, index, scale: scale as int }, false),
        ensures
            final(self).printed(old(self), gep_lines(dst, base, index, scale as int)),
    {
        match index {
            InstOperand::Immediate(i) => {
                let off: i64 = i * scale;
                let scratch = Self::pick_scratch_or_clobber_dst(dst, base, dst);
                self.emit_add_x_imm_with(dst, base, off, scratch);
            },
            InstOperand::Register(r) => {
                if let Some(shift) = Self::scale_to_shift(scale) {
                    self.line_add_ext(dst, base, r, shift);
                } else if dst != base {
                    match Self::pick_free_scratch(dst, base) {
                        Some(tmp) => self.emit_scaled_index(dst, tmp, r, scale),
                        None => self.emit_bounced_index(dst, base, base, base, r, scale),
                    }
                    self.line_op_reg(InstBinOp::Add, RegisterSize::X64, dst, base, dst);
                } else if base == Register::Physical(SCRATCH0) || base == Register::Physical(
                    SCRATCH1,
                ) {
                    let other = Self::pick_other_scratch(base);
                    self.emit_bounced_index(base, other, base, other, r, scale);
                    self.line_op_reg(InstBinOp::Add, RegisterSize::X64, dst, other, base);
                } else {
                    let s0 = Register::Physical(SCRATCH0);
                    let s1 = Register::Physical(SCRATCH1);
                    self.emit_scaled_index(s0, s1, r, scale);
                    self.line_op_reg(InstBinOp::Add, RegisterSize::X64, dst, base, s0);
                }
            },
        }
    }

    fn emit_cmp(&mut self, size: RegisterSize, lhs: Register, rhs: InstOperand)
        requires
            nameable(lhs, size),
            operand_nameable(rhs, size),
        ensures
            final(self).printed(old(self), compare_lines(size, lhs, rhs)),
    {
        match rhs {
            InstOperand::Register(r) => self.line_compare_reg(size, lhs, r),
            InstOperand::Immediate(imm) => {
                if Self::is_addsub_imm_encodable(imm) {
                    self.line_compare_imm(size, lhs, imm);
                } else {
                    let scratch = Self::pick_other_scratch(lhs);
                    self.emit_mov_imm(scratch, size, Self::to_bits(imm));
                    self.line_compare_reg(size, lhs, scratch);
                }
            },
        }
    }

    fn emit_save_caller_regs(&mut self)
        requires
            !old(self).current_fn_uses_fp,
        ensures
            final(self).printed(old(self), save_lines()),
    {
        self.line_push(15);
        self.line_push_pair(13, 14);
        self.line_push_pair(11, 12);
        self.line_push_pair(9, 10);
        self.line_push(8);
    }

    fn emit_restore_caller_regs(&mut self)
        requires
            !old(self).current_fn_uses_fp,
        ensures
            final(self).printed(old(self), restore_lines()),
    {
        self.line_pop(8);
        self.line_pop_pair(9, 10);
        self.line_pop_pair(11, 12);
        self.line_pop_pair(13, 14);
        self.line_pop(15);
    }

    fn emit_epilogue(&mut self)
        ensures
            final(self).printed(old(self), epilogue_lines()),
    {
        self.line_mov_reg(
            RegisterSize::X64,
            Register::StackPointer,
            Register::Physical(REG_FP),
        );
        self.line_pop_pair(29, 30);
        self.line_return();
    }

    fn emit_branch(&mut self, label: &str)
        ensures
            final(self).printed(old(self), seq![AsmLine::Branch { label: label@ }]),
    {
        proof {
            reveal(AsmLine::text);
        }
        self.put_one("b", label);
    }

    fn emit_branch_if(&mut self, cond: Cond, label: &str)
        ensures
            final(self).printed(old(self), seq![AsmLine::BranchIf { cond, label: label@ }]),
    {
        proof {
            reveal(AsmLine::text);
        }
        let mut mn = owned("b.");
        mn.append(Self::cond_suffix(cond));
        self.put_one(mn.as_str(), label);
    }

    fn emit_call(&mut self, func: &str)
        ensures
            final(self).printed(old(self), seq![AsmLine::Call { func: func@ }]),
    {
        proof {
            reveal(AsmLine::text);
        }
        self.put_one("bl", func);
    }

    fn emit_inst(&mut self, inst: &Instruction)
        requires
            printable(inst@, old(self).current_fn_uses_fp),
        ensures
            final(self).printed(old(self), inst_lines(old(self).target, inst@)),
    {
        match inst {
            Instruction::Label(name) => self.emit_label(name.as_str()),
            Instruction::Mov { size, dst, src } => self.emit_mov(*size, *dst, *src),
            Instruction::BinOp { op, size, dst, lhs, rhs } => self.emit_binop(
                *op,
                *size,
                *dst,
                *lhs,
                *rhs,
            ),
            Instruction::FBinOp { op, dst, lhs, rhs } => self.emit_fbinop(*op, *dst, *lhs, *rhs),
            Instruction::Ldr { size, dst, addr } => self.emit_load(*size, *dst, addr),
            Instruction::Str { size, src, addr } => self.emit_store(*size, *src, addr),
            Instruction::Lea { dst, addr } => self.emit_lea(*dst, addr),
            Instruction::Gep { dst, base, index, scale } => self.emit_gep(
                *dst,
                *base,
                *index,
                *scale,
            ),
            Instruction::Cmp { size, lhs, rhs } => self.emit_cmp(*size, *lhs, *rhs),
            Instruction::FCmp { lhs, rhs } => self.emit_fcmp(*lhs, *rhs),
            Instruction::Scvtf { dst, src } => self.emit_scvtf(*dst, *src),
            Instruction::Fcvtzs { dst, src } => self.emit_fcvtzs(*dst, *src),
            Instruction::Fmov { .. } => {},
            Instruction::B { label } => self.emit_branch(label.as_str()),
            Instruction::BCond { cond, label } => self.emit_branch_if(*cond, label.as_str()),
            Instruction::Bl { func } => self.emit_call(func.as_str()),
            Instruction::SaveCallerRegs => self.emit_save_caller_regs(),
            Instruction::RestoreCallerRegs => self.emit_restore_caller_regs(),
            Instruction::SubSp { imm } => self.emit_sub_sp(*imm),
            Instruction::AddSp { imm } => self.emit_add_sp(*imm),
            Instruction::Ret => self.emit_epilogue(),
        }
    }

    fn emit_insts(&mut self, insts: &Vec<Instruction>)
        requires
            all_printable(inst_models(insts@), old(self).current_fn_uses_fp),
        ensures
            final(self).printed(
                old(self),
                insts_lines(old(self).target, inst_models(insts@)),
            ),
    {
        let ghost models = inst_models(insts@);
        let ghost target = self.target;
        let mut i: usize = 0;
        assert(models.take(0) =~= Seq::empty());
        assert(self.out@ + Seq::<char>::empty() =~= self.out@);
        while i < insts.len()
            invariant
                i <= insts.len(),
                models == inst_models(insts@),
                target == old(self).target,
                all_printable(models, old(self).current_fn_uses_fp),
                self.printed(old(self), insts_lines(target, models.take(i as int))),
            decreases insts.len() - i,
        {
            assert(models.take(i + 1).drop_last() =~= models.take(i as int));
            assert(models.take(i + 1).last() == models[i as int]);
            self.emit_inst(&insts[i]);
            i = i + 1;
        }
        assert(models.take(i as int) =~= models);
    }

    fn emit_prologue(&mut self, frame_size: i64)
        ensures
            final(self).printed(old(self), prologue_lines(frame_size as int)),
    {
        self.line_push_pair(29, 30);
        self.line_mov_reg(
            RegisterSize::X64,
            Register::Physical(REG_FP),
            Register::StackPointer,
        );
        assert(self.out@ + Seq::<char>::empty() =~= self.out@);
        if frame_size > 0 {
            self.emit_sub_sp(frame_size);
        }
    }

    /// Prints a function.
    pub fn emit_function(&mut self, func: &GeneratedFunction)
        requires
            all_printable(func@.insts, func@.uses_fp),
        ensures
            final(self).out@ == old(self).out@ + lines_text(
                function_lines(old(self).target, func@),
            ),
            final(self).target == old(self).target,
            final(self).current_fn_uses_fp == func@.uses_fp,
    {
        self.emit_global(func.symbol.as_str());
        self.emit_align(2);
        self.emit_label(func.symbol.as_str());
        self.set_uses_fp(func.uses_fp);
        self.emit_prologue(func.frame_size);
        self.emit_insts(&func.insts);
        self.emit_newline();
    }

    fn emit_words(&mut self, words: &Vec<i64>)
        ensures
            final(self).printed(old(self), word_lines(words@)),
    {
        let ghost lines = word_lines(words@);
        let mut i: usize = 0;
        assert(lines.take(0) =~= Seq::empty());
        assert(self.out@ + Seq::<char>::empty() =~= self.out@);
        while i < words.len()
            invariant
                i <= words.len(),
                lines == word_lines(words@),
                self.printed(old(self), lines.take(i as int)),
            decreases words.len() - i,
        {
            assert(lines.take(i + 1) =~= lines.take(i as int).push(
                AsmLine::Word(words@[i as int] as int),
            ));
            self.emit_word(words[i]);
            i = i + 1;
        }
        assert(lines.take(i as int) =~= lines);
    }

    fn emit_global_def(&mut self, g: &GeneratedGlobal)
        ensures
            final(self).printed(old(self), global_lines(g@)),
    {
        self.emit_global(g.symbol.as_str());
        self.emit_align(2);
        self.emit_label(g.symbol.as_str());
        match &g.data {
            GlobalData::Word { value } => self.emit_word(*value),
            GlobalData::Array { words, zero_bytes } => {
                self.emit_words(words);
                if *zero_bytes > 0 {
                    self.emit_zero(*zero_bytes);
                }
            },
        }
    }

    fn emit_globals(&mut self, globals: &Vec<GeneratedGlobal>)
        ensures
            final(self).printed(old(self), globals_lines(global_models(globals@))),
    {
        let ghost models = global_models(globals@);
        let mut i: usize = 0;
        assert(models.take(0) =~= Seq::empty());
        assert(self.out@ + Seq::<char>::empty() =~= self.out@);
        while i < globals.len()
            invariant
                i <= globals.len(),
                models == global_models(globals@),
                self.printed(old(self), globals_lines(models.take(i as int))),
            decreases globals.len() - i,
        {
            assert(models.take(i + 1).drop_last() =~= models.take(i as int));
            assert(models.take(i + 1).last() == models[i as int]);
            self.emit_global_def(&globals[i]);
            i = i + 1;
        }
        assert(models.take(i as int) =~= models);
    }

    fn emit_functions(&mut self, functions: &Vec<GeneratedFunction>)
        requires
            forall|i: int|
                0 <= i < functions.len() ==> all_printable(
                    (#[trigger] functions@[i])@.insts,
                    functions@[i]@.uses_fp,
                ),
        ensures
            final(self).out@ == old(self).out@ + lines_text(
                functions_lines(old(self).target, function_models(functions@)),
            ),
            final(self).target == old(self).target,
    {
        let ghost models = function_models(functions@);
        let ghost target = self.target;
        let mut i: usize = 0;
        assert(models.take(0) =~= Seq::empty());
        assert(self.out@ + Seq::<char>::empty() =~= self.out@);
        while i < functions.len()
            invariant
                i <= functions.len(),
                models == function_models(functions@),
                target == old(self).target,
                self.target == target,
                self.out@ == old(self).out@ + lines_text(
                    functions_lines(target, models.take(i as int)),
                ),
                forall|j: int|
                    0 <= j < functions.len() ==> all_printable(
                        (#[trigger] functions@[j])@.insts,
                        functions@[j]@.uses_fp,
                    ),
            decreases functions.len() - i,
        {
            assert(models.take(i + 1).drop_last() =~= models.take(i as int));
            assert(models.take(i + 1).last() == models[i as int]);
            self.emit_function(&functions[i]);
            i = i + 1;
        }
        assert(models.take(i as int) =~= models);
    }

    /// Prints a program.
    pub fn emit_program(
        &mut self,
        globals: &Vec<GeneratedGlobal>,
        functions: &Vec<GeneratedFunction>,
    )
        requires
            forall|i: int|
                0 <= i < functions.len() ==> all_printable(
                    (#[trigger] functions@[i])@.insts,
                    functions@[i]@.uses_fp,
                ),
        ensures
            final(self).out@ == old(self).out@ + lines_text(
                program_lines(
                    old(self).target,
                    global_models(globals@),
                    function_models(functions@),
                ),
            ),
            final(self).target == old(self).target,
    {
        assert(self.out@ + Seq::<char>::empty() =~= self.out@);
        if globals.len() > 0 {
            self.emit_section("data");
            self.emit_globals(globals);
            self.emit_newline();
        }
        self.emit_section("text");
        self.emit_functions(functions);
    }
}

} // verus!
