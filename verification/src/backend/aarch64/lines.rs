//! The lines of assembly, and the lines that every instruction becomes.
//!
//! An instruction becomes one or more lines.  Where an immediate or an
//! offset cannot be encoded, the lines compute it in a register that is free
//! at that point.

use super::frame::SCRATCH_SPILL_SLOT;
use super::inst::InstModel;
use super::types::{
    AddrModel, Cond, FBinOp, InstBinOp, InstOperand, Register, RegisterSize, REG_FP, SCRATCH0,
    SCRATCH1,
};
use super::{GlobalDataModel, GlobalModel, ProgramFunction};
use crate::common::target::Target;
use crate::common::text::{group_text, int_text, nat_text};
use vstd::prelude::*;
use vstd::string::*;

verus! {

broadcast use group_text;

/// An access to memory.
#[derive(Debug, Clone, Copy, PartialEq, Eq, Structural)]
pub enum MemOp {
    Ldr,
    Str,
    /// A load with an unscaled offset.
    Ldur,
    /// A store with an unscaled offset.
    Stur,
}

/// A line of assembly.
pub enum AsmLine {
    /// Puts an immediate in a register.
    MovImm { size: RegisterSize, dst: Register, imm: int },
    MovReg { size: RegisterSize, dst: Register, src: Register },
    /// Puts 16 bits at a position in a register, and zero in the others.
    MovZ { size: RegisterSize, dst: Register, imm: nat, shift: nat },
    /// Puts 16 bits at a position in a register, and keeps the others.
    MovK { size: RegisterSize, dst: Register, imm: nat, shift: nat },
    OpImm { op: InstBinOp, size: RegisterSize, dst: Register, lhs: Register, imm: int },
    OpReg { op: InstBinOp, size: RegisterSize, dst: Register, lhs: Register, rhs: Register },
    FOp { op: FBinOp, dst: Register, lhs: Register, rhs: Register },
    FCmp { lhs: Register, rhs: Register },
    Scvtf { dst: Register, src: Register },
    Fcvtzs { dst: Register, src: Register },
    Mem { op: MemOp, size: RegisterSize, reg: Register, base: Register, offset: int },
    /// Adds a sign-extended and shifted 32-bit index to a base.
    AddExt { dst: Register, base: Register, index: Register, shift: nat },
    /// Sign-extends 32 bits to 64.
    Sxtw { dst: Register, src: Register },
    CmpReg { size: RegisterSize, lhs: Register, rhs: Register },
    CmpImm { size: RegisterSize, lhs: Register, imm: int },
    /// The page of a symbol.
    Page { target: Target, dst: Register, sym: Seq<char> },
    /// Adds the offset of a symbol within its page.
    PageOff { target: Target, dst: Register, sym: Seq<char> },
    Branch { label: Seq<char> },
    BranchIf { cond: Cond, label: Seq<char> },
    Call { func: Seq<char> },
    Return,
    Push(u8),
    PushPair(u8, u8),
    Pop(u8),
    PopPair(u8, u8),
    Label(Seq<char>),
    Globl(Seq<char>),
    Align(nat),
    Section(Seq<char>),
    Word(int),
    Zero(int),
    Blank,
}

/// The name of a register under a width.
pub open spec fn reg_text(r: Register, size: RegisterSize) -> Seq<char> {
    match r {
        Register::Physical(n) => if n == 31 {
            match size {
                RegisterSize::W32 => "wzr"@,
                _ => "xzr"@,
            }
        } else {
            match size {
                RegisterSize::W32 => "w"@ + nat_text(n as nat),
                RegisterSize::X64 => "x"@ + nat_text(n as nat),
                RegisterSize::S32 => "s"@ + nat_text(n as nat),
            }
        },
        _ => "sp"@,
    }
}

/// The register has a name under the width: it is not virtual, and it is not
/// the zero register as a floating-point register.
pub open spec fn nameable(r: Register, size: RegisterSize) -> bool {
    match r {
        Register::Virtual(_) => false,
        Register::Physical(n) => !(n == 31 && size is S32),
        Register::StackPointer => true,
    }
}

/// The mnemonic of an operation.
pub open spec fn op_text(op: InstBinOp) -> Seq<char> {
    match op {
        InstBinOp::Add => "add"@,
        InstBinOp::Sub => "sub"@,
        InstBinOp::Mul => "mul"@,
        InstBinOp::SDiv => "sdiv"@,
    }
}

/// The mnemonic of an operation on single-precision numbers.
pub open spec fn fop_text(op: FBinOp) -> Seq<char> {
    match op {
        FBinOp::FAdd => "fadd"@,
        FBinOp::FSub => "fsub"@,
        FBinOp::FMul => "fmul"@,
        FBinOp::FDiv => "fdiv"@,
    }
}

/// The mnemonic of a memory access.
pub open spec fn mem_text(op: MemOp) -> Seq<char> {
    match op {
        MemOp::Ldr => "ldr"@,
        MemOp::Str => "str"@,
        MemOp::Ldur => "ldur"@,
        MemOp::Stur => "stur"@,
    }
}

/// The suffix of a condition.
pub open spec fn cond_text(c: Cond) -> Seq<char> {
    match c {
        Cond::Eq => "eq"@,
        Cond::Ne => "ne"@,
        Cond::Lt => "lt"@,
        Cond::Le => "le"@,
        Cond::Gt => "gt"@,
        Cond::Ge => "ge"@,
    }
}

/// An immediate.
pub open spec fn imm_text(imm: int) -> Seq<char> {
    "#"@ + int_text(imm)
}

/// A line with one operand.
pub open spec fn one_text(mn: Seq<char>, a: Seq<char>) -> Seq<char> {
    "\t"@ + mn + " "@ + a + "\n"@
}

/// A line with two operands.
pub open spec fn two_text(mn: Seq<char>, a: Seq<char>, b: Seq<char>) -> Seq<char> {
    "\t"@ + mn + " "@ + a + ", "@ + b + "\n"@
}

/// A line with three operands.
pub open spec fn three_text(mn: Seq<char>, a: Seq<char>, b: Seq<char>, c: Seq<char>) -> Seq<
    char,
> {
    "\t"@ + mn + " "@ + a + ", "@ + b + ", "@ + c + "\n"@
}

/// A memory operand.
pub open spec fn mem_operand_text(base: Register, offset: int) -> Seq<char> {
    if offset == 0 {
        "["@ + reg_text(base, RegisterSize::X64) + "]"@
    } else {
        "["@ + reg_text(base, RegisterSize::X64) + ", "@ + imm_text(offset) + "]"@
    }
}

/// A 64-bit register and the comma behind it, aligned in columns.
pub open spec fn column_text(n: u8) -> Seq<char> {
    if n < 10 {
        "x"@ + nat_text(n as nat) + ",  "@
    } else {
        "x"@ + nat_text(n as nat) + ", "@
    }
}

impl AsmLine {
    /// The line as it is printed.
    #[verifier::opaque]
    pub open spec fn text(self) -> Seq<char> {
        match self {
            AsmLine::MovImm { size, dst, imm } => two_text(
                "mov"@,
                reg_text(dst, size),
                imm_text(imm),
            ),
            AsmLine::MovReg { size, dst, src } => two_text(
                "mov"@,
                reg_text(dst, size),
                reg_text(src, size),
            ),
            AsmLine::MovZ { size, dst, imm, shift } => if shift == 0 {
                two_text("movz"@, reg_text(dst, size), imm_text(imm as int))
            } else {
                three_text(
                    "movz"@,
                    reg_text(dst, size),
                    imm_text(imm as int),
                    "lsl "@ + imm_text(shift as int),
                )
            },
            AsmLine::MovK { size, dst, imm, shift } => three_text(
                "movk"@,
                reg_text(dst, size),
                imm_text(imm as int),
                "lsl "@ + imm_text(shift as int),
            ),
            AsmLine::OpImm { op, size, dst, lhs, imm } => three_text(
                op_text(op),
                reg_text(dst, size),
                reg_text(lhs, size),
                imm_text(imm),
            ),
            AsmLine::OpReg { op, size, dst, lhs, rhs } => three_text(
                op_text(op),
                reg_text(dst, size),
                reg_text(lhs, size),
                reg_text(rhs, size),
            ),
            AsmLine::FOp { op, dst, lhs, rhs } => three_text(
                fop_text(op),
                reg_text(dst, RegisterSize::S32),
                reg_text(lhs, RegisterSize::S32),
                reg_text(rhs, RegisterSize::S32),
            ),
            AsmLine::FCmp { lhs, rhs } => two_text(
                "fcmp"@,
                reg_text(lhs, RegisterSize::S32),
                reg_text(rhs, RegisterSize::S32),
            ),
            AsmLine::Scvtf { dst, src } => two_text(
                "scvtf"@,
                reg_text(dst, RegisterSize::S32),
                reg_text(src, RegisterSize::W32),
            ),
            AsmLine::Fcvtzs { dst, src } => two_text(
                "fcvtzs"@,
                reg_text(dst, RegisterSize::W32),
                reg_text(src, RegisterSize::S32),
            ),
            AsmLine::Mem { op, size, reg, base, offset } => two_text(
                mem_text(op),
                reg_text(reg, size),
                mem_operand_text(base, offset),
            ),
            AsmLine::AddExt { dst, base, index, shift } => three_text(
                "add"@,
                reg_text(dst, RegisterSize::X64),
                reg_text(base, RegisterSize::X64),
                reg_text(index, RegisterSize::W32) + ", sxtw "@ + imm_text(shift as int),
            ),
            AsmLine::Sxtw { dst, src } => two_text(
                "sxtw"@,
                reg_text(dst, RegisterSize::X64),
                reg_text(src, RegisterSize::W32),
            ),
            AsmLine::CmpReg { size, lhs, rhs } => two_text(
                "cmp"@,
                reg_text(lhs, size),
                reg_text(rhs, size),
            ),
            AsmLine::CmpImm { size, lhs, imm } => two_text(
                "cmp"@,
                reg_text(lhs, size),
                imm_text(imm),
            ),
            AsmLine::Page { target, dst, sym } => two_text(
                "adrp"@,
                reg_text(dst, RegisterSize::X64),
                match target {
                    Target::Macos => sym + "@PAGE"@,
                    Target::Linux => sym,
                },
            ),
            AsmLine::PageOff { target, dst, sym } => three_text(
                "add "@,
                reg_text(dst, RegisterSize::X64),
                reg_text(dst, RegisterSize::X64),
                match target {
                    Target::Macos => sym + "@PAGEOFF"@,
                    Target::Linux => ":lo12:"@ + sym,
                },
            ),
            AsmLine::Branch { label } => one_text("b"@, label),
            AsmLine::BranchIf { cond, label } => one_text("b."@ + cond_text(cond), label),
            AsmLine::Call { func } => one_text("bl"@, func),
            AsmLine::Return => "\tret\n"@,
            AsmLine::Push(n) => "\tstr "@ + column_text(n) + "[sp, #-16]!\n"@,
            AsmLine::PushPair(n, m) => "\tstp "@ + column_text(n) + "x"@ + nat_text(m as nat)
                + ", [sp, #-16]!\n"@,
            AsmLine::Pop(n) => "\tldr "@ + column_text(n) + "[sp], #16\n"@,
            AsmLine::PopPair(n, m) => "\tldp "@ + column_text(n) + "x"@ + nat_text(m as nat)
                + ", [sp], #16\n"@,
            AsmLine::Label(name) => name + ":\n"@,
            AsmLine::Globl(name) => ".globl "@ + name + "\n"@,
            AsmLine::Align(power) => ".p2align "@ + nat_text(power) + "\n"@,
            AsmLine::Section(name) => "."@ + name + "\n"@,
            AsmLine::Word(value) => one_text(".word"@, int_text(value)),
            AsmLine::Zero(bytes) => one_text(".zero"@, int_text(bytes)),
            AsmLine::Blank => "\n"@,
        }
    }
}

/// The lines, one after the other.
#[verifier::opaque]
pub open spec fn lines_text(lines: Seq<AsmLine>) -> Seq<char>
    decreases lines.len(),
{
    if lines.len() == 0 {
        Seq::empty()
    } else {
        lines_text(lines.drop_last()) + lines.last().text()
    }
}

/// No line has no text.
pub broadcast proof fn lemma_no_lines()
    ensures
        #[trigger] lines_text(Seq::empty()) == Seq::<char>::empty(),
{
    reveal(lines_text);
}

/// A line more adds its text.
pub broadcast proof fn lemma_one_line_more(lines: Seq<AsmLine>, line: AsmLine)
    ensures
        #[trigger] lines_text(lines.push(line)) == lines_text(lines) + line.text(),
{
    reveal(lines_text);
    assert(lines.push(line).drop_last() =~= lines);
}

/// The text of two lists of lines is the text of one behind the other.
pub broadcast proof fn lemma_lines_concat(a: Seq<AsmLine>, b: Seq<AsmLine>)
    ensures
        #[trigger] lines_text(a + b) == lines_text(a) + lines_text(b),
    decreases b.len(),
{
    reveal(lines_text);
    if b.len() == 0 {
        assert(a + b =~= a);
        assert(lines_text(a) + Seq::<char>::empty() =~= lines_text(a));
    } else {
        lemma_lines_concat(a, b.drop_last());
        assert((a + b).drop_last() =~= a + b.drop_last());
    }
}

pub broadcast group group_lines {
    lemma_no_lines,
    lemma_one_line_more,
    lemma_lines_concat,
}

/// The immediate fits in an addition or subtraction: 12 bits, or 12 bits
/// shifted by 12.
pub open spec fn addsub_encodable(imm: int) -> bool {
    0 <= imm <= 4095 || (0 <= imm && imm % 4096 == 0 && imm / 4096 <= 4095)
}

/// The offset fits in a load or store: 12 bits, scaled by the width.
pub open spec fn scaled_encodable(size: RegisterSize, offset: int) -> bool {
    let scale: int = if size is X64 {
        8
    } else {
        4
    };
    offset >= 0 && offset % scale == 0 && offset / scale <= 4095
}

/// The offset fits in a load or store with an unscaled offset.
pub open spec fn unscaled_encodable(offset: int) -> bool {
    -256 <= offset <= 255
}

/// The number of bits by which an index is shifted, for a scale that is a
/// power of two up to eight.
pub open spec fn shift_of(scale: int) -> Option<nat> {
    if scale == 1 {
        Some(0)
    } else if scale == 2 {
        Some(1)
    } else if scale == 4 {
        Some(2)
    } else if scale == 8 {
        Some(3)
    } else {
        None
    }
}

/// A scratch register other than `a` and `b`.
pub open spec fn free_scratch(a: Register, b: Register) -> Option<Register> {
    let s0 = Register::Physical(SCRATCH0);
    let s1 = Register::Physical(SCRATCH1);
    if a != s0 && b != s0 {
        Some(s0)
    } else if a != s1 && b != s1 {
        Some(s1)
    } else {
        None
    }
}

/// A scratch register other than `r`.
pub open spec fn other_scratch(r: Register) -> Register {
    if r == Register::Physical(SCRATCH0) {
        Register::Physical(SCRATCH1)
    } else {
        Register::Physical(SCRATCH0)
    }
}

/// The absolute value.
pub open spec fn magnitude(n: int) -> int {
    if n < 0 {
        -n
    } else {
        n
    }
}

/// The 64 bits of a number, as a number that is not negative.
pub open spec fn bits(n: int) -> int {
    if n < 0 {
        n + 0x1_0000_0000_0000_0000
    } else {
        n
    }
}

/// The register is written as a 32-bit register.
pub open spec fn narrow(r: Register, size: RegisterSize) -> bool {
    size is W32 && r is Physical
}

/// What of a number a register holds.
pub open spec fn held(r: Register, size: RegisterSize, value: int) -> int {
    if narrow(r, size) {
        value % 0x1_0000_0000
    } else {
        value
    }
}

/// The 16 bits of a number at position `i`.
pub open spec fn chunk(value: int, i: int) -> int {
    if i == 0 {
        value % 0x1_0000
    } else if i == 1 {
        (value / 0x1_0000) % 0x1_0000
    } else if i == 2 {
        (value / 0x1_0000_0000) % 0x1_0000
    } else {
        (value / 0x1_0000_0000_0000) % 0x1_0000
    }
}

/// The lines that put the chunks of a number from position `i` on in a
/// register: the first that is not zero clears the others.
pub open spec fn chunk_lines(
    dst: Register,
    size: RegisterSize,
    value: int,
    i: int,
    first: bool,
) -> Seq<AsmLine>
    decreases 4 - i,
{
    if i >= 4 {
        Seq::empty()
    } else {
        let c = chunk(value, i);
        if c == 0 {
            chunk_lines(dst, size, value, i + 1, first)
        } else if first {
            seq![AsmLine::MovZ { size, dst, imm: c as nat, shift: (16 * i) as nat }] + chunk_lines(
                dst,
                size,
                value,
                i + 1,
                false,
            )
        } else {
            seq![AsmLine::MovK { size, dst, imm: c as nat, shift: (16 * i) as nat }] + chunk_lines(
                dst,
                size,
                value,
                i + 1,
                false,
            )
        }
    }
}

/// The lines that put a number in a register.
pub open spec fn mov_imm_lines(dst: Register, size: RegisterSize, value: int) -> Seq<AsmLine> {
    let v = held(dst, size, value);
    if v <= 0xFFFF {
        seq![AsmLine::MovImm { size, dst, imm: v }]
    } else {
        chunk_lines(dst, size, v, 0, true)
    }
}

/// The lines of an operation whose right operand is put in a register first:
/// in the destination, or in a scratch register when that is the left operand.
pub open spec fn via_scratch_lines(
    op: InstBinOp,
    size: RegisterSize,
    dst: Register,
    lhs: Register,
    value: int,
) -> Seq<AsmLine> {
    let tmp = if dst != lhs {
        dst
    } else {
        other_scratch(dst)
    };
    mov_imm_lines(tmp, size, value).push(AsmLine::OpReg { op, size, dst, lhs, rhs: tmp })
}

/// The lines of an addition or subtraction of an immediate.
pub open spec fn addsub_lines(
    op: InstBinOp,
    size: RegisterSize,
    dst: Register,
    lhs: Register,
    imm: int,
) -> Seq<AsmLine> {
    let actual = if imm >= 0 {
        op
    } else if op is Add {
        InstBinOp::Sub
    } else {
        InstBinOp::Add
    };
    if addsub_encodable(magnitude(imm)) {
        seq![AsmLine::OpImm { op: actual, size, dst, lhs, imm: magnitude(imm) }]
    } else {
        via_scratch_lines(actual, size, dst, lhs, magnitude(imm))
    }
}

/// The lines of an operation on integers.
pub open spec fn binop_lines(
    op: InstBinOp,
    size: RegisterSize,
    dst: Register,
    lhs: Register,
    rhs: InstOperand,
) -> Seq<AsmLine> {
    match rhs {
        InstOperand::Register(r) => seq![AsmLine::OpReg { op, size, dst, lhs, rhs: r }],
        InstOperand::Immediate(imm) => if op is Add || op is Sub {
            addsub_lines(op, size, dst, lhs, imm as int)
        } else {
            via_scratch_lines(op, size, dst, lhs, bits(imm as int))
        },
    }
}

/// The lines that add an offset to a base, by way of `scratch` if need be.
pub open spec fn add_offset_lines(
    dst: Register,
    base: Register,
    offset: int,
    scratch: Register,
) -> Seq<AsmLine> {
    let size = RegisterSize::X64;
    let op = if offset > 0 {
        InstBinOp::Add
    } else {
        InstBinOp::Sub
    };
    if offset == 0 {
        seq![AsmLine::MovReg { size, dst, src: base }]
    } else if addsub_encodable(magnitude(offset)) {
        seq![AsmLine::OpImm { op, size, dst, lhs: base, imm: magnitude(offset) }]
    } else {
        mov_imm_lines(scratch, size, magnitude(offset)).push(
            AsmLine::OpReg { op, size, dst, lhs: base, rhs: scratch },
        )
    }
}

/// The lines that put the address of a symbol in a register.
pub open spec fn symbol_lines(target: Target, dst: Register, sym: Seq<char>) -> Seq<AsmLine> {
    seq![AsmLine::Page { target, dst, sym }].push(AsmLine::PageOff { target, dst, sym })
}

/// The lines that move the stack pointer: up for an addition, down for a
/// subtraction.
pub open spec fn sp_lines(op: InstBinOp, imm: int) -> Seq<AsmLine> {
    let size = RegisterSize::X64;
    let sp = Register::StackPointer;
    let scratch = Register::Physical(SCRATCH0);
    if imm == 0 {
        Seq::empty()
    } else if addsub_encodable(imm) {
        seq![AsmLine::OpImm { op, size, dst: sp, lhs: sp, imm }]
    } else {
        mov_imm_lines(scratch, size, bits(imm)).push(
            AsmLine::OpReg { op, size, dst: sp, lhs: sp, rhs: scratch },
        )
    }
}

/// The lines that compute `base + offset` in `tmp`, which may be the target
/// of the load that follows.
pub open spec fn address_lines(tmp: Register, base: Register, offset: int) -> Seq<AsmLine> {
    let op = if offset < 0 {
        InstBinOp::Sub
    } else {
        InstBinOp::Add
    };
    mov_imm_lines(tmp, RegisterSize::X64, magnitude(offset)).push(
        AsmLine::OpReg { op, size: RegisterSize::X64, dst: tmp, lhs: base, rhs: tmp },
    )
}

/// The lines of a store to an offset that cannot be encoded, when both
/// scratch registers are taken: the value waits on the stack while its
/// register holds the address, and comes back in the register of the base.
pub open spec fn bounced_store_lines(
    size: RegisterSize,
    reg: Register,
    base: Register,
    offset: int,
) -> Seq<AsmLine> {
    let sp = Register::StackPointer;
    sp_lines(InstBinOp::Sub, SCRATCH_SPILL_SLOT as int) + seq![
        AsmLine::Mem { op: MemOp::Str, size, reg, base: sp, offset: 0 },
    ] + address_lines(reg, base, offset) + seq![
        AsmLine::Mem { op: MemOp::Ldr, size, reg: base, base: sp, offset: 0 },
    ] + sp_lines(InstBinOp::Add, SCRATCH_SPILL_SLOT as int) + seq![
        AsmLine::Mem { op: MemOp::Str, size, reg: base, base: reg, offset: 0 },
    ]
}

/// The lines of a load.
pub open spec fn load_lines(
    target: Target,
    size: RegisterSize,
    reg: Register,
    addr: AddrModel,
) -> Seq<AsmLine> {
    match addr {
        AddrModel::BaseOff { base, offset } => if offset == 0 || scaled_encodable(size, offset) {
            seq![AsmLine::Mem { op: MemOp::Ldr, size, reg, base, offset }]
        } else if unscaled_encodable(offset) {
            seq![AsmLine::Mem { op: MemOp::Ldur, size, reg, base, offset }]
        } else {
            address_lines(reg, base, offset).push(
                AsmLine::Mem { op: MemOp::Ldr, size, reg, base: reg, offset: 0 },
            )
        },
        AddrModel::Global(sym) => symbol_lines(target, reg, sym).push(
            AsmLine::Mem { op: MemOp::Ldr, size, reg, base: reg, offset: 0 },
        ),
    }
}

/// The lines of a store.
pub open spec fn store_lines(
    target: Target,
    size: RegisterSize,
    reg: Register,
    addr: AddrModel,
) -> Seq<AsmLine> {
    match addr {
        AddrModel::BaseOff { base, offset } => if offset == 0 || scaled_encodable(size, offset) {
            seq![AsmLine::Mem { op: MemOp::Str, size, reg, base, offset }]
        } else if unscaled_encodable(offset) {
            seq![AsmLine::Mem { op: MemOp::Stur, size, reg, base, offset }]
        } else {
            match free_scratch(reg, base) {
                Some(scratch) => add_offset_lines(scratch, base, offset, scratch).push(
                    AsmLine::Mem { op: MemOp::Str, size, reg, base: scratch, offset: 0 },
                ),
                None => bounced_store_lines(size, reg, base, offset),
            }
        },
        AddrModel::Global(sym) => {
            let scratch = other_scratch(reg);
            symbol_lines(target, scratch, sym).push(
                AsmLine::Mem { op: MemOp::Str, size, reg, base: scratch, offset: 0 },
            )
        },
    }
}

/// A scratch register other than `a` and `b`, or `dst` when there is none.
pub open spec fn scratch_or(a: Register, b: Register, dst: Register) -> Register {
    match free_scratch(a, b) {
        Some(r) => r,
        None => dst,
    }
}

/// The lines that compute an address.
pub open spec fn lea_lines(target: Target, dst: Register, addr: AddrModel) -> Seq<AsmLine> {
    match addr {
        AddrModel::Global(sym) => symbol_lines(target, dst, sym),
        AddrModel::BaseOff { base, offset } => add_offset_lines(
            dst,
            base,
            offset,
            scratch_or(dst, base, dst),
        ),
    }
}

/// The lines that multiply the sign-extended index by the scale in `acc`, by
/// way of `tmp`.
pub open spec fn scaled_index_lines(
    acc: Register,
    tmp: Register,
    index: Register,
    scale: int,
) -> Seq<AsmLine> {
    let size = RegisterSize::X64;
    (seq![AsmLine::Sxtw { dst: acc, src: index }] + mov_imm_lines(tmp, size, bits(scale))).push(
        AsmLine::OpReg { op: InstBinOp::Mul, size, dst: acc, lhs: acc, rhs: tmp },
    )
}

/// The lines that multiply the sign-extended index by the scale in `acc`,
/// while the value of `kept` waits on the stack; it comes back in `back`.
pub open spec fn bounced_index_lines(
    acc: Register,
    tmp: Register,
    kept: Register,
    back: Register,
    index: Register,
    scale: int,
) -> Seq<AsmLine> {
    let size = RegisterSize::X64;
    let sp = Register::StackPointer;
    sp_lines(InstBinOp::Sub, SCRATCH_SPILL_SLOT as int) + seq![
        AsmLine::Mem { op: MemOp::Str, size, reg: kept, base: sp, offset: 0 },
    ] + scaled_index_lines(acc, tmp, index, scale) + seq![
        AsmLine::Mem { op: MemOp::Ldr, size, reg: back, base: sp, offset: 0 },
    ] + sp_lines(InstBinOp::Add, SCRATCH_SPILL_SLOT as int)
}

/// The register is one of the scratch registers.
pub open spec fn is_scratch(r: Register) -> bool {
    r == Register::Physical(SCRATCH0) || r == Register::Physical(SCRATCH1)
}

/// The lines that compute the address of an element.
pub open spec fn gep_lines(
    dst: Register,
    base: Register,
    index: InstOperand,
    scale: int,
) -> Seq<AsmLine> {
    let size = RegisterSize::X64;
    match index {
        InstOperand::Immediate(i) => add_offset_lines(
            dst,
            base,
            i * scale,
            scratch_or(dst, base, dst),
        ),
        InstOperand::Register(r) => match shift_of(scale) {
            Some(shift) => seq![AsmLine::AddExt { dst, base, index: r, shift }],
            None => if dst != base {
                match free_scratch(dst, base) {
                    Some(tmp) => scaled_index_lines(dst, tmp, r, scale).push(
                        AsmLine::OpReg { op: InstBinOp::Add, size, dst, lhs: base, rhs: dst },
                    ),
                    None => bounced_index_lines(dst, base, base, base, r, scale).push(
                        AsmLine::OpReg { op: InstBinOp::Add, size, dst, lhs: base, rhs: dst },
                    ),
                }
            } else if is_scratch(base) {
                let other = other_scratch(base);
                bounced_index_lines(base, other, base, other, r, scale).push(
                    AsmLine::OpReg { op: InstBinOp::Add, size, dst, lhs: other, rhs: base },
                )
            } else {
                let s0 = Register::Physical(SCRATCH0);
                let s1 = Register::Physical(SCRATCH1);
                scaled_index_lines(s0, s1, r, scale).push(
                    AsmLine::OpReg { op: InstBinOp::Add, size, dst, lhs: base, rhs: s0 },
                )
            },
        },
    }
}

/// The lines of a comparison.
pub open spec fn compare_lines(size: RegisterSize, lhs: Register, rhs: InstOperand) -> Seq<AsmLine> {
    match rhs {
        InstOperand::Register(r) => seq![AsmLine::CmpReg { size, lhs, rhs: r }],
        InstOperand::Immediate(imm) => if addsub_encodable(imm as int) {
            seq![AsmLine::CmpImm { size, lhs, imm: imm as int }]
        } else {
            let scratch = other_scratch(lhs);
            mov_imm_lines(scratch, size, bits(imm as int)).push(
                AsmLine::CmpReg { size, lhs, rhs: scratch },
            )
        },
    }
}

/// The lines that save the registers that hold values across a call.
pub open spec fn save_lines() -> Seq<AsmLine> {
    seq![AsmLine::Push(15)].push(AsmLine::PushPair(13, 14)).push(AsmLine::PushPair(11, 12)).push(
        AsmLine::PushPair(9, 10),
    ).push(AsmLine::Push(8))
}

/// The lines that restore them.
pub open spec fn restore_lines() -> Seq<AsmLine> {
    seq![AsmLine::Pop(8)].push(AsmLine::PopPair(9, 10)).push(AsmLine::PopPair(11, 12)).push(
        AsmLine::PopPair(13, 14),
    ).push(AsmLine::Pop(15))
}

/// The lines that leave a function.
pub open spec fn epilogue_lines() -> Seq<AsmLine> {
    seq![
        AsmLine::MovReg {
            size: RegisterSize::X64,
            dst: Register::StackPointer,
            src: Register::Physical(REG_FP),
        },
    ].push(AsmLine::PopPair(29, 30)).push(AsmLine::Return)
}

/// The lines that enter a function.
pub open spec fn prologue_lines(frame_size: int) -> Seq<AsmLine> {
    seq![AsmLine::PushPair(29, 30)].push(
        AsmLine::MovReg {
            size: RegisterSize::X64,
            dst: Register::Physical(REG_FP),
            src: Register::StackPointer,
        },
    ) + if frame_size > 0 {
        sp_lines(InstBinOp::Sub, frame_size)
    } else {
        Seq::empty()
    }
}

/// The lines of an instruction.
pub open spec fn inst_lines(target: Target, inst: InstModel) -> Seq<AsmLine> {
    match inst {
        InstModel::Label(name) => seq![AsmLine::Label(name)],
        InstModel::Mov { size, dst, src } => match src {
            InstOperand::Immediate(imm) => seq![AsmLine::MovImm { size, dst, imm: imm as int }],
            InstOperand::Register(r) => seq![AsmLine::MovReg { size, dst, src: r }],
        },
        InstModel::BinOp { op, size, dst, lhs, rhs } => binop_lines(op, size, dst, lhs, rhs),
        InstModel::FBinOp { op, dst, lhs, rhs } => seq![AsmLine::FOp { op, dst, lhs, rhs }],
        InstModel::Ldr { size, dst, addr } => load_lines(target, size, dst, addr),
        InstModel::Str { size, src, addr } => store_lines(target, size, src, addr),
        InstModel::Lea { dst, addr } => lea_lines(target, dst, addr),
        InstModel::Gep { dst, base, index, scale } => gep_lines(dst, base, index, scale),
        InstModel::Cmp { size, lhs, rhs } => compare_lines(size, lhs, rhs),
        InstModel::FCmp { lhs, rhs } => seq![AsmLine::FCmp { lhs, rhs }],
        InstModel::Scvtf { dst, src } => seq![AsmLine::Scvtf { dst, src }],
        InstModel::Fcvtzs { dst, src } => seq![AsmLine::Fcvtzs { dst, src }],
        InstModel::Fmov { .. } => Seq::empty(),
        InstModel::B { label } => seq![AsmLine::Branch { label }],
        InstModel::BCond { cond, label } => seq![AsmLine::BranchIf { cond, label }],
        InstModel::Bl { func } => seq![AsmLine::Call { func }],
        InstModel::SaveCallerRegs => save_lines(),
        InstModel::RestoreCallerRegs => restore_lines(),
        InstModel::SubSp { imm } => sp_lines(InstBinOp::Sub, imm),
        InstModel::AddSp { imm } => sp_lines(InstBinOp::Add, imm),
        InstModel::Ret => epilogue_lines(),
    }
}

/// The operand has a name.
pub open spec fn operand_nameable(op: InstOperand, size: RegisterSize) -> bool {
    op matches InstOperand::Register(r) ==> nameable(r, size)
}

/// The address has a name, and its offset a magnitude.
pub open spec fn addr_printable(addr: AddrModel) -> bool {
    addr matches AddrModel::BaseOff { base, offset } ==> nameable(base, RegisterSize::X64)
        && i64::MIN < offset <= i64::MAX
}

/// The instruction can be printed: it has no virtual registers, and the
/// numbers that it is printed with are 64-bit integers.  A call in a function
/// that uses floating-point registers, and a move of a floating-point number,
/// have no printed form.
pub open spec fn printable(inst: InstModel, uses_fp: bool) -> bool {
    match inst {
        InstModel::Mov { size, dst, src } => nameable(dst, size) && operand_nameable(src, size),
        InstModel::BinOp { op, size, dst, lhs, rhs } => {
            &&& nameable(dst, size)
            &&& nameable(lhs, size)
            &&& operand_nameable(rhs, size)
            &&& (op is Add || op is Sub) ==> rhs != InstOperand::Immediate(i64::MIN)
        },
        InstModel::FBinOp { dst, lhs, rhs, .. } => {
            &&& nameable(dst, RegisterSize::S32)
            &&& nameable(lhs, RegisterSize::S32)
            &&& nameable(rhs, RegisterSize::S32)
        },
        InstModel::Ldr { size, dst, addr } => nameable(dst, size) && addr_printable(addr),
        InstModel::Str { size, src, addr } => nameable(src, size) && addr_printable(addr),
        InstModel::Lea { dst, addr } => nameable(dst, RegisterSize::X64) && addr_printable(addr),
        InstModel::Gep { dst, base, index, scale } => {
            &&& nameable(dst, RegisterSize::X64)
            &&& nameable(base, RegisterSize::X64)
            &&& operand_nameable(index, RegisterSize::W32)
            &&& i64::MIN <= scale <= i64::MAX
            &&& index matches InstOperand::Immediate(i) ==> i64::MIN < i * scale <= i64::MAX
        },
        InstModel::Cmp { size, lhs, rhs } => nameable(lhs, size) && operand_nameable(rhs, size),
        InstModel::FCmp { lhs, rhs } => nameable(lhs, RegisterSize::S32) && nameable(
            rhs,
            RegisterSize::S32,
        ),
        InstModel::Scvtf { dst, src } => nameable(dst, RegisterSize::S32) && nameable(
            src,
            RegisterSize::W32,
        ),
        InstModel::Fcvtzs { dst, src } => nameable(dst, RegisterSize::W32) && nameable(
            src,
            RegisterSize::S32,
        ),
        InstModel::Fmov { .. } => false,
        InstModel::SaveCallerRegs => !uses_fp,
        InstModel::RestoreCallerRegs => !uses_fp,
        InstModel::SubSp { imm } => i64::MIN <= imm <= i64::MAX,
        InstModel::AddSp { imm } => i64::MIN <= imm <= i64::MAX,
        _ => true,
    }
}

/// The lines of a list of instructions.
pub open spec fn insts_lines(target: Target, insts: Seq<InstModel>) -> Seq<AsmLine>
    decreases insts.len(),
{
    if insts.len() == 0 {
        Seq::empty()
    } else {
        insts_lines(target, insts.drop_last()) + inst_lines(target, insts.last())
    }
}

/// All the instructions can be printed.
pub open spec fn all_printable(insts: Seq<InstModel>, uses_fp: bool) -> bool {
    forall|i: int| 0 <= i < insts.len() ==> printable(#[trigger] insts[i], uses_fp)
}

/// The lines of a function.
pub open spec fn function_lines(target: Target, f: ProgramFunction) -> Seq<AsmLine> {
    seq![AsmLine::Globl(f.symbol)].push(AsmLine::Align(2)).push(AsmLine::Label(f.symbol))
        + prologue_lines(f.frame_size) + insts_lines(target, f.insts) + seq![AsmLine::Blank]
}

/// The lines of a list of numbers.
pub open spec fn word_lines(words: Seq<i64>) -> Seq<AsmLine> {
    Seq::new(words.len(), |i: int| AsmLine::Word(words[i] as int))
}

/// The lines of a global.
pub open spec fn global_lines(g: GlobalModel) -> Seq<AsmLine> {
    seq![AsmLine::Globl(g.symbol)].push(AsmLine::Align(2)).push(AsmLine::Label(g.symbol)) + match g.data {
        GlobalDataModel::Word { value } => seq![AsmLine::Word(value)],
        GlobalDataModel::Array { words, zero_bytes } => if zero_bytes > 0 {
            word_lines(words).push(AsmLine::Zero(zero_bytes))
        } else {
            word_lines(words)
        },
    }
}

/// The lines of a list of globals.
pub open spec fn globals_lines(globals: Seq<GlobalModel>) -> Seq<AsmLine>
    decreases globals.len(),
{
    if globals.len() == 0 {
        Seq::empty()
    } else {
        globals_lines(globals.drop_last()) + global_lines(globals.last())
    }
}

/// The lines of a list of functions.
pub open spec fn functions_lines(target: Target, functions: Seq<ProgramFunction>) -> Seq<AsmLine>
    decreases functions.len(),
{
    if functions.len() == 0 {
        Seq::empty()
    } else {
        functions_lines(target, functions.drop_last()) + function_lines(target, functions.last())
    }
}

/// The lines of a program: the globals, if there are any, then the functions.
pub open spec fn program_lines(
    target: Target,
    globals: Seq<GlobalModel>,
    functions: Seq<ProgramFunction>,
) -> Seq<AsmLine> {
    (if globals.len() > 0 {
        seq![AsmLine::Section("data"@)] + globals_lines(globals) + seq![AsmLine::Blank]
    } else {
        Seq::empty()
    }) + seq![AsmLine::Section("text"@)] + functions_lines(target, functions)
}

} // verus!
