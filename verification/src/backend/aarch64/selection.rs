//! Which instructions a statement becomes.

use super::aapcs::{classified, ArgumentLocation};
use super::frame::{frame_addr, outgoing_bytes};
use super::inst::InstModel;
use super::phi_lowering::{first_ready, is_ready, same, CopyModel, SplitModel};
use super::types::{
    register_size, AddrModel, Cond, InstBinOp, InstOperand, Register, RegisterSize, REG_IP0,
    REG_X0,
};
use crate::backend::common::layout::{size_align, size_fits, LayoutModel};
use crate::backend::common::stack::StackSlot;
use crate::backend::error::ErrorModel;
use crate::common::target::{symbol_text, Target};
use crate::common::text::nat_text;
use crate::ir::function::LabelModel;
use crate::ir::stmt::{ArithBinOp, CmpPredicate, StmtModel};
use crate::ir::types::DtypeModel;
use crate::ir::value::{LocalModel, OperandModel};
use vstd::prelude::*;

verus! {

/// What the selection of instructions depends on.
pub struct Setting {
    /// The name of the function.
    pub func: Seq<char>,
    /// The slots of the `alloca`s.
    pub allocas: Map<usize, StackSlot>,
    pub layouts: Map<Seq<char>, LayoutModel>,
    pub target: Target,
}

/// The instructions selected so far.
#[verifier::ext_equal]
pub struct Code {
    pub insts: Seq<InstModel>,
    /// The number of the next fresh register.
    pub next: nat,
    /// The condition of each comparison result.
    pub conds: Map<usize, Cond>,
}

impl Code {
    /// One instruction more.
    pub open spec fn put(self, inst: InstModel) -> Code {
        Code { insts: self.insts.push(inst), next: self.next, conds: self.conds }
    }

    /// A register is taken.
    pub open spec fn taken(self) -> Code {
        Code { insts: self.insts, next: self.next + 1, conds: self.conds }
    }

    /// The next fresh register.
    pub open spec fn fresh(self) -> Register {
        Register::Virtual(self.next as usize)
    }
}

/// The label of a block.
pub open spec fn block_label(func: Seq<char>, n: nat) -> Seq<char> {
    ".L"@ + func + "_bb"@ + nat_text(n)
}

/// The label that a branch goes to.
pub open spec fn branch_label(func: Seq<char>, label: LabelModel) -> Seq<char> {
    match label {
        LabelModel::BasicBlock(n) => block_label(func, n),
        LabelModel::Function(name) => name,
    }
}

/// The start of a block; the entry of a function has no label of its own.
pub open spec fn label_code(cx: Setting, code: Code, label: LabelModel) -> Code {
    match label {
        LabelModel::BasicBlock(n) => code.put(InstModel::Label(block_label(cx.func, n))),
        _ => code,
    }
}

/// A number of 64 bits.
pub open spec fn imm(val: int) -> InstOperand {
    InstOperand::Immediate(val as i64)
}

/// The register of a local value.
pub open spec fn vreg(id: nat) -> Register {
    Register::Virtual(id as usize)
}

/// The register of an operand that must be a local value.
pub open spec fn local_vreg(op: OperandModel) -> Result<usize, ErrorModel> {
    match op {
        OperandModel::Local(l) => Ok(l.id as usize),
        _ => Err(
            ErrorModel::UnsupportedOperand { what: "expected local variable, got: "@ + op.text() },
        ),
    }
}

/// An integer operand; `what` names its role in messages.
pub open spec fn int_operand(cx: Setting, val: OperandModel, what: Seq<char>) -> Result<
    InstOperand,
    ErrorModel,
> {
    match val {
        OperandModel::Const { val, .. } => Ok(imm(val)),
        OperandModel::Local(l) => if !(l.dtype is I1 || l.dtype is I32) {
            Err(ErrorModel::UnsupportedDtype { dtype: l.dtype })
        } else if cx.allocas.contains_key(l.id as usize) {
            Err(
                ErrorModel::UnsupportedOperand {
                    what: what + " operand references alloca pointer %r"@ + nat_text(l.id),
                },
            )
        } else {
            Ok(InstOperand::Register(vreg(l.id)))
        },
        OperandModel::Global { .. } => Err(
            ErrorModel::UnsupportedOperand {
                what: "unsupported "@ + what + " operand: "@ + val.text(),
            },
        ),
    }
}

/// An integer operand that must be in a register.
pub open spec fn int_register(cx: Setting, code: Code, val: OperandModel) -> Result<
    (Register, Code),
    ErrorModel,
> {
    match int_operand(cx, val, "int"@) {
        Err(e) => Err(e),
        Ok(InstOperand::Register(r)) => Ok((r, code)),
        Ok(InstOperand::Immediate(i)) => Ok(
            (
                code.fresh(),
                code.put(
                    InstModel::Mov {
                        size: RegisterSize::W32,
                        dst: code.fresh(),
                        src: InstOperand::Immediate(i),
                    },
                ).taken(),
            ),
        ),
    }
}

/// A value operand with its width.
pub open spec fn value_operand(cx: Setting, val: OperandModel) -> Result<
    (InstOperand, RegisterSize),
    ErrorModel,
> {
    match val {
        OperandModel::Const { val, .. } => Ok((imm(val), RegisterSize::W32)),
        OperandModel::Local(l) => match l.dtype {
            DtypeModel::I1 => Ok((InstOperand::Register(vreg(l.id)), RegisterSize::W32)),
            DtypeModel::I32 => Ok((InstOperand::Register(vreg(l.id)), RegisterSize::W32)),
            DtypeModel::Pointer(_) => if cx.allocas.contains_key(l.id as usize) {
                Err(
                    ErrorModel::UnsupportedOperand {
                        what: "value operand uses alloca ptr %r"@ + nat_text(l.id)
                            + " directly (need address-of)"@,
                    },
                )
            } else {
                Ok((InstOperand::Register(vreg(l.id)), RegisterSize::X64))
            },
            other => Err(ErrorModel::UnsupportedDtype { dtype: other }),
        },
        OperandModel::Global { .. } => Err(
            ErrorModel::UnsupportedOperand {
                what: "unexpected global variable in value position"@,
            },
        ),
    }
}

/// Where a pointer comes from.
pub enum PtrModel {
    Stack(StackSlot),
    Global(Seq<char>),
    Register(usize),
}

/// Where a pointer operand comes from.
pub open spec fn pointer(cx: Setting, val: OperandModel) -> Result<PtrModel, ErrorModel> {
    match val {
        OperandModel::Local(l) => if cx.allocas.contains_key(l.id as usize) {
            Ok(PtrModel::Stack(cx.allocas[l.id as usize]))
        } else if l.dtype is Pointer {
            Ok(PtrModel::Register(l.id as usize))
        } else {
            Err(ErrorModel::UnsupportedDtype { dtype: l.dtype })
        },
        OperandModel::Global { name, .. } => Ok(PtrModel::Global(symbol_text(cx.target, name))),
        OperandModel::Const { .. } => Err(
            ErrorModel::UnsupportedOperand {
                what: "unsupported pointer operand: "@ + val.text(),
            },
        ),
    }
}

/// The address of what a pointer points to.
pub open spec fn ptr_addr(p: PtrModel) -> AddrModel {
    match p {
        PtrModel::Stack(slot) => frame_addr(slot.offset_from_fp as int),
        PtrModel::Global(sym) => AddrModel::Global(sym),
        PtrModel::Register(v) => AddrModel::BaseOff { base: Register::Virtual(v), offset: 0 },
    }
}

/// A store.
pub open spec fn store_code(
    cx: Setting,
    code: Code,
    src: OperandModel,
    ptr: OperandModel,
) -> Result<Code, ErrorModel> {
    match value_operand(cx, src) {
        Err(e) => Err(e),
        Ok((op, size)) => match pointer(cx, ptr) {
            Err(e) => Err(e),
            Ok(p) => match op {
                InstOperand::Register(r) => Ok(
                    code.put(InstModel::Str { size, src: r, addr: ptr_addr(p) }),
                ),
                InstOperand::Immediate(_) => Ok(
                    code.put(InstModel::Mov { size, dst: code.fresh(), src: op }).put(
                        InstModel::Str { size, src: code.fresh(), addr: ptr_addr(p) },
                    ).taken(),
                ),
            },
        },
    }
}

/// A load.
pub open spec fn load_code(
    cx: Setting,
    code: Code,
    dst: OperandModel,
    ptr: OperandModel,
) -> Result<Code, ErrorModel> {
    match local_vreg(dst) {
        Err(e) => Err(e),
        Ok(d) => match register_size(dst.ty()) {
            Err(e) => Err(e),
            Ok(size) => match pointer(cx, ptr) {
                Err(e) => Err(e),
                Ok(p) => Ok(
                    code.put(
                        InstModel::Ldr { size, dst: Register::Virtual(d), addr: ptr_addr(p) },
                    ),
                ),
            },
        },
    }
}

/// The operation of an arithmetic statement.
pub open spec fn binop_of(op: ArithBinOp) -> InstBinOp {
    match op {
        ArithBinOp::Add => InstBinOp::Add,
        ArithBinOp::Sub => InstBinOp::Sub,
        ArithBinOp::Mul => InstBinOp::Mul,
        ArithBinOp::SDiv => InstBinOp::SDiv,
    }
}

/// The condition of a comparison.
pub open spec fn cond_of(op: CmpPredicate) -> Cond {
    match op {
        CmpPredicate::Eq => Cond::Eq,
        CmpPredicate::Ne => Cond::Ne,
        CmpPredicate::Slt => Cond::Lt,
        CmpPredicate::Sle => Cond::Le,
        CmpPredicate::Sgt => Cond::Gt,
        CmpPredicate::Sge => Cond::Ge,
    }
}

/// An arithmetic statement.
pub open spec fn biop_code(
    cx: Setting,
    code: Code,
    kind: ArithBinOp,
    left: OperandModel,
    right: OperandModel,
    dst: OperandModel,
) -> Result<Code, ErrorModel> {
    match local_vreg(dst) {
        Err(e) => Err(e),
        Ok(d) => match int_register(cx, code, left) {
            Err(e) => Err(e),
            Ok((lhs, c)) => match int_operand(cx, right, "int"@) {
                Err(e) => Err(e),
                Ok(rhs) => Ok(
                    c.put(
                        InstModel::BinOp {
                            op: binop_of(kind),
                            size: RegisterSize::W32,
                            dst: Register::Virtual(d),
                            lhs,
                            rhs,
                        },
                    ),
                ),
            },
        },
    }
}

/// A comparison.
pub open spec fn comparison_code(
    cx: Setting,
    code: Code,
    kind: CmpPredicate,
    left: OperandModel,
    right: OperandModel,
    dst: OperandModel,
) -> Result<Code, ErrorModel> {
    match local_vreg(dst) {
        Err(e) => Err(e),
        Ok(d) => match int_register(cx, code, left) {
            Err(e) => Err(e),
            Ok((lhs, c)) => match int_operand(cx, right, "int"@) {
                Err(e) => Err(e),
                Ok(rhs) => Ok(
                    Code {
                        insts: c.insts.push(
                            InstModel::Cmp { size: RegisterSize::W32, lhs, rhs },
                        ),
                        next: c.next,
                        conds: c.conds.insert(d, cond_of(kind)),
                    },
                ),
            },
        },
    }
}

/// A conditional branch.
pub open spec fn cjump_code(
    cx: Setting,
    code: Code,
    cond: OperandModel,
    true_label: LabelModel,
    false_label: LabelModel,
) -> Result<Code, ErrorModel> {
    match local_vreg(cond) {
        Err(e) => Err(e),
        Ok(v) => if code.conds.contains_key(v) {
            Ok(
                code.put(
                    InstModel::BCond {
                        cond: code.conds[v],
                        label: branch_label(cx.func, true_label),
                    },
                ).put(InstModel::B { label: branch_label(cx.func, false_label) }),
            )
        } else {
            Err(ErrorModel::MissingCond { vreg: v as nat })
        },
    }
}

/// The type of the elements that a base pointer leads to.
pub open spec fn element_type(d: DtypeModel) -> DtypeModel {
    match d {
        DtypeModel::Pointer(p) => match *p {
            DtypeModel::Array(e, _) => *e,
            other => other,
        },
        DtypeModel::Array(e, _) => *e,
        other => other,
    }
}

/// The struct whose field is addressed: the base points to it, and the result
/// has another type than the base.
pub open spec fn field_struct(base: DtypeModel, new: DtypeModel) -> Option<Seq<char>> {
    match base {
        DtypeModel::Pointer(p) => match *p {
            DtypeModel::Struct(name) => if new != base {
                Some(name)
            } else {
                None
            },
            _ => None,
        },
        _ => None,
    }
}

/// The address at a fixed distance from a pointer.
pub open spec fn offset_code(code: Code, dst: usize, base: PtrModel, offset: int) -> Code {
    let d = Register::Virtual(dst);
    match base {
        PtrModel::Stack(slot) => code.put(
            InstModel::Lea { dst: d, addr: frame_addr(slot.offset_from_fp + offset) },
        ),
        PtrModel::Global(sym) => {
            let c = code.put(InstModel::Lea { dst: d, addr: AddrModel::Global(sym) });
            if offset != 0 {
                c.put(
                    InstModel::BinOp {
                        op: InstBinOp::Add,
                        size: RegisterSize::X64,
                        dst: d,
                        lhs: d,
                        rhs: imm(offset),
                    },
                )
            } else {
                c
            }
        },
        PtrModel::Register(v) => code.put(
            InstModel::Lea {
                dst: d,
                addr: AddrModel::BaseOff { base: Register::Virtual(v), offset },
            },
        ),
    }
}

/// The address of a field.
pub open spec fn field_code(
    cx: Setting,
    code: Code,
    new_ptr: usize,
    index: OperandModel,
    name: Seq<char>,
    base: PtrModel,
) -> Result<Code, ErrorModel> {
    match index {
        OperandModel::Const { val, .. } => if !cx.layouts.contains_key(name) {
            Err(ErrorModel::MissingStructLayout { name })
        } else if 0 <= val < cx.layouts[name].offsets.len() {
            Ok(offset_code(code, new_ptr, base, cx.layouts[name].offsets[val]))
        } else {
            Err(ErrorModel::InvalidStructFieldIndex { name, index: val })
        },
        _ => Err(
            ErrorModel::UnsupportedOperand {
                what: "expected immediate struct field index, got: "@ + index.text(),
            },
        ),
    }
}

/// The address of an element.
pub open spec fn element_code(
    cx: Setting,
    code: Code,
    new_ptr: usize,
    index: OperandModel,
    element: DtypeModel,
    base: PtrModel,
) -> Result<Code, ErrorModel> {
    let d = Register::Virtual(new_ptr);
    match size_align(element, cx.layouts) {
        Err(e) => Err(e),
        Ok((size, _)) => match int_operand(cx, index, "index"@) {
            Err(e) => Err(e),
            Ok(i) => match base {
                PtrModel::Register(v) => Ok(
                    code.put(
                        InstModel::Gep { dst: d, base: Register::Virtual(v), index: i, scale: size },
                    ),
                ),
                _ => Ok(
                    code.put(InstModel::Lea { dst: d, addr: ptr_addr(base) }).put(
                        InstModel::Gep { dst: d, base: d, index: i, scale: size },
                    ),
                ),
            },
        },
    }
}

/// The computation of an address.
pub open spec fn gep_code(
    cx: Setting,
    code: Code,
    new_ptr: OperandModel,
    base_ptr: OperandModel,
    index: OperandModel,
) -> Result<Code, ErrorModel> {
    match local_vreg(new_ptr) {
        Err(e) => Err(e),
        Ok(d) => match pointer(cx, base_ptr) {
            Err(e) => Err(e),
            Ok(base) => match field_struct(base_ptr.ty(), new_ptr.ty()) {
                Some(name) => field_code(cx, code, d, index, name, base),
                None => if base_ptr.ty() is Pointer || base_ptr.ty() is Array {
                    element_code(cx, code, d, index, element_type(base_ptr.ty()), base)
                } else {
                    Err(ErrorModel::UnsupportedDtype { dtype: base_ptr.ty() })
                },
            },
        },
    }
}

/// The operand is passed as an address.
pub open spec fn by_address(op: OperandModel) -> bool {
    op.ty() is Pointer || op.ty() is Array
}

/// A pointer in a register.
pub open spec fn pointer_code(cx: Setting, code: Code, arg: OperandModel, dst: Register) -> Result<
    Code,
    ErrorModel,
> {
    match pointer(cx, arg) {
        Err(e) => Err(e),
        Ok(PtrModel::Register(v)) => Ok(
            code.put(
                InstModel::Mov {
                    size: RegisterSize::X64,
                    dst,
                    src: InstOperand::Register(Register::Virtual(v)),
                },
            ),
        ),
        Ok(p) => Ok(code.put(InstModel::Lea { dst, addr: ptr_addr(p) })),
    }
}

/// An argument in a register.
pub open spec fn register_arg_code(cx: Setting, code: Code, arg: OperandModel, n: u8) -> Result<
    Code,
    ErrorModel,
> {
    let dst = Register::Physical(n);
    if by_address(arg) {
        pointer_code(cx, code, arg, dst)
    } else {
        match value_operand(cx, arg) {
            Err(e) => Err(e),
            Ok((op, size)) => Ok(code.put(InstModel::Mov { size, dst, src: op })),
        }
    }
}

/// An argument on the stack.
pub open spec fn stack_arg_code(cx: Setting, code: Code, arg: OperandModel, offset: int) -> Result<
    Code,
    ErrorModel,
> {
    let addr = AddrModel::BaseOff { base: Register::StackPointer, offset };
    let scratch = Register::Physical(REG_IP0);
    if by_address(arg) {
        match pointer_code(cx, code, arg, scratch) {
            Err(e) => Err(e),
            Ok(c) => Ok(c.put(InstModel::Str { size: RegisterSize::X64, src: scratch, addr })),
        }
    } else {
        match value_operand(cx, arg) {
            Err(e) => Err(e),
            Ok((InstOperand::Register(r), size)) => Ok(
                code.put(InstModel::Str { size, src: r, addr }),
            ),
            Ok((op, size)) => Ok(
                code.put(InstModel::Mov { size, dst: scratch, src: op }).put(
                    InstModel::Str { size, src: scratch, addr },
                ),
            ),
        }
    }
}

/// The arguments on the stack.
pub open spec fn stack_args_code(
    cx: Setting,
    code: Code,
    args: Seq<OperandModel>,
    locs: Seq<ArgumentLocation>,
) -> Result<Code, ErrorModel>
    decreases args.len(),
{
    if args.len() == 0 {
        Ok(code)
    } else {
        match stack_args_code(cx, code, args.drop_last(), locs) {
            Err(e) => Err(e),
            Ok(c) => match locs[args.len() - 1] {
                ArgumentLocation::Stack { offset } => stack_arg_code(
                    cx,
                    c,
                    args.last(),
                    offset as int,
                ),
                _ => Ok(c),
            },
        }
    }
}

/// The arguments in registers.
pub open spec fn register_args_code(
    cx: Setting,
    code: Code,
    args: Seq<OperandModel>,
    locs: Seq<ArgumentLocation>,
) -> Result<Code, ErrorModel>
    decreases args.len(),
{
    if args.len() == 0 {
        Ok(code)
    } else {
        match register_args_code(cx, code, args.drop_last(), locs) {
            Err(e) => Err(e),
            Ok(c) => match locs[args.len() - 1] {
                ArgumentLocation::Gpr(n) => register_arg_code(cx, c, args.last(), n),
                _ => Ok(c),
            },
        }
    }
}

/// The types of operands.
pub open spec fn types_of(args: Seq<OperandModel>) -> Seq<DtypeModel> {
    Seq::new(args.len(), |i: int| args[i].ty())
}

/// A move of the stack pointer, where there is anything to move.
pub open spec fn sp_code(code: Code, bytes: int, down: bool) -> Code {
    if bytes > 0 {
        if down {
            code.put(InstModel::SubSp { imm: bytes })
        } else {
            code.put(InstModel::AddSp { imm: bytes })
        }
    } else {
        code
    }
}

/// The result of a call, moved from its register.
pub open spec fn result_code(code: Code, res: Option<OperandModel>) -> Result<Code, ErrorModel> {
    match res {
        None => Ok(code),
        Some(OperandModel::Local(l)) => match register_size(l.dtype) {
            Err(e) => Err(e),
            Ok(size) => Ok(
                code.put(
                    InstModel::Mov {
                        size,
                        dst: vreg(l.id),
                        src: InstOperand::Register(Register::Physical(REG_X0)),
                    },
                ),
            ),
        },
        Some(_) => Err(ErrorModel::Internal("call result must be a local operand"@)),
    }
}

/// A call.
pub open spec fn call_code(
    cx: Setting,
    code: Code,
    func: Seq<char>,
    res: Option<OperandModel>,
    args: Seq<OperandModel>,
) -> Result<Code, ErrorModel> {
    match classified(types_of(args)) {
        Err(e) => Err(e),
        Ok(locs) => {
            let bytes = outgoing_bytes(locs);
            let start = sp_code(code.put(InstModel::SaveCallerRegs), bytes, true);
            match stack_args_code(cx, start, args, locs) {
                Err(e) => Err(e),
                Ok(c) => match register_args_code(cx, c, args, locs) {
                    Err(e) => Err(e),
                    Ok(d) => result_code(
                        sp_code(
                            d.put(InstModel::Bl { func: symbol_text(cx.target, func) }),
                            bytes,
                            false,
                        ).put(InstModel::RestoreCallerRegs),
                        res,
                    ),
                },
            }
        },
    }
}

/// What is left of a statement on two integers that fails: the first one in
/// its register, where only the second is wrong.
pub open spec fn operand_left(cx: Setting, code: Code, left: OperandModel, dst: OperandModel) -> Code {
    match (local_vreg(dst), int_register(cx, code, left)) {
        (Ok(_), Ok((_, c))) => c,
        _ => code,
    }
}

/// What is left of arguments on the stack when one fails: those before it.
pub open spec fn stack_args_left(
    cx: Setting,
    code: Code,
    args: Seq<OperandModel>,
    locs: Seq<ArgumentLocation>,
) -> Code
    decreases args.len(),
{
    if args.len() == 0 {
        code
    } else {
        match stack_args_code(cx, code, args.drop_last(), locs) {
            Err(_) => stack_args_left(cx, code, args.drop_last(), locs),
            Ok(c) => c,
        }
    }
}

/// What is left of arguments in registers when one fails: those before it.
pub open spec fn register_args_left(
    cx: Setting,
    code: Code,
    args: Seq<OperandModel>,
    locs: Seq<ArgumentLocation>,
) -> Code
    decreases args.len(),
{
    if args.len() == 0 {
        code
    } else {
        match register_args_code(cx, code, args.drop_last(), locs) {
            Err(_) => register_args_left(cx, code, args.drop_last(), locs),
            Ok(c) => c,
        }
    }
}

/// What is left of a call that fails: nothing where an argument has a type
/// that no argument can have, else what comes before the operand that fails.
pub open spec fn call_left(
    cx: Setting,
    code: Code,
    func: Seq<char>,
    args: Seq<OperandModel>,
) -> Code {
    match classified(types_of(args)) {
        Err(_) => code,
        Ok(locs) => {
            let bytes = outgoing_bytes(locs);
            let start = sp_code(code.put(InstModel::SaveCallerRegs), bytes, true);
            match stack_args_code(cx, start, args, locs) {
                Err(_) => stack_args_left(cx, start, args, locs),
                Ok(c) => match register_args_code(cx, c, args, locs) {
                    Err(_) => register_args_left(cx, c, args, locs),
                    Ok(d) => sp_code(
                        d.put(InstModel::Bl { func: symbol_text(cx.target, func) }),
                        bytes,
                        false,
                    ).put(InstModel::RestoreCallerRegs),
                },
            }
        },
    }
}

/// What is left of a statement that fails.
pub open spec fn stmt_left(cx: Setting, code: Code, stmt: StmtModel) -> Code {
    match stmt {
        StmtModel::BiOp { left, dst, .. } => operand_left(cx, code, left, dst),
        StmtModel::Cmp { left, dst, .. } => operand_left(cx, code, left, dst),
        StmtModel::Call { func_name, args, .. } => call_left(cx, code, func_name, args),
        _ => code,
    }
}

/// A return.
pub open spec fn return_code(cx: Setting, code: Code, val: Option<OperandModel>) -> Result<
    Code,
    ErrorModel,
> {
    match val {
        None => Ok(code.put(InstModel::Ret)),
        Some(v) => match value_operand(cx, v) {
            Err(e) => Err(e),
            Ok((op, size)) => Ok(
                code.put(
                    InstModel::Mov { size, dst: Register::Physical(REG_X0), src: op },
                ).put(InstModel::Ret),
            ),
        },
    }
}

/// A statement.
pub open spec fn stmt_code(cx: Setting, code: Code, stmt: StmtModel) -> Result<Code, ErrorModel> {
    match stmt {
        StmtModel::Label { label } => Ok(label_code(cx, code, label)),
        StmtModel::Alloca { .. } => Ok(code),
        StmtModel::Store { src, ptr } => store_code(cx, code, src, ptr),
        StmtModel::Load { dst, ptr } => load_code(cx, code, dst, ptr),
        StmtModel::BiOp { kind, left, right, dst } => biop_code(cx, code, kind, left, right, dst),
        StmtModel::Cmp { kind, left, right, dst } => comparison_code(
            cx,
            code,
            kind,
            left,
            right,
            dst,
        ),
        StmtModel::CJump { cond, true_label, false_label } => cjump_code(
            cx,
            code,
            cond,
            true_label,
            false_label,
        ),
        StmtModel::Jump { target } => Ok(
            code.put(InstModel::B { label: branch_label(cx.func, target) }),
        ),
        StmtModel::Gep { new_ptr, base_ptr, index } => gep_code(
            cx,
            code,
            new_ptr,
            base_ptr,
            index,
        ),
        StmtModel::Call { func_name, res, args } => call_code(cx, code, func_name, res, args),
        StmtModel::Return { val } => return_code(cx, code, val),
        StmtModel::Phi { .. } => Err(
            ErrorModel::Internal("phi nodes should be lowered before assembly emission"@),
        ),
    }
}

/// What the selection for a statement computes fits in 64 bits.
pub open spec fn stmt_fits(cx: Setting, stmt: StmtModel) -> bool {
    match stmt {
        StmtModel::Gep { new_ptr, base_ptr, .. } => field_struct(
            base_ptr.ty(),
            new_ptr.ty(),
        ) is None ==> size_fits(element_type(base_ptr.ty()), cx.layouts),
        StmtModel::Call { args, .. } => args.len() * 8 + 16 <= i64::MAX,
        _ => true,
    }
}

/// Some statements.
pub open spec fn stmts_code(cx: Setting, code: Code, stmts: Seq<StmtModel>) -> Result<
    Code,
    ErrorModel,
>
    decreases stmts.len(),
{
    if stmts.len() == 0 {
        Ok(code)
    } else {
        match stmts_code(cx, code, stmts.drop_last()) {
            Err(e) => Err(e),
            Ok(c) => stmt_code(cx, c, stmts.last()),
        }
    }
}

/// One copy.
pub open spec fn copy_code(code: Code, dst: OperandModel, src: OperandModel) -> Result<
    Code,
    ErrorModel,
> {
    match local_vreg(dst) {
        Err(e) => Err(e),
        Ok(d) => match register_size(dst.ty()) {
            Err(e) => Err(e),
            Ok(size) => match src {
                OperandModel::Const { val, .. } => Ok(
                    code.put(
                        InstModel::Mov { size, dst: Register::Virtual(d), src: imm(val) },
                    ),
                ),
                OperandModel::Local(l) => Ok(
                    code.put(
                        InstModel::Mov {
                            size,
                            dst: Register::Virtual(d),
                            src: InstOperand::Register(vreg(l.id)),
                        },
                    ),
                ),
                OperandModel::Global { .. } => Err(
                    ErrorModel::UnsupportedOperand { what: "global variable in phi copy"@ },
                ),
            },
        },
    }
}

/// The copies that read `from` read `to` instead.
pub open spec fn rerouted(
    copies: Seq<CopyModel>,
    from: OperandModel,
    to: OperandModel,
) -> Seq<CopyModel> {
    Seq::new(
        copies.len(),
        |i: int|
            CopyModel {
                dst: copies[i].dst,
                src: if same(copies[i].src, from) {
                    to
                } else {
                    copies[i].src
                },
            },
    )
}

/// A fresh local value of the given type.
pub open spec fn temporary(code: Code, dtype: DtypeModel) -> OperandModel {
    OperandModel::Local(LocalModel { id: code.next, dtype })
}

/// Copies that run in parallel, one after the other: first those whose
/// destination no other reads; when all wait for each other, what the first
/// would overwrite is saved in a fresh register.
pub open spec fn copies_code(code: Code, copies: Seq<CopyModel>) -> Result<Code, ErrorModel>
    decreases
            copies.len(),
            if first_ready(copies, 0) is Some {
                0int
            } else {
                1int
            },
{
    if copies.len() == 0 {
        Ok(code)
    } else {
        match first_ready(copies, 0) {
            Some(i) => {
                match copy_code(code, copies[i as int].dst, copies[i as int].src) {
                    Err(e) => Err(e),
                    Ok(c) => if i < copies.len() {
                        copies_code(c, copies.remove(i as int))
                    } else {
                        Ok(c)
                    },
                }
            },
            None => {
                let dst = copies[0].dst;
                let temp = temporary(code, dst.ty());
                match copy_code(code.taken(), temp, dst) {
                    Err(e) => Err(e),
                    Ok(c) => {
                        let next = rerouted(copies, dst, temp);
                        proof {
                            lemma_rerouted_ready(copies, temp);
                        }
                        if same(dst, temp) {
                            Ok(c)
                        } else {
                            copies_code(c, next)
                        }
                    },
                }
            },
        }
    }
}

/// Once nothing reads the first destination, the first copy can go ahead.
pub proof fn lemma_rerouted_ready(copies: Seq<CopyModel>, temp: OperandModel)
    requires
        copies.len() > 0,
    ensures
        !same(copies[0].dst, temp) ==> first_ready(rerouted(copies, copies[0].dst, temp), 0)
            is Some,
{
    let next = rerouted(copies, copies[0].dst, temp);
    if !same(copies[0].dst, temp) {
        assert(is_ready(next, 0)) by {
            assert forall|j: int| 0 <= j < next.len() implies !same(
                next[0].dst,
                (#[trigger] next[j]).src,
            ) by {
                if !same(copies[j].src, copies[0].dst) {
                    assert(!same(copies[0].dst, copies[j].src));
                }
            }
        }
    }
}

/// The statement leaves its block.
pub open spec fn is_terminator_model(s: StmtModel) -> bool {
    s is Jump || s is CJump || s is Return
}

/// The position of the last statement that leaves the block.
pub open spec fn last_terminator(body: Seq<StmtModel>) -> Option<nat>
    decreases body.len(),
{
    if body.len() == 0 {
        None
    } else if is_terminator_model(body.last()) {
        Some((body.len() - 1) as nat)
    } else {
        last_terminator(body.drop_last())
    }
}

/// The statements of a block, with copies before the last that leaves it, or
/// at the end.
pub open spec fn body_code(
    cx: Setting,
    code: Code,
    body: Seq<StmtModel>,
    copies: Seq<CopyModel>,
) -> Result<Code, ErrorModel> {
    let pos = match last_terminator(body) {
        Some(n) => n as int,
        None => body.len() as int,
    };
    match stmts_code(cx, code, body.take(pos)) {
        Err(e) => Err(e),
        Ok(c) => match copies_code(c, copies) {
            Err(e) => Err(e),
            Ok(d) => stmts_code(cx, d, body.skip(pos)),
        },
    }
}

/// The new blocks on edges.
pub open spec fn splits_code(cx: Setting, code: Code, splits: Seq<SplitModel>) -> Result<
    Code,
    ErrorModel,
>
    decreases splits.len(),
{
    if splits.len() == 0 {
        Ok(code)
    } else {
        match splits_code(cx, code, splits.drop_last()) {
            Err(e) => Err(e),
            Ok(c) => match copies_code(label_code(cx, c, splits.last().label), splits.last().copies) {
                Err(e) => Err(e),
                Ok(d) => stmt_code(cx, d, StmtModel::Jump { target: splits.last().succ_label }),
            },
        }
    }
}

} // verus!
