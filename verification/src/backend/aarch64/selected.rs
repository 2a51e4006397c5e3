//! Selected instructions do what the statement says.

use super::execution::{
    goes, leads_to, lemma_condition_selected, lemma_operation_selected, taken, Cpu, World,
};
use super::inst::InstModel;
use super::machine::{half, signed, wide, wrapped};
use super::selection::{
    biop_code, branch_label, cjump_code, comparison_code, element_type, field_struct, gep_code,
    int_operand, int_register, load_code, pointer, ptr_addr, return_code, store_code, value_operand,
    Code, PtrModel, Setting,
};
use super::types::{register_size, AddrModel, InstOperand, Register, RegisterSize, REG_FP, REG_X0};
use crate::backend::common::layout::size_align;
use crate::common::target::symbol_text;
use crate::ir::execution::{calculated, relates};
use crate::ir::function::LabelModel;
use crate::ir::stmt::{ArithBinOp, CmpPredicate};
use crate::ir::value::{LocalModel, OperandModel};
use vstd::prelude::*;

verus! {

/// The number that an operand stands for.
pub open spec fn meant(s: Cpu, op: OperandModel) -> int {
    match op {
        OperandModel::Const { val, .. } => val,
        OperandModel::Local(l) => s.regs[Register::Virtual(l.id as usize)],
        OperandModel::Global { .. } => 0,
    }
}

/// The address that an operand stands for: a slot of the frame, a value, or
/// the place of a global variable.
pub open spec fn pointed(cx: Setting, w: World, s: Cpu, op: OperandModel) -> int {
    match op {
        OperandModel::Local(l) => if cx.allocas.contains_key(l.id as usize) {
            (s.regs[Register::Physical(REG_FP)] % wide()
                + cx.allocas[l.id as usize].offset_from_fp) % wide()
        } else {
            s.regs[Register::Virtual(l.id as usize)] % wide()
        },
        OperandModel::Global { name, .. } => (w.symbols)(symbol_text(cx.target, name)) % wide(),
        OperandModel::Const { .. } => 0,
    }
}

/// The number is a 64-bit number, and a local value has a number that was
/// taken before.
pub open spec fn in_use(code: Code, op: OperandModel) -> bool {
    &&& code.next <= usize::MAX
    &&& op matches OperandModel::Local(l) ==> l.id < code.next
    &&& op matches OperandModel::Const { val, .. } ==> i64::MIN <= val <= i64::MAX
}

/// The instructions that were added.
pub open spec fn added(code: Code, c: Code) -> Seq<InstModel> {
    c.insts.skip(code.insts.len() as int)
}

/// The states agree but for the given registers.
pub open spec fn same_but(a: Cpu, b: Cpu, regs: Set<Register>) -> bool {
    forall|r: Register| !regs.contains(r) ==> #[trigger] b.regs[r] == a.regs[r]
}

proof fn lemma_one(w: World, s: Cpu, inst: InstModel)
    ensures
        s.after_all(w, seq![inst]) == s.after(w, inst),
{
    assert(seq![inst].drop_last() =~= Seq::<InstModel>::empty());
    assert(s.after_all(w, Seq::<InstModel>::empty()) == s);
}

proof fn lemma_two(w: World, s: Cpu, a: InstModel, b: InstModel)
    ensures
        s.after_all(w, seq![a, b]) == s.after(w, a).after(w, b),
{
    assert(seq![a, b].drop_last() =~= seq![a]);
    lemma_one(w, s, a);
}

proof fn lemma_concat(w: World, s: Cpu, a: Seq<InstModel>, b: Seq<InstModel>)
    ensures
        s.after_all(w, a + b) == s.after_all(w, a).after_all(w, b),
    decreases b.len(),
{
    if b.len() == 0 {
        assert(a + b =~= a);
    } else {
        lemma_concat(w, s, a, b.drop_last());
        assert((a + b).drop_last() =~= a + b.drop_last());
    }
}

proof fn lemma_signed_wrapped(n: int)
    ensures
        signed(wrapped(RegisterSize::W32, n)) == signed(n),
        0 <= wrapped(RegisterSize::W32, n) < half(),
{
}

/// The fresh register.
pub open spec fn temp(code: Code) -> Register {
    Register::Virtual(code.next as usize)
}

/// An arithmetic statement leaves in its register the low 32 bits of what it
/// makes of the two signed numbers, and changes nothing else but a fresh
/// register.
pub proof fn lemma_arithmetic_selected(
    cx: Setting,
    w: World,
    s: Cpu,
    code: Code,
    kind: ArithBinOp,
    left: OperandModel,
    right: OperandModel,
    dst: LocalModel,
)
    requires
        in_use(code, left),
        in_use(code, right),
        biop_code(cx, code, kind, left, right, OperandModel::Local(dst)) is Ok,
    ensures
        ({
            let c = biop_code(cx, code, kind, left, right, OperandModel::Local(dst))->Ok_0;
            let n = s.after_all(w, added(code, c));
            let d = Register::Virtual(dst.id as usize);
            &&& n.regs[d] == calculated(kind, signed(meant(s, left)), signed(meant(s, right)))
                % half()
            &&& same_but(s, n, set![d, temp(code)])
            &&& n.cells == s.cells
        }),
{
    let c = biop_code(cx, code, kind, left, right, OperandModel::Local(dst))->Ok_0;
    let d = Register::Virtual(dst.id as usize);
    let (lhs, mid) = int_register(cx, code, left)->Ok_0;
    let rhs = int_operand(cx, right, "int"@)->Ok_0;
    let size = RegisterSize::W32;
    let op = InstModel::BinOp {
        op: super::selection::binop_of(kind),
        size,
        dst: d,
        lhs,
        rhs,
    };
    lemma_signed_wrapped(meant(s, left));
    lemma_signed_wrapped(meant(s, right));
    lemma_operation_selected(
        kind,
        wrapped(size, meant(s, left)),
        wrapped(size, meant(s, right)),
    );
    match int_operand(cx, left, "int"@)->Ok_0 {
        InstOperand::Register(r) => {
            assert(added(code, c) =~= seq![op]);
            lemma_one(w, s, op);
        },
        InstOperand::Immediate(i) => {
            let mov = InstModel::Mov { size, dst: lhs, src: InstOperand::Immediate(i) };
            assert(added(code, c) =~= seq![mov, op]);
            lemma_two(w, s, mov, op);
            let t = s.after(w, mov);
            assert(t.operand(rhs, size) == wrapped(size, meant(s, right)));
            assert(t.read(lhs, size) == wrapped(size, meant(s, left)));
        },
    }
}

/// A comparison leaves flags under which the branch that is remembered for its
/// result is taken exactly where the predicate holds of the two signed
/// numbers.
pub proof fn lemma_comparison_selected(
    cx: Setting,
    w: World,
    s: Cpu,
    code: Code,
    kind: CmpPredicate,
    left: OperandModel,
    right: OperandModel,
    dst: LocalModel,
)
    requires
        in_use(code, left),
        in_use(code, right),
        comparison_code(cx, code, kind, left, right, OperandModel::Local(dst)) is Ok,
    ensures
        ({
            let c = comparison_code(cx, code, kind, left, right, OperandModel::Local(dst))->Ok_0;
            let n = s.after_all(w, added(code, c));
            let d = dst.id as usize;
            &&& c.conds.contains_key(d)
            &&& taken(c.conds[d], n.flags) <==> relates(
                kind,
                signed(meant(s, left)),
                signed(meant(s, right)),
            )
            &&& same_but(s, n, set![temp(code)])
            &&& n.cells == s.cells
        }),
{
    let c = comparison_code(cx, code, kind, left, right, OperandModel::Local(dst))->Ok_0;
    let (lhs, mid) = int_register(cx, code, left)->Ok_0;
    let rhs = int_operand(cx, right, "int"@)->Ok_0;
    let size = RegisterSize::W32;
    let op = InstModel::Cmp { size, lhs, rhs };
    let a = wrapped(size, meant(s, left));
    let b = wrapped(size, meant(s, right));
    lemma_signed_wrapped(meant(s, left));
    lemma_signed_wrapped(meant(s, right));
    lemma_condition_selected(kind, a, b);
    match int_operand(cx, left, "int"@)->Ok_0 {
        InstOperand::Register(r) => {
            assert(added(code, c) =~= seq![op]);
            lemma_one(w, s, op);
        },
        InstOperand::Immediate(i) => {
            let mov = InstModel::Mov { size, dst: lhs, src: InstOperand::Immediate(i) };
            assert(added(code, c) =~= seq![mov, op]);
            lemma_two(w, s, mov, op);
            let t = s.after(w, mov);
            assert(t.operand(rhs, size) == b);
            assert(t.read(lhs, size) == a);
        },
    }
}

/// A conditional branch goes to its first label where the condition of the
/// comparison holds, and otherwise, by way of a jump, to its second.
pub proof fn lemma_branch_selected(
    cx: Setting,
    code: Code,
    cond: LocalModel,
    true_label: LabelModel,
    false_label: LabelModel,
    insts: Seq<InstModel>,
    i: int,
    s: Cpu,
    j: int,
)
    requires
        cjump_code(cx, code, OperandModel::Local(cond), true_label, false_label) is Ok,
        0 <= i,
        i + 1 < insts.len(),
        ({
            let c = cjump_code(cx, code, OperandModel::Local(cond), true_label, false_label)->Ok_0;
            added(code, c) == seq![insts[i], insts[i + 1]]
        }),
    ensures
        ({
            let c = code.conds[cond.id as usize];
            &&& taken(c, s.flags) ==> goes(insts, i, s.flags, j) == leads_to(
                insts,
                branch_label(cx.func, true_label),
                j,
            )
            &&& !taken(c, s.flags) ==> goes(insts, i, s.flags, i + 1) && goes(
                insts,
                i + 1,
                s.flags,
                j,
            ) == leads_to(insts, branch_label(cx.func, false_label), j)
        }),
{
    let c = cjump_code(cx, code, OperandModel::Local(cond), true_label, false_label)->Ok_0;
    let a = InstModel::BCond {
        cond: code.conds[cond.id as usize],
        label: branch_label(cx.func, true_label),
    };
    let b = InstModel::B { label: branch_label(cx.func, false_label) };
    assert(added(code, c) =~= seq![a, b]);
    assert(seq![a, b][0] == a && seq![a, b][1] == b);
    assert(seq![insts[i], insts[i + 1]][0] == insts[i]);
    assert(seq![insts[i], insts[i + 1]][1] == insts[i + 1]);
}

proof fn lemma_pointer(cx: Setting, w: World, s: Cpu, op: OperandModel)
    requires
        pointer(cx, op) is Ok,
    ensures
        s.address(w, ptr_addr(pointer(cx, op)->Ok_0)) == pointed(cx, w, s, op),
{
}

/// A load leaves in its register what is found at the address.
pub proof fn lemma_load_selected(
    cx: Setting,
    w: World,
    s: Cpu,
    code: Code,
    dst: LocalModel,
    ptr: OperandModel,
)
    requires
        load_code(cx, code, OperandModel::Local(dst), ptr) is Ok,
    ensures
        ({
            let c = load_code(cx, code, OperandModel::Local(dst), ptr)->Ok_0;
            let n = s.after_all(w, added(code, c));
            let size = if dst.dtype is Pointer {
                RegisterSize::X64
            } else {
                RegisterSize::W32
            };
            &&& n == s.with(
                Register::Virtual(dst.id as usize),
                wrapped(size, s.cells[pointed(cx, w, s, ptr)]),
            )
        }),
{
    let c = load_code(cx, code, OperandModel::Local(dst), ptr)->Ok_0;
    let size = register_size(dst.dtype)->Ok_0;
    let inst = InstModel::Ldr {
        size,
        dst: Register::Virtual(dst.id as usize),
        addr: ptr_addr(pointer(cx, ptr)->Ok_0),
    };
    assert(added(code, c) =~= seq![inst]);
    lemma_one(w, s, inst);
    lemma_pointer(cx, w, s, ptr);
}

/// The width under which an operand is stored or passed.
pub open spec fn width(op: OperandModel) -> RegisterSize {
    if op is Local && op.ty() is Pointer {
        RegisterSize::X64
    } else {
        RegisterSize::W32
    }
}

/// A store leaves at the address what the operand stands for.
#[verifier::rlimit(60)]
pub proof fn lemma_store_selected(
    cx: Setting,
    w: World,
    s: Cpu,
    code: Code,
    src: OperandModel,
    ptr: OperandModel,
)
    requires
        in_use(code, src),
        in_use(code, ptr),
        store_code(cx, code, src, ptr) is Ok,
    ensures
        ({
            let c = store_code(cx, code, src, ptr)->Ok_0;
            let n = s.after_all(w, added(code, c));
            &&& n.cells == s.cells.insert(
                pointed(cx, w, s, ptr),
                wrapped(width(src), meant(s, src)),
            )
            &&& same_but(s, n, set![temp(code)])
            &&& n.flags == s.flags
        }),
{
    let c = store_code(cx, code, src, ptr)->Ok_0;
    let (op, size) = value_operand(cx, src)->Ok_0;
    let addr = ptr_addr(pointer(cx, ptr)->Ok_0);
    lemma_pointer(cx, w, s, ptr);
    match op {
        InstOperand::Register(r) => {
            let inst = InstModel::Str { size, src: r, addr };
            assert(added(code, c) =~= seq![inst]);
            lemma_one(w, s, inst);
        },
        InstOperand::Immediate(i) => {
            let mov = InstModel::Mov { size, dst: temp(code), src: op };
            let inst = InstModel::Str { size, src: temp(code), addr };
            assert(added(code, c) =~= seq![mov, inst]);
            lemma_two(w, s, mov, inst);
            let t = s.after(w, mov);
            lemma_pointer(cx, w, t, ptr);
            assert(pointed(cx, w, t, ptr) == pointed(cx, w, s, ptr));
            assert(size == RegisterSize::W32);
            assert(t.read(temp(code), size) == wrapped(size, meant(s, src)));
        },
    }
}

#[verifier::rlimit(80)]
#[verifier::spinoff_prover]
proof fn lemma_field_selected(
    cx: Setting,
    w: World,
    s: Cpu,
    code: Code,
    new_ptr: LocalModel,
    base_ptr: OperandModel,
    index: OperandModel,
)
    requires
        in_use(code, base_ptr),
        in_use(code, index),
        new_ptr.id <= usize::MAX,
        base_ptr matches OperandModel::Local(l) ==> l.id != new_ptr.id,
        index matches OperandModel::Local(l) ==> l.id != new_ptr.id,
        index matches OperandModel::Const { val, .. } ==> i32::MIN <= val <= i32::MAX,
        gep_code(cx, code, OperandModel::Local(new_ptr), base_ptr, index) is Ok,
        field_struct(base_ptr.ty(), new_ptr.dtype) matches Some(name) ==> (
        index matches OperandModel::Const { val, .. } ==> 0
            <= cx.layouts[name].offsets[val] <= i64::MAX),
        field_struct(base_ptr.ty(), new_ptr.dtype) is Some,
    ensures
        ({
            let c = gep_code(cx, code, OperandModel::Local(new_ptr), base_ptr, index)->Ok_0;
            let n = s.after_all(w, added(code, c));
            let d = Register::Virtual(new_ptr.id as usize);
            let base = pointed(cx, w, s, base_ptr);
            &&& n.regs[d] == (base + match field_struct(base_ptr.ty(), new_ptr.dtype) {
                Some(name) => cx.layouts[name].offsets[index->Const_val],
                None => signed(meant(s, index)) * size_align(
                    element_type(base_ptr.ty()),
                    cx.layouts,
                )->Ok_0.0,
            }) % wide()
            &&& same_but(s, n, set![d])
            &&& n.cells == s.cells
        }),
{
    let c = gep_code(cx, code, OperandModel::Local(new_ptr), base_ptr, index)->Ok_0;
    let d = Register::Virtual(new_ptr.id as usize);
    let base = pointer(cx, base_ptr)->Ok_0;
    lemma_pointer(cx, w, s, base_ptr);
    let at = pointed(cx, w, s, base_ptr);
    match field_struct(base_ptr.ty(), new_ptr.dtype) {
        Some(name) => {
            let offset = cx.layouts[name].offsets[index->Const_val];
            match base {
                PtrModel::Stack(slot) => {
                    let inst = InstModel::Lea {
                        dst: d,
                        addr: super::frame::frame_addr(slot.offset_from_fp + offset),
                    };
                    assert(added(code, c) =~= seq![inst]);
                    lemma_one(w, s, inst);
                    lemma_shift(s.regs[Register::Physical(REG_FP)] % wide() + slot.offset_from_fp, offset);
                },
                PtrModel::Global(sym) => {
                    let first = InstModel::Lea { dst: d, addr: AddrModel::Global(sym) };
                    if offset != 0 {
                        let inst = InstModel::BinOp {
                            op: super::types::InstBinOp::Add,
                            size: RegisterSize::X64,
                            dst: d,
                            lhs: d,
                            rhs: super::selection::imm(offset),
                        };
                        assert(added(code, c) =~= seq![first, inst]);
                        lemma_two(w, s, first, inst);
                        assert(at % wide() == at);
                        assert(offset % wide() == offset);
                    } else {
                        assert(added(code, c) =~= seq![first]);
                        lemma_one(w, s, first);
                        assert(at % wide() == at);
                    }
                },
                PtrModel::Register(v) => {
                    let inst = InstModel::Lea {
                        dst: d,
                        addr: AddrModel::BaseOff { base: Register::Virtual(v), offset },
                    };
                    assert(added(code, c) =~= seq![inst]);
                    lemma_one(w, s, inst);
                },
            }
        },
        None => {},
    }
}

#[verifier::rlimit(80)]
#[verifier::spinoff_prover]
proof fn lemma_element_selected(
    cx: Setting,
    w: World,
    s: Cpu,
    code: Code,
    new_ptr: LocalModel,
    base_ptr: OperandModel,
    index: OperandModel,
)
    requires
        in_use(code, base_ptr),
        in_use(code, index),
        new_ptr.id <= usize::MAX,
        base_ptr matches OperandModel::Local(l) ==> l.id != new_ptr.id,
        index matches OperandModel::Local(l) ==> l.id != new_ptr.id,
        index matches OperandModel::Const { val, .. } ==> i32::MIN <= val <= i32::MAX,
        gep_code(cx, code, OperandModel::Local(new_ptr), base_ptr, index) is Ok,
        field_struct(base_ptr.ty(), new_ptr.dtype) matches Some(name) ==> (
        index matches OperandModel::Const { val, .. } ==> 0
            <= cx.layouts[name].offsets[val] <= i64::MAX),
        field_struct(base_ptr.ty(), new_ptr.dtype) is None,
    ensures
        ({
            let c = gep_code(cx, code, OperandModel::Local(new_ptr), base_ptr, index)->Ok_0;
            let n = s.after_all(w, added(code, c));
            let d = Register::Virtual(new_ptr.id as usize);
            let base = pointed(cx, w, s, base_ptr);
            &&& n.regs[d] == (base + match field_struct(base_ptr.ty(), new_ptr.dtype) {
                Some(name) => cx.layouts[name].offsets[index->Const_val],
                None => signed(meant(s, index)) * size_align(
                    element_type(base_ptr.ty()),
                    cx.layouts,
                )->Ok_0.0,
            }) % wide()
            &&& same_but(s, n, set![d])
            &&& n.cells == s.cells
        }),
{
    let c = gep_code(cx, code, OperandModel::Local(new_ptr), base_ptr, index)->Ok_0;
    let d = Register::Virtual(new_ptr.id as usize);
    let base = pointer(cx, base_ptr)->Ok_0;
    lemma_pointer(cx, w, s, base_ptr);
    let at = pointed(cx, w, s, base_ptr);
    match field_struct(base_ptr.ty(), new_ptr.dtype) {
        Some(_) => {},
        None => {
            let element = element_type(base_ptr.ty());
            let (size, _) = size_align(element, cx.layouts)->Ok_0;
            let i = int_operand(cx, index, "index"@)->Ok_0;
            lemma_signed_wrapped(meant(s, index));
            match base {
                PtrModel::Register(v) => {
                    let inst = InstModel::Gep {
                        dst: d,
                        base: Register::Virtual(v),
                        index: i,
                        scale: size,
                    };
                    assert(added(code, c) =~= seq![inst]);
                    lemma_one(w, s, inst);
                    assert(s.operand(i, RegisterSize::W32) == wrapped(
                        RegisterSize::W32,
                        meant(s, index),
                    ));
                },
                _ => {
                    let first = InstModel::Lea { dst: d, addr: ptr_addr(base) };
                    let inst = InstModel::Gep { dst: d, base: d, index: i, scale: size };
                    assert(added(code, c) =~= seq![first, inst]);
                    lemma_two(w, s, first, inst);
                    let t = s.after(w, first);
                    assert(t.operand(i, RegisterSize::W32) == wrapped(
                        RegisterSize::W32,
                        meant(s, index),
                    ));
                    assert(t.read(d, RegisterSize::X64) == at);
                },
            }
        },
    }
}

/// The address of a part: that of a field behind its offset, and that of an
/// element behind as many elements as the index says.
pub proof fn lemma_address_selected(
    cx: Setting,
    w: World,
    s: Cpu,
    code: Code,
    new_ptr: LocalModel,
    base_ptr: OperandModel,
    index: OperandModel,
)
    requires
        in_use(code, base_ptr),
        in_use(code, index),
        new_ptr.id <= usize::MAX,
        base_ptr matches OperandModel::Local(l) ==> l.id != new_ptr.id,
        index matches OperandModel::Local(l) ==> l.id != new_ptr.id,
        index matches OperandModel::Const { val, .. } ==> i32::MIN <= val <= i32::MAX,
        gep_code(cx, code, OperandModel::Local(new_ptr), base_ptr, index) is Ok,
        field_struct(base_ptr.ty(), new_ptr.dtype) matches Some(name) ==> (
        index matches OperandModel::Const { val, .. } ==> 0
            <= cx.layouts[name].offsets[val] <= i64::MAX),
    ensures
        ({
            let c = gep_code(cx, code, OperandModel::Local(new_ptr), base_ptr, index)->Ok_0;
            let n = s.after_all(w, added(code, c));
            let d = Register::Virtual(new_ptr.id as usize);
            let base = pointed(cx, w, s, base_ptr);
            &&& n.regs[d] == (base + match field_struct(base_ptr.ty(), new_ptr.dtype) {
                Some(name) => cx.layouts[name].offsets[index->Const_val],
                None => signed(meant(s, index)) * size_align(
                    element_type(base_ptr.ty()),
                    cx.layouts,
                )->Ok_0.0,
            }) % wide()
            &&& same_but(s, n, set![d])
            &&& n.cells == s.cells
        }),
{
    if field_struct(base_ptr.ty(), new_ptr.dtype) is Some {
        lemma_field_selected(cx, w, s, code, new_ptr, base_ptr, index);
    } else {
        lemma_element_selected(cx, w, s, code, new_ptr, base_ptr, index);
    }
}

proof fn lemma_shift(a: int, b: int)
    ensures
        (a % wide() + b) % wide() == (a + b) % wide(),
{
}

/// A return leaves the value in the first register, and returns.
pub proof fn lemma_return_selected(
    cx: Setting,
    w: World,
    s: Cpu,
    code: Code,
    val: Option<OperandModel>,
)
    requires
        val matches Some(v) ==> in_use(code, v),
        return_code(cx, code, val) is Ok,
    ensures
        ({
            let c = return_code(cx, code, val)->Ok_0;
            let n = s.after_all(w, added(code, c));
            &&& added(code, c).len() > 0
            &&& added(code, c).last() == InstModel::Ret
            &&& val matches Some(v) ==> n.regs[Register::Physical(0)] == wrapped(
                width(v),
                meant(s, v),
            )
            &&& same_but(s, n, set![Register::Physical(0)])
            &&& n.cells == s.cells
        }),
{
    let c = return_code(cx, code, val)->Ok_0;
    match val {
        None => {
            assert(added(code, c) =~= seq![InstModel::Ret]);
            lemma_one(w, s, InstModel::Ret);
        },
        Some(v) => {
            let (op, size) = value_operand(cx, v)->Ok_0;
            let mov = InstModel::Mov { size, dst: Register::Physical(REG_X0), src: op };
            assert(added(code, c) =~= seq![mov, InstModel::Ret]);
            lemma_two(w, s, mov, InstModel::Ret);
        },
    }
}

} // verus!
