//! What a caller passes is what the callee fetches.

use super::aapcs::{
    classified, lemma_classified, location, ArgumentLocation,
};
use super::entry::{fetch, fetched, fetches};
use super::execution::{Cpu, World};
use super::frame::outgoing_bytes;
use super::inst::InstModel;
use super::machine::{wide, wrapped};
use super::selected::{added, meant, pointed, same_but, width};
use super::selection::{
    by_address, call_code, pointer, pointer_code, ptr_addr, register_arg_code, register_args_code,
    sp_code, stack_arg_code, stack_args_code, types_of, value_operand, Code, PtrModel, Setting,
};
use super::types::{
    register_size, AddrModel, InstOperand, Register, RegisterSize, REG_FP, REG_IP0, REG_X0,
};
use crate::common::target::symbol_text;
use crate::ir::value::{LocalModel, OperandModel};
use vstd::prelude::*;

verus! {

/// What is passed for an operand: an address where it is one, else its number.
pub open spec fn passed(cx: Setting, w: World, s: Cpu, op: OperandModel) -> int {
    if by_address(op) {
        pointed(cx, w, s, op)
    } else {
        wrapped(width(op), meant(s, op))
    }
}

/// The place on the stack of the argument at position `i`, when the first
/// place is at `sp`.
pub open spec fn stack_place(sp: int, i: int) -> int {
    (sp % wide() + (i - 8) * 8) % wide()
}

/// Constants are 64-bit numbers.
pub open spec fn constants_fit(args: Seq<OperandModel>) -> bool {
    forall|i: int|
        0 <= i < args.len() ==> (#[trigger] args[i] matches OperandModel::Const { val, .. }
            ==> i64::MIN <= val <= i64::MAX)
}

/// The states agree on all that operands are computed from.
pub open spec fn same_values(a: Cpu, b: Cpu) -> bool {
    forall|r: Register|
        r is Virtual || r == Register::Physical(REG_FP) || r == Register::StackPointer
            ==> #[trigger] b.regs[r] == a.regs[r]
}

proof fn lemma_same_passed(cx: Setting, w: World, a: Cpu, b: Cpu, op: OperandModel)
    requires
        same_values(a, b),
    ensures
        passed(cx, w, a, op) == passed(cx, w, b, op),
{
}

proof fn lemma_none(w: World, s: Cpu)
    ensures
        s.after_all(w, Seq::<InstModel>::empty()) == s,
{
}

proof fn lemma_more(w: World, s: Cpu, code: Code, c: Code, inst: InstModel)
    requires
        code.insts.len() <= c.insts.len(),
    ensures
        s.after_all(w, added(code, c.put(inst))) == s.after_all(w, added(code, c)).after(w, inst),
        added(code, c.put(inst)) == added(code, c).push(inst),
{
    assert(added(code, c.put(inst)) =~= added(code, c).push(inst));
    assert(added(code, c).push(inst).drop_last() =~= added(code, c));
}

proof fn lemma_nothing(w: World, s: Cpu, code: Code, c: Code)
    requires
        code.insts == c.insts,
    ensures
        s.after_all(w, added(code, c)) == s,
{
    assert(added(code, c) =~= Seq::<InstModel>::empty());
    lemma_none(w, s);
}

/// An address is put in a register.
proof fn lemma_pointer_runs(
    cx: Setting,
    w: World,
    s: Cpu,
    code: Code,
    c: Code,
    arg: OperandModel,
    dst: Register,
)
    requires
        code.insts.len() <= c.insts.len(),
        pointer_code(cx, c, arg, dst) is Ok,
    ensures
        ({
            let d = pointer_code(cx, c, arg, dst)->Ok_0;
            let n = s.after_all(w, added(code, c));
            &&& s.after_all(w, added(code, d)) == n.with(dst, pointed(cx, w, n, arg))
            &&& d.insts.len() == c.insts.len() + 1
        }),
{
    let n = s.after_all(w, added(code, c));
    match pointer(cx, arg)->Ok_0 {
        PtrModel::Register(v) => {
            lemma_more(
                w,
                s,
                code,
                c,
                InstModel::Mov {
                    size: RegisterSize::X64,
                    dst,
                    src: InstOperand::Register(Register::Virtual(v)),
                },
            );
        },
        p => {
            lemma_more(w, s, code, c, InstModel::Lea { dst, addr: ptr_addr(p) });
        },
    }
}

/// An argument is put in a register.
proof fn lemma_register_arg_runs(
    cx: Setting,
    w: World,
    s: Cpu,
    code: Code,
    c: Code,
    arg: OperandModel,
    n: u8,
)
    requires
        code.insts.len() <= c.insts.len(),
        register_arg_code(cx, c, arg, n) is Ok,
        arg matches OperandModel::Const { val, .. } ==> i64::MIN <= val <= i64::MAX,
    ensures
        ({
            let d = register_arg_code(cx, c, arg, n)->Ok_0;
            let t = s.after_all(w, added(code, c));
            &&& s.after_all(w, added(code, d)) == t.with(
                Register::Physical(n),
                passed(cx, w, t, arg),
            )
            &&& d.insts.len() > c.insts.len()
        }),
{
    let dst = Register::Physical(n);
    if by_address(arg) {
        lemma_pointer_runs(cx, w, s, code, c, arg, dst);
    } else {
        let (op, size) = value_operand(cx, arg)->Ok_0;
        lemma_more(w, s, code, c, InstModel::Mov { size, dst, src: op });
    }
}

/// The first eight arguments are passed in the first eight registers.
pub proof fn lemma_register_args_run(
    cx: Setting,
    w: World,
    s: Cpu,
    code: Code,
    c: Code,
    args: Seq<OperandModel>,
    locs: Seq<ArgumentLocation>,
)
    requires
        code.insts.len() <= c.insts.len(),
        register_args_code(cx, c, args, locs) is Ok,
        args.len() <= locs.len(),
        constants_fit(args),
        forall|i: int| 0 <= i < locs.len() ==> #[trigger] locs[i] == location(i),
    ensures
        ({
            let d = register_args_code(cx, c, args, locs)->Ok_0;
            let t = s.after_all(w, added(code, c));
            let n = s.after_all(w, added(code, d));
            &&& d.insts.len() >= c.insts.len()
            &&& n.cells == t.cells
            &&& forall|i: int|
                0 <= i < args.len() && i < 8 ==> n.regs[Register::Physical(i as u8)] == passed(
                    cx,
                    w,
                    t,
                    #[trigger] args[i],
                )
            &&& forall|r: Register|
                !(r matches Register::Physical(k) && k < 8) ==> #[trigger] n.regs[r] == t.regs[r]
        }),
    decreases args.len(),
{
    if args.len() > 0 {
        let front = args.drop_last();
        assert(constants_fit(front)) by {
            assert forall|i: int| 0 <= i < front.len() implies (
            #[trigger] front[i] matches OperandModel::Const { val, .. } ==> i64::MIN <= val
                <= i64::MAX) by {
                assert(front[i] == args[i]);
            }
        }
        lemma_register_args_run(cx, w, s, code, c, front, locs);
        let d1 = register_args_code(cx, c, front, locs)->Ok_0;
        let t = s.after_all(w, added(code, c));
        let n1 = s.after_all(w, added(code, d1));
        let k = args.len() - 1;
        assert(locs[k] == location(k));
        assert(args[k] == args.last());
        if k < 8 {
            lemma_register_arg_runs(cx, w, s, code, d1, args.last(), k as u8);
            lemma_same_passed(cx, w, t, n1, args.last());
        }
        let d = register_args_code(cx, c, args, locs)->Ok_0;
        let n = s.after_all(w, added(code, d));
        assert forall|i: int| 0 <= i < args.len() && i < 8 implies n.regs[Register::Physical(
            i as u8,
        )] == passed(cx, w, t, #[trigger] args[i]) by {
            if i < k {
                assert(front[i] == args[i]);
                assert(n1.regs[Register::Physical(i as u8)] == passed(cx, w, t, front[i]));
            }
        }
    }
}

/// An argument is stored on the stack.
#[verifier::rlimit(80)]
#[verifier::spinoff_prover]
proof fn lemma_stack_arg_runs(
    cx: Setting,
    w: World,
    s: Cpu,
    code: Code,
    c: Code,
    arg: OperandModel,
    offset: int,
)
    requires
        code.insts.len() <= c.insts.len(),
        stack_arg_code(cx, c, arg, offset) is Ok,
        arg matches OperandModel::Const { val, .. } ==> i64::MIN <= val <= i64::MAX,
    ensures
        ({
            let d = stack_arg_code(cx, c, arg, offset)->Ok_0;
            let t = s.after_all(w, added(code, c));
            let n = s.after_all(w, added(code, d));
            &&& n.cells == t.cells.insert(
                (t.regs[Register::StackPointer] % wide() + offset) % wide(),
                passed(cx, w, t, arg),
            )
            &&& same_but(t, n, set![Register::Physical(REG_IP0)])
            &&& d.insts.len() > c.insts.len()
        }),
{
    let addr = AddrModel::BaseOff { base: Register::StackPointer, offset };
    let scratch = Register::Physical(REG_IP0);
    let t = s.after_all(w, added(code, c));
    if by_address(arg) {
        lemma_pointer_runs(cx, w, s, code, c, arg, scratch);
        let c1 = pointer_code(cx, c, arg, scratch)->Ok_0;
        lemma_more(
            w,
            s,
            code,
            c1,
            InstModel::Str { size: RegisterSize::X64, src: scratch, addr },
        );
        assert(0 <= pointed(cx, w, t, arg) < wide());
        let u = s.after_all(w, added(code, c1));
        assert(u.read(scratch, RegisterSize::X64) == pointed(cx, w, t, arg));
    } else {
        let (op, size) = value_operand(cx, arg)->Ok_0;
        match op {
            InstOperand::Register(r) => {
                lemma_more(w, s, code, c, InstModel::Str { size, src: r, addr });
            },
            _ => {
                let mov = InstModel::Mov { size, dst: scratch, src: op };
                lemma_more(w, s, code, c, mov);
                lemma_more(
                    w,
                    s,
                    code,
                    c.put(mov),
                    InstModel::Str { size, src: scratch, addr },
                );
                assert(size == RegisterSize::W32);
                let u = s.after_all(w, added(code, c.put(mov)));
                assert(u.read(scratch, size) == wrapped(size, meant(t, arg)));
            },
        }
    }
}

/// The other arguments are passed on the stack, each at its place.
pub proof fn lemma_stack_args_run(
    cx: Setting,
    w: World,
    s: Cpu,
    code: Code,
    c: Code,
    args: Seq<OperandModel>,
    locs: Seq<ArgumentLocation>,
)
    requires
        code.insts.len() <= c.insts.len(),
        stack_args_code(cx, c, args, locs) is Ok,
        args.len() <= locs.len(),
        args.len() * 8 + 16 <= i64::MAX,
        constants_fit(args),
        forall|i: int| 0 <= i < locs.len() ==> #[trigger] locs[i] == location(i),
    ensures
        ({
            let d = stack_args_code(cx, c, args, locs)->Ok_0;
            let t = s.after_all(w, added(code, c));
            let n = s.after_all(w, added(code, d));
            &&& d.insts.len() >= c.insts.len()
            &&& same_but(t, n, set![Register::Physical(REG_IP0)])
            &&& forall|i: int|
                8 <= i < args.len() ==> n.cells[stack_place(
                    t.regs[Register::StackPointer],
                    i,
                )] == passed(cx, w, t, #[trigger] args[i])
            &&& forall|a: int|
                (forall|i: int|
                    8 <= i < args.len() ==> a != #[trigger] stack_place(
                        t.regs[Register::StackPointer],
                        i,
                    )) ==> #[trigger] n.cells[a] == t.cells[a]
        }),
    decreases args.len(),
{
    if args.len() > 0 {
        let front = args.drop_last();
        assert(constants_fit(front)) by {
            assert forall|i: int| 0 <= i < front.len() implies (
            #[trigger] front[i] matches OperandModel::Const { val, .. } ==> i64::MIN <= val
                <= i64::MAX) by {
                assert(front[i] == args[i]);
            }
        }
        lemma_stack_args_run(cx, w, s, code, c, front, locs);
        let d1 = stack_args_code(cx, c, front, locs)->Ok_0;
        let t = s.after_all(w, added(code, c));
        let n1 = s.after_all(w, added(code, d1));
        let sp = t.regs[Register::StackPointer];
        let k = args.len() - 1;
        assert(locs[k] == location(k));
        assert(args[k] == args.last());
        if k >= 8 {
            assert(location(k) == (ArgumentLocation::Stack { offset: ((k - 8) * 8) as i64 }));
            lemma_stack_arg_runs(cx, w, s, code, d1, args.last(), (k - 8) * 8);
            lemma_same_passed(cx, w, t, n1, args.last());
        }
        let d = stack_args_code(cx, c, args, locs)->Ok_0;
        let n = s.after_all(w, added(code, d));
        assert forall|i: int| 8 <= i < args.len() implies n.cells[stack_place(sp, i)] == passed(
            cx,
            w,
            t,
            #[trigger] args[i],
        ) by {
            if i < k {
                assert(front[i] == args[i]);
                assert(n1.cells[stack_place(sp, i)] == passed(cx, w, t, front[i]));
                lemma_places_apart(sp, i, k);
            }
        }
        assert forall|a: int|
            (forall|i: int| 8 <= i < args.len() ==> a != #[trigger] stack_place(sp, i)) implies
            #[trigger] n.cells[a] == t.cells[a] by {
            assert forall|i: int| 8 <= i < front.len() implies a != #[trigger] stack_place(
                sp,
                i,
            ) by {}
            assert(n1.cells[a] == t.cells[a]);
            if k >= 8 {
                assert(a != stack_place(sp, k));
            }
        }
    }
}

proof fn lemma_places_apart(sp: int, i: int, k: int)
    requires
        8 <= i < k,
        k * 8 <= i64::MAX,
    ensures
        stack_place(sp, i) != stack_place(sp, k),
{
    let f = sp % wide();
    let a = (i - 8) * 8;
    let b = (k - 8) * 8;
    assert(0 <= a < b <= i64::MAX);
    assert((f + a) % wide() != (f + b) % wide());
}

/// All is in place for a call: the first eight arguments are in registers,
/// the others on the stack from the stack pointer on.
pub open spec fn poised(
    cx: Setting,
    w: World,
    s: Cpu,
    args: Seq<OperandModel>,
    b: Cpu,
) -> bool {
    &&& forall|i: int|
        0 <= i < args.len() && i < 8 ==> b.regs[Register::Physical(i as u8)] == passed(
            cx,
            w,
            s,
            #[trigger] args[i],
        )
    &&& forall|i: int|
        8 <= i < args.len() ==> b.cells[stack_place(b.regs[Register::StackPointer], i)] == passed(
            cx,
            w,
            s,
            #[trigger] args[i],
        )
    &&& forall|r: Register|
        r is Virtual || r == Register::Physical(REG_FP) ==> #[trigger] b.regs[r] == s.regs[r]
}

/// A call passes its arguments, calls the function under its symbol, and moves
/// the result from the first register to its own.
pub proof fn lemma_call_selected(
    cx: Setting,
    w: World,
    s: Cpu,
    code: Code,
    func: Seq<char>,
    res: Option<LocalModel>,
    args: Seq<OperandModel>,
) -> (b: Cpu)
    requires
        args.len() * 8 + 16 <= i64::MAX,
        constants_fit(args),
        0 <= s.regs[Register::StackPointer] < wide(),
        call_code(
            cx,
            code,
            func,
            match res {
                Some(l) => Some(OperandModel::Local(l)),
                None => None,
            },
            args,
        ) is Ok,
    ensures
        ({
            let r = match res {
                Some(l) => Some(OperandModel::Local(l)),
                None => None,
            };
            let c = call_code(cx, code, func, r, args)->Ok_0;
            let n = s.after_all(w, added(code, c));
            let back = b.called(w, symbol_text(cx.target, func));
            &&& poised(cx, w, s, args, b)
            &&& n.cells == back.cells
            &&& res matches Some(l) ==> n.regs[Register::Virtual(l.id as usize)] == wrapped(
                register_size(l.dtype)->Ok_0,
                back.regs[Register::Physical(0)],
            )
            &&& forall|q: Register|
                (q is Virtual || q == Register::Physical(REG_FP)) && (res matches Some(l) ==> q
                    != Register::Virtual(l.id as usize)) ==> #[trigger] n.regs[q] == s.regs[q]
        }),
{
    let r = match res {
        Some(l) => Some(OperandModel::Local(l)),
        None => None,
    };
    let c = call_code(cx, code, func, r, args)->Ok_0;
    let locs = classified(types_of(args))->Ok_0;
    lemma_classified(types_of(args));
    let bytes = outgoing_bytes(locs);
    let c1 = code.put(InstModel::SaveCallerRegs);
    let start = sp_code(c1, bytes, true);
    let c2 = stack_args_code(cx, start, args, locs)->Ok_0;
    let c3 = register_args_code(cx, c2, args, locs)->Ok_0;
    let sym = symbol_text(cx.target, func);
    let c4 = c3.put(InstModel::Bl { func: sym });
    let c5 = sp_code(c4, bytes, false);
    let c6 = c5.put(InstModel::RestoreCallerRegs);
    lemma_nothing(w, s, code, code);
    lemma_more(w, s, code, code, InstModel::SaveCallerRegs);
    if bytes > 0 {
        lemma_more(w, s, code, c1, InstModel::SubSp { imm: bytes });
    }
    let t = s.after_all(w, added(code, start));
    lemma_stack_args_run(cx, w, s, code, start, args, locs);
    let t2 = s.after_all(w, added(code, c2));
    lemma_register_args_run(cx, w, s, code, c2, args, locs);
    let b = s.after_all(w, added(code, c3));
    lemma_more(w, s, code, c3, InstModel::Bl { func: sym });
    if bytes > 0 {
        lemma_more(w, s, code, c4, InstModel::AddSp { imm: bytes });
    }
    lemma_more(w, s, code, c5, InstModel::RestoreCallerRegs);
    if let Some(l) = res {
        lemma_more(
            w,
            s,
            code,
            c6,
            InstModel::Mov {
                size: register_size(l.dtype)->Ok_0,
                dst: Register::Virtual(l.id as usize),
                src: InstOperand::Register(Register::Physical(REG_X0)),
            },
        );
    }
    assert(t2.regs[Register::StackPointer] == t.regs[Register::StackPointer]);
    assert(b.regs[Register::StackPointer] == t.regs[Register::StackPointer]);
    assert forall|i: int| 0 <= i < args.len() && i < 8 implies b.regs[Register::Physical(i as u8)]
        == passed(cx, w, s, #[trigger] args[i]) by {
        lemma_same_passed_but_sp(cx, w, s, t2, args[i]);
    }
    assert forall|i: int| 8 <= i < args.len() implies b.cells[stack_place(
        b.regs[Register::StackPointer],
        i,
    )] == passed(cx, w, s, #[trigger] args[i]) by {
        lemma_same_passed_but_sp(cx, w, s, t, args[i]);
    }
    b
}

proof fn lemma_same_passed_but_sp(cx: Setting, w: World, a: Cpu, b: Cpu, op: OperandModel)
    requires
        forall|r: Register|
            r is Virtual || r == Register::Physical(REG_FP) ==> #[trigger] b.regs[r] == a.regs[r],
    ensures
        passed(cx, w, a, op) == passed(cx, w, b, op),
{
}

/// What a function finds for its argument at position `i`: in a register, or
/// on the stack behind the saved frame pointer and return address.
pub open spec fn incoming(s: Cpu, i: int) -> int {
    if i < 8 {
        s.regs[Register::Physical(i as u8)]
    } else {
        s.cells[(s.regs[Register::Physical(REG_FP)] % wide() + 16 + (i - 8) * 8) % wide()]
    }
}

/// A function fetches every argument to the register of its parameter.
pub proof fn lemma_arguments_fetched(w: World, s: Cpu, params: Seq<LocalModel>, n: nat)
    requires
        n <= params.len(),
        params.len() * 8 + 16 <= i64::MAX,
        fetches(params, n) is Ok,
        forall|i: int, j: int|
            0 <= i < j < params.len() ==> (#[trigger] params[i]).id != (#[trigger] params[j]).id,
        forall|i: int| 0 <= i < params.len() ==> (#[trigger] params[i]).id <= usize::MAX,
    ensures
        ({
            let e = s.after_all(w, fetches(params, n)->Ok_0);
            &&& e.cells == s.cells
            &&& forall|r: Register| !(r is Virtual) ==> #[trigger] e.regs[r] == s.regs[r]
            &&& forall|i: int|
                0 <= i < n ==> e.regs[Register::Virtual((#[trigger] params[i]).id as usize)]
                    == wrapped(register_size(params[i].dtype)->Ok_0, incoming(s, i))
        }),
    decreases n,
{
    if n == 0 {
        lemma_none(w, s);
    } else {
        lemma_arguments_fetched(w, s, params, (n - 1) as nat);
        let front = fetches(params, (n - 1) as nat)->Ok_0;
        let k = n - 1;
        let size = register_size(params[k].dtype)->Ok_0;
        let inst = fetch(params[k], size, k);
        assert(front.push(inst).drop_last() =~= front);
        let t = s.after_all(w, front);
        let e = t.after(w, inst);
        assert(s.after_all(w, front.push(inst)) == e);
        assert(t.regs[Register::Physical(REG_FP)] == s.regs[Register::Physical(REG_FP)]);
        if k < 8 {
            assert(t.regs[Register::Physical(k as u8)] == s.regs[Register::Physical(k as u8)]);
        } else {
            assert(location(k) == (ArgumentLocation::Stack { offset: ((k - 8) * 8) as i64 }));
        }
        assert(e.regs[Register::Virtual(params[k].id as usize)] == wrapped(size, incoming(s, k)));
        assert forall|i: int| 0 <= i < n implies e.regs[Register::Virtual(
            (#[trigger] params[i]).id as usize,
        )] == wrapped(register_size(params[i].dtype)->Ok_0, incoming(s, i)) by {
            if i < k {
                assert(params[i].id != params[k].id);
            }
        }
    }
}

proof fn lemma_same_place(sp: int, bytes: int)
    ensures
        ((sp - 16) % wide() % wide() + 16 + bytes) % wide() == (sp % wide() + bytes) % wide(),
{
}

/// What the caller passes is what the callee has in the register of its
/// parameter: the callee starts with the registers and the memory of the
/// caller, and a frame pointer two places below the caller's stack pointer.
#[verifier::rlimit(80)]
#[verifier::spinoff_prover]
pub proof fn lemma_arguments_arrive(
    cx: Setting,
    w: World,
    s: Cpu,
    args: Seq<OperandModel>,
    b: Cpu,
    e: Cpu,
    params: Seq<LocalModel>,
    i: int,
)
    requires
        poised(cx, w, s, args, b),
        args.len() == params.len(),
        0 <= i < params.len(),
        params.len() * 8 + 16 <= i64::MAX,
        fetched(params) is Ok,
        forall|i: int, j: int|
            0 <= i < j < params.len() ==> (#[trigger] params[i]).id != (#[trigger] params[j]).id,
        forall|i: int| 0 <= i < params.len() ==> (#[trigger] params[i]).id <= usize::MAX,
        e.cells == b.cells,
        forall|k: u8| k < 8 ==> #[trigger] e.regs[Register::Physical(k)] == b.regs[
            Register::Physical(k)],
        e.regs[Register::Physical(REG_FP)] == (b.regs[Register::StackPointer] - 16) % wide(),
    ensures
        e.after_all(w, fetched(params)->Ok_0).regs[Register::Virtual(params[i].id as usize)]
            == wrapped(register_size(params[i].dtype)->Ok_0, passed(cx, w, s, args[i])),
{
    lemma_arguments_fetched(w, e, params, params.len());
    assert(params[i].id <= usize::MAX);
    assert(args[i] == args[i]);
    if i < 8 {
        assert(e.regs[Register::Physical(i as u8)] == b.regs[Register::Physical(i as u8)]);
    } else {
        lemma_same_place(b.regs[Register::StackPointer], (i - 8) * 8);
    }
}

} // verus!
