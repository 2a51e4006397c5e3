//! What the lines do that enter and leave functions, that keep registers
//! across calls, and that compute with immediates.

use super::execution::{compared, span, Flags};
use super::lines::{
    addsub_encodable, addsub_lines, bits, compare_lines, epilogue_lines, held, magnitude,
    mov_imm_lines, other_scratch, prologue_lines, restore_lines, save_lines, sp_lines, AsmLine,
};
use super::machine::{
    half, holds, lemma_mov_imm, lemma_run_concat, lemma_run_none, lemma_run_push,
    lemma_via_scratch, lemma_with, same_but, wide, wrapped, Machine,
};
use super::types::{InstBinOp, InstOperand, Register, RegisterSize, REG_FP, SCRATCH0, SCRATCH1};
use vstd::prelude::*;

verus! {

/// The stack pointer.
#[verifier::inline]
pub open spec fn sp() -> Register {
    Register::StackPointer
}

/// The register with the number.
#[verifier::inline]
pub open spec fn x(n: u8) -> Register {
    Register::Physical(n)
}

/// The cells from `lo` on and below `hi` are the same.
pub open spec fn same_cells(a: Machine, b: Machine, lo: int, hi: int) -> bool {
    forall|i: int| lo <= i < hi ==> #[trigger] b.cells[i] == a.cells[i]
}

/// The machine after one of the first lines.
proof fn lemma_five(m: Machine, a: AsmLine, b: AsmLine, c: AsmLine, d: AsmLine, e: AsmLine)
    ensures
        m.run(seq![a].push(b).push(c).push(d).push(e)) == m.step(a).step(b).step(c).step(d).step(e),
{
    broadcast use {lemma_run_none, lemma_run_push};

    assert(seq![a] =~= Seq::empty().push(a));
}

proof fn lemma_push(m: Machine, k: u8)
    requires
        16 <= m.regs[sp()] < wide(),
    ensures
        ({
            let s = m.regs[sp()];
            let n = m.step(AsmLine::Push(k));
            &&& n.regs[sp()] == s - 16
            &&& forall|r: Register| r != sp() ==> #[trigger] n.regs[r] == m.regs[r]
            &&& n.cells[s - 16] == m.regs[x(k)]
            &&& forall|i: int| i < s - 16 || i >= s ==> #[trigger] n.cells[i] == m.cells[i]
        }),
{
}

proof fn lemma_push_pair(m: Machine, j: u8, k: u8)
    requires
        16 <= m.regs[sp()] < wide(),
    ensures
        ({
            let s = m.regs[sp()];
            let n = m.step(AsmLine::PushPair(j, k));
            &&& n.regs[sp()] == s - 16
            &&& forall|r: Register| r != sp() ==> #[trigger] n.regs[r] == m.regs[r]
            &&& n.cells[s - 16] == m.regs[x(j)]
            &&& n.cells[s - 8] == m.regs[x(k)]
            &&& forall|i: int| i < s - 16 || i >= s ==> #[trigger] n.cells[i] == m.cells[i]
        }),
{
}

proof fn lemma_pop(m: Machine, k: u8)
    requires
        0 <= m.regs[sp()] < wide() - 16,
    ensures
        ({
            let s = m.regs[sp()];
            let n = m.step(AsmLine::Pop(k));
            &&& n.regs[sp()] == s + 16
            &&& n.regs[x(k)] == m.cells[s]
            &&& forall|r: Register| r != sp() && r != x(k) ==> #[trigger] n.regs[r] == m.regs[r]
            &&& n.cells == m.cells
        }),
{
}

proof fn lemma_pop_pair(m: Machine, j: u8, k: u8)
    requires
        0 <= m.regs[sp()] < wide() - 16,
        j != k,
    ensures
        ({
            let s = m.regs[sp()];
            let n = m.step(AsmLine::PopPair(j, k));
            &&& n.regs[sp()] == s + 16
            &&& n.regs[x(j)] == m.cells[s]
            &&& n.regs[x(k)] == m.cells[s + 8]
            &&& forall|r: Register|
                r != sp() && r != x(j) && r != x(k) ==> #[trigger] n.regs[r] == m.regs[r]
            &&& n.cells == m.cells
        }),
{
}

/// The registers that may hold values across a call are saved below the stack
/// pointer, and nothing else is changed.  Whatever happens then: if the stack
/// pointer and what was saved are as they were, restoring gives each of the
/// registers its value back, puts the stack pointer where it was and changes
/// no other register and no memory.
pub proof fn lemma_registers_survive(m: Machine, w: Machine)
    requires
        m.wf(),
        m.regs[sp()] >= 80,
        ({
            let n = m.run(save_lines());
            w.regs[sp()] == n.regs[sp()] && same_cells(n, w, n.regs[sp()], m.regs[sp()])
        }),
    ensures
        ({
            let n = m.run(save_lines());
            let r = w.run(restore_lines());
            &&& 0 <= n.regs[sp()] <= m.regs[sp()]
            &&& same_but(m, n, set![sp()])
            &&& forall|i: int|
                i < n.regs[sp()] || i >= m.regs[sp()] ==> #[trigger] n.cells[i] == m.cells[i]
            &&& forall|k: u8| 8 <= k <= 15 ==> #[trigger] r.regs[x(k)] == m.regs[x(k)]
            &&& r.regs[sp()] == m.regs[sp()]
            &&& forall|k: u8| k < 8 || k > 15 ==> #[trigger] r.regs[x(k)] == w.regs[x(k)]
            &&& r.cells == w.cells
        }),
{
    let s = m.regs[sp()];
    assert(s < wide()) by {
        assert(holds(sp()));
    }
    lemma_five(
        m,
        AsmLine::Push(15),
        AsmLine::PushPair(13, 14),
        AsmLine::PushPair(11, 12),
        AsmLine::PushPair(9, 10),
        AsmLine::Push(8),
    );
    lemma_five(
        w,
        AsmLine::Pop(8),
        AsmLine::PopPair(9, 10),
        AsmLine::PopPair(11, 12),
        AsmLine::PopPair(13, 14),
        AsmLine::Pop(15),
    );
    lemma_push(m, 15);
    let m1 = m.step(AsmLine::Push(15));
    lemma_push_pair(m1, 13, 14);
    let m2 = m1.step(AsmLine::PushPair(13, 14));
    lemma_push_pair(m2, 11, 12);
    let m3 = m2.step(AsmLine::PushPair(11, 12));
    lemma_push_pair(m3, 9, 10);
    let m4 = m3.step(AsmLine::PushPair(9, 10));
    lemma_push(m4, 8);
    lemma_pop(w, 8);
    let w1 = w.step(AsmLine::Pop(8));
    lemma_pop_pair(w1, 9, 10);
    let w2 = w1.step(AsmLine::PopPair(9, 10));
    lemma_pop_pair(w2, 11, 12);
    let w3 = w2.step(AsmLine::PopPair(11, 12));
    lemma_pop_pair(w3, 13, 14);
    let w4 = w3.step(AsmLine::PopPair(13, 14));
    lemma_pop(w4, 15);
}

/// Moving the stack pointer changes no other register but a scratch register.
pub proof fn lemma_stack_moves(m: Machine, op: InstBinOp, imm: int)
    requires
        m.wf(),
        op is Add || op is Sub,
        0 <= imm < wide(),
    ensures
        ({
            let n = m.run(sp_lines(op, imm));
            &&& n.regs[sp()] == if op is Add {
                (m.regs[sp()] + imm) % wide()
            } else {
                (m.regs[sp()] - imm) % wide()
            }
            &&& same_but(m, n, set![sp(), x(SCRATCH0)])
            &&& n.cells == m.cells
            &&& n.wf()
        }),
{
    broadcast use {lemma_run_none, lemma_run_push, lemma_run_concat, lemma_with};

    assert(holds(sp()));
    if imm == 0 {
    } else if addsub_encodable(imm) {
        let line = AsmLine::OpImm { op, size: RegisterSize::X64, dst: sp(), lhs: sp(), imm };
        assert(seq![line] =~= Seq::empty().push(line));
    } else {
        lemma_mov_imm(m, x(SCRATCH0), RegisterSize::X64, imm);
    }
}

/// Behind the lines that enter a function the frame pointer has the place
/// where the caller's frame pointer and the return address are kept, and the
/// frame lies below.  Whatever happens then: if the frame pointer and what is
/// kept there are as they were, leaving the function gives the stack pointer,
/// the frame pointer and the return address their values back, and changes no
/// other register and no memory.
pub proof fn lemma_entered_and_left(m: Machine, w: Machine, frame: int)
    requires
        m.wf(),
        0 <= frame < wide(),
        m.regs[sp()] >= frame + 16,
        ({
            let n = m.run(prologue_lines(frame));
            w.regs[x(REG_FP)] == n.regs[x(REG_FP)] && same_cells(
                n,
                w,
                n.regs[x(REG_FP)],
                m.regs[sp()],
            )
        }),
    ensures
        ({
            let n = m.run(prologue_lines(frame));
            let r = w.run(epilogue_lines());
            &&& n.regs[x(REG_FP)] == m.regs[sp()] - 16
            &&& n.regs[sp()] == m.regs[sp()] - 16 - frame
            &&& same_but(m, n, set![sp(), x(REG_FP), x(SCRATCH0)])
            &&& forall|i: int|
                i < n.regs[x(REG_FP)] || i >= m.regs[sp()] ==> #[trigger] n.cells[i] == m.cells[i]
            &&& r.regs[sp()] == m.regs[sp()]
            &&& r.regs[x(REG_FP)] == m.regs[x(REG_FP)]
            &&& r.regs[x(30)] == m.regs[x(30)]
            &&& forall|k: u8| k != REG_FP && k != 30 ==> #[trigger] r.regs[x(k)] == w.regs[x(k)]
            &&& r.cells == w.cells
        }),
{
    broadcast use {lemma_run_none, lemma_run_push, lemma_run_concat};

    let s = m.regs[sp()];
    assert(s < wide()) by {
        assert(holds(sp()));
    }
    let push = AsmLine::PushPair(29, 30);
    let point = AsmLine::MovReg { size: RegisterSize::X64, dst: x(REG_FP), src: sp() };
    let m1 = m.step(push);
    let m2 = m1.step(point);
    assert(m1.regs[sp()] == s - 16);
    assert(m2.regs[x(REG_FP)] == s - 16);
    assert(m2.wf()) by {
        assert forall|r: Register| holds(r) implies 0 <= #[trigger] m2.regs[r] < wide() by {
            if r != sp() && r != x(REG_FP) {
                assert(m2.regs[r] == m.regs[r]);
            }
        }
    }
    assert(m.run(seq![push].push(point)) == m2) by {
        assert(seq![push] =~= Seq::empty().push(push));
    }
    lemma_stack_moves(m2, InstBinOp::Sub, frame);
    let n = m.run(prologue_lines(frame));
    assert(n == if frame > 0 {
        m2.run(sp_lines(InstBinOp::Sub, frame))
    } else {
        m2
    }) by {
        if frame <= 0 {
            assert(seq![push].push(point) + Seq::<AsmLine>::empty() =~= seq![push].push(point));
        }
    }
    assert(n.cells[s - 16] == m.regs[x(29)]);
    assert(n.cells[s - 8] == m.regs[x(30)]);
    assert(holds(sp()) && holds(x(REG_FP)));
    let back = AsmLine::MovReg { size: RegisterSize::X64, dst: sp(), src: x(REG_FP) };
    let pop = AsmLine::PopPair(29, 30);
    let w1 = w.step(back);
    assert(w1.regs[sp()] == s - 16);
    let w2 = w1.step(pop);
    assert(w2.regs[sp()] == s);
    assert(w.run(epilogue_lines()) == w2.step(AsmLine::Return)) by {
        assert(seq![back] =~= Seq::empty().push(back));
    }
}

/// Adding or subtracting an immediate, negative or not and of any size, gives
/// the sum or the difference, and changes no other register but a scratch
/// register.
pub proof fn lemma_immediate_added(
    m: Machine,
    op: InstBinOp,
    size: RegisterSize,
    dst: Register,
    lhs: Register,
    imm: int,
)
    requires
        m.wf(),
        op is Add || op is Sub,
        holds(dst),
        dst is Physical,
        holds(lhs),
        !(size is S32),
        -wide() / 2 <= imm < wide() / 2,
    ensures
        ({
            let n = m.run(addsub_lines(op, size, dst, lhs, imm));
            &&& n.regs[dst] == wrapped(
                size,
                if op is Add {
                    m.regs[lhs] + imm
                } else {
                    m.regs[lhs] - imm
                },
            )
            &&& same_but(m, n, set![dst, x(SCRATCH0), x(SCRATCH1)])
            &&& n.cells == m.cells
        }),
{
    broadcast use {lemma_run_none, lemma_run_push, lemma_run_concat, lemma_with};

    let actual = if imm >= 0 {
        op
    } else if op is Add {
        InstBinOp::Sub
    } else {
        InstBinOp::Add
    };
    let v = magnitude(imm);
    if addsub_encodable(v) {
        let line = AsmLine::OpImm { op: actual, size, dst, lhs, imm: v };
        assert(seq![line] =~= Seq::empty().push(line));
    } else {
        lemma_via_scratch(m, actual, size, dst, lhs, v);
        if size is W32 {
            let a = m.regs[lhs];
            assert((a + v % half()) % half() == (a + v) % half()) by {
                vstd::arithmetic::div_mod::lemma_add_mod_noop_right(a, v, half());
            }
            assert((a - v % half()) % half() == (a - v) % half()) by {
                vstd::arithmetic::div_mod::lemma_sub_mod_noop_right(a, v, half());
            }
        }
    }
}

/// The flags that a line leaves.
pub open spec fn flags_after(m: Machine, line: AsmLine) -> Option<Flags> {
    match line {
        AsmLine::CmpReg { size, lhs, rhs } => Some(compared(size, m.regs[lhs], m.regs[rhs])),
        AsmLine::CmpImm { size, lhs, imm } => Some(compared(size, m.regs[lhs], imm)),
        _ => None,
    }
}

/// The flags that the last of some lines leaves.
pub open spec fn flags_left(m: Machine, lines: Seq<AsmLine>) -> Option<Flags> {
    if lines.len() == 0 {
        None
    } else {
        flags_after(m.run(lines.drop_last()), lines.last())
    }
}

#[verifier::spinoff_prover]
proof fn lemma_compared_low(size: RegisterSize, a: int, b: int, c: int)
    requires
        b % span(size) == c % span(size),
    ensures
        compared(size, a, b) == compared(size, a, c),
{
    vstd::arithmetic::div_mod::lemma_sub_mod_noop_right(a, b, span(size));
    vstd::arithmetic::div_mod::lemma_sub_mod_noop_right(a, c, span(size));
}

/// A comparison leaves the flags of the difference between the register and
/// the operand, and changes no register but a scratch register.
pub proof fn lemma_comparison_printed(m: Machine, size: RegisterSize, lhs: Register, rhs: InstOperand)
    requires
        m.wf(),
        holds(lhs),
        !(size is S32),
    ensures
        flags_left(m, compare_lines(size, lhs, rhs)) == Some(
            compared(
                size,
                m.regs[lhs],
                match rhs {
                    InstOperand::Register(r) => m.regs[r],
                    InstOperand::Immediate(imm) => imm as int,
                },
            ),
        ),
        same_but(m, m.run(compare_lines(size, lhs, rhs)), set![x(SCRATCH0), x(SCRATCH1)]),
{
    broadcast use {lemma_run_none, lemma_run_push};

    let lines = compare_lines(size, lhs, rhs);
    match rhs {
        InstOperand::Register(r) => {
            assert(lines.drop_last() =~= Seq::empty());
            assert(lines =~= Seq::empty().push(lines.last()));
        },
        InstOperand::Immediate(imm) => if addsub_encodable(imm as int) {
            assert(lines.drop_last() =~= Seq::empty());
            assert(lines =~= Seq::empty().push(lines.last()));
        } else {
            let t = other_scratch(lhs);
            let v = bits(imm as int);
            lemma_mov_imm(m, t, size, v);
            let front = mov_imm_lines(t, size, v);
            assert(lines.drop_last() =~= front);
            let h = held(t, size, v);
            assert(h % span(size) == imm as int % span(size));
            lemma_compared_low(size, m.regs[lhs], h, imm as int);
            assert(m.run(front).regs[lhs] == m.regs[lhs]);
        },
    }
}

} // verus!
