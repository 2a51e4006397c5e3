//! What instructions do, whether their registers are virtual or not.
//!
//! Every register has a cell of its own, and memory is a map from addresses to
//! cells.  Calls happen between the instructions that save and restore the
//! registers that values are kept in, so they leave those alone.

use super::inst::{inst_positions, InstModel};
use super::lines::{cond_text, op_text};
use super::machine::{half, signed, wide, wrapped};
use super::register_allocator::stream_succ;
use super::selection::{binop_of, cond_of};
use super::types::{AddrModel, Cond, InstBinOp, InstOperand, Register, RegisterSize};
use crate::ir::execution::{calculated, relates};
use crate::ir::gen::static_eval::quotient;
use crate::ir::stmt::{ArithBinOp, CmpPredicate};
use vstd::prelude::*;

verus! {

/// The flags that a comparison leaves.
pub struct Flags {
    /// The difference is negative.
    pub negative: bool,
    /// The difference is zero.
    pub zero: bool,
    /// Nothing was borrowed.
    pub carry: bool,
    /// The difference of the signed numbers does not fit.
    pub overflow: bool,
}

/// The number of values of a width.
pub open spec fn span(size: RegisterSize) -> int {
    match size {
        RegisterSize::X64 => wide(),
        _ => half(),
    }
}

/// The number that the bits of a register stand for, with a sign.
pub open spec fn as_signed(size: RegisterSize, n: int) -> int {
    let low = n % span(size);
    if low >= span(size) / 2 {
        low - span(size)
    } else {
        low
    }
}

/// The flags after `b` is subtracted from `a`.
pub open spec fn compared(size: RegisterSize, a: int, b: int) -> Flags {
    let difference = (a - b) % span(size);
    let exact = as_signed(size, a) - as_signed(size, b);
    Flags {
        negative: difference >= span(size) / 2,
        zero: difference == 0,
        carry: a % span(size) >= b % span(size),
        overflow: exact < -(span(size) / 2) || exact >= span(size) / 2,
    }
}

/// A branch under the condition is taken.
pub open spec fn taken(cond: Cond, f: Flags) -> bool {
    match cond {
        Cond::Eq => f.zero,
        Cond::Ne => !f.zero,
        Cond::Lt => f.negative != f.overflow,
        Cond::Le => f.zero || f.negative != f.overflow,
        Cond::Gt => !f.zero && f.negative == f.overflow,
        Cond::Ge => f.negative == f.overflow,
    }
}

/// What an operation of the machine makes of two registers.
pub open spec fn operated(op: InstBinOp, size: RegisterSize, a: int, b: int) -> int {
    match op {
        InstBinOp::Add => a + b,
        InstBinOp::Sub => a - b,
        InstBinOp::Mul => a * b,
        InstBinOp::SDiv => if b == 0 {
            0
        } else {
            quotient(as_signed(size, a), as_signed(size, b))
        },
    }
}

/// The branch that is selected for a comparison is taken exactly where the
/// predicate holds of the two signed numbers.
pub proof fn lemma_condition_selected(op: CmpPredicate, a: int, b: int)
    ensures
        taken(cond_of(op), compared(RegisterSize::W32, a, b)) <==> relates(
            op,
            signed(a),
            signed(b),
        ),
{
    let x = a % half();
    let y = b % half();
    assert((a - b) % half() == (x - y) % half());
}

/// The operation that is selected for an arithmetic statement gives the low
/// 32 bits of what the statement makes of the signed numbers.
pub proof fn lemma_operation_selected(op: ArithBinOp, a: int, b: int)
    requires
        0 <= a < half(),
        0 <= b < half(),
    ensures
        operated(binop_of(op), RegisterSize::W32, a, b) % half() == calculated(
            op,
            signed(a),
            signed(b),
        ) % half(),
{
    let x = signed(a);
    let y = signed(b);
    assert(x % half() == a && y % half() == b);
    match op {
        ArithBinOp::Mul => {
            vstd::arithmetic::div_mod::lemma_mul_mod_noop(x, y, half());
            vstd::arithmetic::div_mod::lemma_mul_mod_noop(a, b, half());
        },
        _ => {},
    }
}

/// What follows `b.` in the name of a branch tells when it is taken.
pub open spec fn suffix_taken(name: Seq<char>, f: Flags) -> bool {
    if name == seq!['e', 'q'] {
        f.zero
    } else if name == seq!['n', 'e'] {
        !f.zero
    } else if name == seq!['l', 't'] {
        f.negative != f.overflow
    } else if name == seq!['l', 'e'] {
        f.zero || f.negative != f.overflow
    } else if name == seq!['g', 't'] {
        !f.zero && f.negative == f.overflow
    } else {
        name == seq!['g', 'e'] && f.negative == f.overflow
    }
}

/// The name under which a conditional branch is printed is that of a branch
/// which is taken under its condition.
pub proof fn lemma_branch_named(cond: Cond, f: Flags)
    ensures
        suffix_taken(cond_text(cond), f) == taken(cond, f),
{
    reveal_strlit("eq");
    reveal_strlit("ne");
    reveal_strlit("lt");
    reveal_strlit("le");
    reveal_strlit("gt");
    reveal_strlit("ge");
    assert("eq"@ =~= seq!['e', 'q']);
    assert("ne"@ =~= seq!['n', 'e']);
    assert("lt"@ =~= seq!['l', 't']);
    assert("le"@ =~= seq!['l', 'e']);
    assert("gt"@ =~= seq!['g', 't']);
    assert("ge"@ =~= seq!['g', 'e']);
    assert("eq"@[0] == 'e' && "ne"@[0] == 'n' && "lt"@[0] == 'l' && "gt"@[0] == 'g');
    assert("eq"@[1] == 'q' && "ne"@[1] == 'e' && "lt"@[1] == 't' && "le"@[1] == 'e' && "gt"@[1]
        == 't' && "ge"@[1] == 'e' && "le"@[0] == 'l' && "ge"@[0] == 'g');
    assert(seq!['e', 'q'][0] == 'e' && seq!['n', 'e'][0] == 'n' && seq!['l', 't'][0] == 'l' && seq![
        'l',
        'e',
    ][0] == 'l' && seq!['g', 't'][0] == 'g' && seq!['g', 'e'][0] == 'g');
    assert(seq!['e', 'q'][1] == 'q' && seq!['n', 'e'][1] == 'e' && seq!['l', 't'][1] == 't' && seq![
        'l',
        'e',
    ][1] == 'e' && seq!['g', 't'][1] == 't' && seq!['g', 'e'][1] == 'e');
}

/// What the name of an operation says that it computes.
pub open spec fn named_result(name: Seq<char>, size: RegisterSize, a: int, b: int) -> Option<int> {
    if name == seq!['a', 'd', 'd'] {
        Some(a + b)
    } else if name == seq!['s', 'u', 'b'] {
        Some(a - b)
    } else if name == seq!['m', 'u', 'l'] {
        Some(a * b)
    } else if name == seq!['s', 'd', 'i', 'v'] {
        Some(
            if b == 0 {
                0
            } else {
                quotient(as_signed(size, a), as_signed(size, b))
            },
        )
    } else {
        None
    }
}

/// The name under which an operation is printed is that of an operation which
/// computes the same.
pub proof fn lemma_operation_named(op: InstBinOp, size: RegisterSize, a: int, b: int)
    ensures
        named_result(op_text(op), size, a, b) == Some(operated(op, size, a, b)),
{
    reveal_strlit("add");
    reveal_strlit("sub");
    reveal_strlit("mul");
    reveal_strlit("sdiv");
    assert("add"@ =~= seq!['a', 'd', 'd']);
    assert("sub"@ =~= seq!['s', 'u', 'b']);
    assert("mul"@ =~= seq!['m', 'u', 'l']);
    assert("sdiv"@ =~= seq!['s', 'd', 'i', 'v']);
    assert(seq!['a', 'd', 'd'][0] == 'a' && seq!['s', 'u', 'b'][0] == 's' && seq![
        'm',
        'u',
        'l',
    ][0] == 'm' && seq!['s', 'd', 'i', 'v'][0] == 's');
    assert(seq!['s', 'u', 'b'].len() == 3 && seq!['s', 'd', 'i', 'v'].len() == 4);
}

/// What a call leaves.
pub struct Reply {
    /// The registers that a call may change.
    pub regs: Map<Register, int>,
    pub cells: Map<int, int>,
}

/// What surrounds a function.
pub struct World {
    /// What the call of a function does, given the first eight registers, the
    /// stack pointer and the memory.
    pub calls: spec_fn(Seq<char>, Seq<int>, int, Map<int, int>) -> Reply,
    /// The address of a symbol.
    pub symbols: spec_fn(Seq<char>) -> int,
}

/// The state while instructions run.
#[verifier::ext_equal]
pub struct Cpu {
    pub regs: Map<Register, int>,
    pub cells: Map<int, int>,
    pub flags: Flags,
}

/// A call may change the register.
pub open spec fn changed_by_calls(r: Register) -> bool {
    r matches Register::Physical(n) && (n < 8 || n == 16 || n == 17)
}

impl Cpu {
    /// The state with another value in a register.
    pub open spec fn with(self, r: Register, v: int) -> Cpu {
        Cpu { regs: self.regs.insert(r, v), ..self }
    }

    /// The state with another value in memory.
    pub open spec fn storing(self, at: int, v: int) -> Cpu {
        Cpu { cells: self.cells.insert(at, v), ..self }
    }

    /// The value of a register, read under a width.
    pub open spec fn read(self, r: Register, size: RegisterSize) -> int {
        wrapped(size, self.regs[r])
    }

    /// The value of an operand.
    pub open spec fn operand(self, op: InstOperand, size: RegisterSize) -> int {
        match op {
            InstOperand::Register(r) => self.read(r, size),
            InstOperand::Immediate(i) => wrapped(size, i as int),
        }
    }

    /// An address.
    pub open spec fn address(self, w: World, addr: AddrModel) -> int {
        match addr {
            AddrModel::BaseOff { base, offset } => (self.read(base, RegisterSize::X64) + offset)
                % wide(),
            AddrModel::Global(sym) => (w.symbols)(sym) % wide(),
        }
    }

    /// The first eight registers.
    pub open spec fn arguments(self) -> Seq<int> {
        Seq::new(8, |i: int| self.regs[Register::Physical(i as u8)])
    }

    /// The state after a call.
    pub open spec fn called(self, w: World, func: Seq<char>) -> Cpu {
        let reply = (w.calls)(
            func,
            self.arguments(),
            self.regs[Register::StackPointer],
            self.cells,
        );
        Cpu {
            regs: Map::new(
                |r: Register| true,
                |r: Register|
                    if changed_by_calls(r) {
                        reply.regs[r]
                    } else {
                        self.regs[r]
                    },
            ),
            cells: reply.cells,
            flags: self.flags,
        }
    }

    /// The state after an instruction on integers; where control goes is
    /// another matter.
    pub open spec fn after(self, w: World, inst: InstModel) -> Cpu {
        match inst {
            InstModel::Mov { size, dst, src } => self.with(dst, self.operand(src, size)),
            InstModel::BinOp { op, size, dst, lhs, rhs } => self.with(
                dst,
                wrapped(size, operated(op, size, self.read(lhs, size), self.operand(rhs, size))),
            ),
            InstModel::Ldr { size, dst, addr } => self.with(
                dst,
                wrapped(size, self.cells[self.address(w, addr)]),
            ),
            InstModel::Str { size, src, addr } => self.storing(
                self.address(w, addr),
                self.read(src, size),
            ),
            InstModel::Lea { dst, addr } => self.with(dst, self.address(w, addr)),
            InstModel::Gep { dst, base, index, scale } => self.with(
                dst,
                (self.read(base, RegisterSize::X64) + signed(
                    self.operand(index, RegisterSize::W32),
                ) * scale) % wide(),
            ),
            InstModel::Cmp { size, lhs, rhs } => Cpu {
                flags: compared(size, self.read(lhs, size), self.operand(rhs, size)),
                ..self
            },
            InstModel::Bl { func } => self.called(w, func),
            InstModel::SubSp { imm } => self.with(
                Register::StackPointer,
                (self.regs[Register::StackPointer] - imm) % wide(),
            ),
            InstModel::AddSp { imm } => self.with(
                Register::StackPointer,
                (self.regs[Register::StackPointer] + imm) % wide(),
            ),
            _ => self,
        }
    }

    /// The state after some instructions, one behind the other.
    pub open spec fn after_all(self, w: World, insts: Seq<InstModel>) -> Cpu
        decreases insts.len(),
    {
        if insts.len() == 0 {
            self
        } else {
            self.after_all(w, insts.drop_last()).after(w, insts.last())
        }
    }
}

/// `i` is where a jump to the label leads: the last place that bears it.
pub open spec fn leads_to(insts: Seq<InstModel>, label: Seq<char>, i: int) -> bool {
    &&& 0 <= i < insts.len()
    &&& insts[i] == InstModel::Label(label)
    &&& forall|j: int| i < j < insts.len() ==> #[trigger] insts[j] != InstModel::Label(label)
}

/// Control goes from instruction `i` to instruction `j` when it is executed
/// with the given flags: a jump goes to its label, a conditional one does so
/// where its condition holds, and everything else goes on to what follows.
pub open spec fn goes(insts: Seq<InstModel>, i: int, flags: Flags, j: int) -> bool {
    match insts[i] {
        InstModel::Ret => false,
        InstModel::B { label } => leads_to(insts, label, j),
        InstModel::BCond { cond, label } => if taken(cond, flags) {
            leads_to(insts, label, j)
        } else {
            j == i + 1 && j < insts.len()
        },
        _ => j == i + 1 && j < insts.len(),
    }
}

proof fn lemma_position(insts: Seq<InstModel>, label: Seq<char>, i: int, k: nat)
    requires
        leads_to(insts, label, i),
        i < k <= insts.len() <= usize::MAX,
    ensures
        inst_positions(insts, k).contains_key(label),
        inst_positions(insts, k)[label] == i,
    decreases k,
{
    if k > i + 1 {
        lemma_position(insts, label, i, (k - 1) as nat);
        assert(insts[k - 1] != InstModel::Label(label));
    }
}

/// Wherever control goes from an instruction is among its successors.
pub proof fn lemma_steps_are_edges(insts: Seq<InstModel>, i: int, flags: Flags, j: int)
    requires
        0 <= i < insts.len() <= usize::MAX,
        goes(insts, i, flags, j),
    ensures
        0 <= j < insts.len(),
        stream_succ(insts)[i].contains(j as usize),
{
    let succ = stream_succ(insts)[i];
    match insts[i] {
        InstModel::B { label } => {
            lemma_position(insts, label, j, insts.len());
            assert(succ[0] == j);
        },
        InstModel::BCond { cond, label } => {
            if taken(cond, flags) {
                lemma_position(insts, label, j, insts.len());
                assert(succ[0] == j);
            } else {
                assert(succ[succ.len() - 1] == j);
            }
        },
        _ => {
            assert(succ[0] == j);
        },
    }
}

} // verus!
