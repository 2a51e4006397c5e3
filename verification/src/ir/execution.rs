//! What statements do.
//!
//! Values are 32-bit numbers and addresses, and memory is a map from addresses
//! to cells.  What calls do, and where things lie in memory, is left open.

use crate::ir::function::LabelModel;
use crate::ir::gen::static_eval::quotient;
use crate::ir::stmt::{ArithBinOp, CmpPredicate, StmtModel};
use crate::ir::types::DtypeModel;
use crate::ir::value::OperandModel;
use vstd::prelude::*;

verus! {

/// What a predicate says of two numbers.
pub open spec fn relates(op: CmpPredicate, a: int, b: int) -> bool {
    match op {
        CmpPredicate::Eq => a == b,
        CmpPredicate::Ne => a != b,
        CmpPredicate::Slt => a < b,
        CmpPredicate::Sle => a <= b,
        CmpPredicate::Sgt => a > b,
        CmpPredicate::Sge => a >= b,
    }
}

/// What an arithmetic statement makes of two numbers; a quotient by zero is
/// taken to be zero.
pub open spec fn calculated(op: ArithBinOp, a: int, b: int) -> int {
    match op {
        ArithBinOp::Add => a + b,
        ArithBinOp::Sub => a - b,
        ArithBinOp::Mul => a * b,
        ArithBinOp::SDiv => if b == 0 {
            0
        } else {
            quotient(a, b)
        },
    }
}

/// The number with a sign that the low 32 bits of `n` stand for.
pub open spec fn narrowed(n: int) -> int {
    let low = n % 0x1_0000_0000;
    if low >= 0x8000_0000 {
        low - 0x1_0000_0000
    } else {
        low
    }
}

/// One for true, zero for false.
pub open spec fn as_number(b: bool) -> int {
    if b {
        1
    } else {
        0
    }
}

/// What surrounds a function.
pub struct Meaning {
    /// The address of a global variable.
    pub globals: spec_fn(Seq<char>) -> int,
    /// The address of a part, given the address of the whole, the number of
    /// the part and the types of both addresses.
    pub parts: spec_fn(int, int, DtypeModel, DtypeModel) -> int,
    /// A new place for what the type points to, and the memory with it.
    pub places: spec_fn(Map<int, int>, DtypeModel) -> (int, Map<int, int>),
    /// The result of a call, and the memory behind it.
    pub calls: spec_fn(Map<int, int>, Seq<char>, Seq<int>) -> (int, Map<int, int>),
}

/// The state while statements run.
#[verifier::ext_equal]
pub struct Machine {
    /// The local values.
    pub locals: Map<nat, int>,
    pub cells: Map<int, int>,
}

impl Machine {
    /// The value of an operand.
    pub open spec fn value(self, m: Meaning, op: OperandModel) -> int {
        match op {
            OperandModel::Const { val, .. } => val,
            OperandModel::Local(l) => self.locals[l.id],
            OperandModel::Global { name, .. } => (m.globals)(name),
        }
    }

    /// The values of operands.
    pub open spec fn values(self, m: Meaning, ops: Seq<OperandModel>) -> Seq<int> {
        Seq::new(ops.len(), |i: int| self.value(m, ops[i]))
    }

    /// The state with another local value.
    pub open spec fn with(self, dst: OperandModel, v: int) -> Machine {
        match dst {
            OperandModel::Local(l) => Machine { locals: self.locals.insert(l.id, v), ..self },
            _ => self,
        }
    }

    /// The state after a statement; where control goes is another matter.
    pub open spec fn after(self, m: Meaning, s: StmtModel) -> Machine {
        match s {
            StmtModel::BiOp { kind, left, right, dst } => self.with(
                dst,
                narrowed(calculated(kind, self.value(m, left), self.value(m, right))),
            ),
            StmtModel::Cmp { kind, left, right, dst } => self.with(
                dst,
                as_number(relates(kind, self.value(m, left), self.value(m, right))),
            ),
            StmtModel::Load { dst, ptr } => self.with(dst, self.cells[self.value(m, ptr)]),
            StmtModel::Store { src, ptr } => Machine {
                cells: self.cells.insert(self.value(m, ptr), self.value(m, src)),
                ..self
            },
            StmtModel::Gep { new_ptr, base_ptr, index } => self.with(
                new_ptr,
                (m.parts)(
                    self.value(m, base_ptr),
                    self.value(m, index),
                    base_ptr.ty(),
                    new_ptr.ty(),
                ),
            ),
            StmtModel::Alloca { dst } => {
                let (at, cells) = (m.places)(self.cells, dst.ty());
                Machine { cells, ..self }.with(dst, at)
            },
            StmtModel::Call { func_name, res, args } => {
                let (v, cells) = (m.calls)(self.cells, func_name, self.values(m, args));
                match res {
                    Some(dst) => Machine { cells, ..self }.with(dst, v),
                    None => Machine { cells, ..self },
                }
            },
            _ => self,
        }
    }
}

/// Where a list of statements has the label.
pub open spec fn place(code: Seq<StmtModel>, label: LabelModel) -> int {
    choose|i: int| 0 <= i < code.len() && #[trigger] code[i] == (StmtModel::Label { label })
}

/// Every label stands once.
pub open spec fn labels_once(code: Seq<StmtModel>) -> bool {
    forall|i: int, j: int|
        0 <= i < code.len() && 0 <= j < code.len() && (#[trigger] code[i] is Label)
            && #[trigger] code[j] == code[i] ==> i == j
}

/// One statement: the position behind it and the state.  A branch goes to the
/// label that its condition chooses, and a return goes nowhere.
pub open spec fn next(m: Meaning, code: Seq<StmtModel>, at: (int, Machine)) -> (int, Machine) {
    let (pc, w) = at;
    match code[pc] {
        StmtModel::Jump { target } => (place(code, target), w),
        StmtModel::CJump { cond, true_label, false_label } => (
            place(
                code,
                if w.value(m, cond) != 0 {
                    true_label
                } else {
                    false_label
                },
            ),
            w,
        ),
        StmtModel::Return { .. } => at,
        s => (pc + 1, w.after(m, s)),
    }
}

/// The position and the state after `n` statements.
pub open spec fn run(m: Meaning, code: Seq<StmtModel>, at: (int, Machine), n: nat) -> (
    int,
    Machine,
)
    decreases n,
{
    if n == 0 {
        at
    } else {
        next(m, code, run(m, code, at, (n - 1) as nat))
    }
}

/// A run leads from one position and state to another.
pub open spec fn reaches(
    m: Meaning,
    code: Seq<StmtModel>,
    from: (int, Machine),
    to: (int, Machine),
) -> bool {
    exists|n: nat| #[trigger] run(m, code, from, n) == to
}

/// Nothing needs to be run to stay.
pub proof fn lemma_stays(m: Meaning, code: Seq<StmtModel>, at: (int, Machine))
    ensures
        reaches(m, code, at, at),
{
    assert(run(m, code, at, 0) == at);
}

proof fn lemma_run_twice(
    m: Meaning,
    code: Seq<StmtModel>,
    at: (int, Machine),
    n: nat,
    k: nat,
)
    ensures
        run(m, code, run(m, code, at, n), k) == run(m, code, at, n + k),
    decreases k,
{
    if k > 0 {
        lemma_run_twice(m, code, at, n, (k - 1) as nat);
    }
}

/// What is reached from what is reached is reached.
pub proof fn lemma_goes_on(
    m: Meaning,
    code: Seq<StmtModel>,
    a: (int, Machine),
    b: (int, Machine),
    c: (int, Machine),
)
    requires
        reaches(m, code, a, b),
        reaches(m, code, b, c),
    ensures
        reaches(m, code, a, c),
{
    let n = choose|n: nat| #[trigger] run(m, code, a, n) == b;
    let k = choose|k: nat| #[trigger] run(m, code, b, k) == c;
    lemma_run_twice(m, code, a, n, k);
}

/// One more statement.
pub proof fn lemma_one_more(
    m: Meaning,
    code: Seq<StmtModel>,
    a: (int, Machine),
    b: (int, Machine),
)
    requires
        reaches(m, code, a, b),
    ensures
        reaches(m, code, a, next(m, code, b)),
{
    let n = choose|n: nat| #[trigger] run(m, code, a, n) == b;
    assert(run(m, code, a, n + 1) == next(m, code, b));
}

/// A label is where it stands.
pub proof fn lemma_place(code: Seq<StmtModel>, label: LabelModel, i: int)
    requires
        labels_once(code),
        0 <= i < code.len(),
        code[i] == (StmtModel::Label { label }),
    ensures
        place(code, label) == i,
{
    let j = place(code, label);
    assert(code[j] == code[i]);
}

} // verus!
