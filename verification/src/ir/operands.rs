//! What a statement does depends on the operands that it reads, and shows in
//! the value that it defines and in memory.

use crate::ir::execution::{Machine, Meaning};
use crate::ir::stmt::StmtModel;
use crate::ir::value::OperandModel;
use vstd::prelude::*;

verus! {

/// The operands that the statement reads have the same values.
pub open spec fn reads_same(m: Meaning, s: StmtModel, w: Machine, v: Machine) -> bool {
    forall|j: int|
        0 <= j < s.reads().len() ==> w.value(m, (#[trigger] s.reads()[j]).0) == v.value(
            m,
            s.reads()[j].0,
        )
}

/// The operand whose value decides where control goes, if there is one.
pub open spec fn decisive(s: StmtModel) -> Option<OperandModel> {
    match s {
        StmtModel::CJump { cond, .. } => Some(cond),
        StmtModel::Return { val } => val,
        _ => None,
    }
}

/// With the same memory and the same values of what it reads, a statement
/// leaves the same memory, gives its result the same value, and decides alike;
/// a phi gets its value along the edge that is taken, not where it stands.
pub proof fn lemma_reads_suffice(m: Meaning, s: StmtModel, w: Machine, v: Machine)
    requires
        w.cells == v.cells,
        reads_same(m, s, w, v),
    ensures
        w.after(m, s).cells == v.after(m, s).cells,
        !(s is Phi) ==> (s.def() matches Some(OperandModel::Local(l)) ==> w.after(m, s).locals[l.id] == v.after(
            m,
            s,
        ).locals[l.id]),
        decisive(s) matches Some(o) ==> w.value(m, o) == v.value(m, o),
{
    match s {
        StmtModel::Call { func_name, res, args } => {
            assert(w.values(m, args) =~= v.values(m, args)) by {
                assert forall|i: int| 0 <= i < args.len() implies w.value(m, args[i]) == v.value(
                    m,
                    args[i],
                ) by {
                    assert(s.reads()[i].0 == args[i]);
                }
            }
        },
        StmtModel::BiOp { left, right, .. } => {
            assert(s.reads()[0].0 == left && s.reads()[1].0 == right);
        },
        StmtModel::Cmp { left, right, .. } => {
            assert(s.reads()[0].0 == left && s.reads()[1].0 == right);
        },
        StmtModel::Load { ptr, .. } => {
            assert(s.reads()[0].0 == ptr);
        },
        StmtModel::Store { src, ptr } => {
            assert(s.reads()[0].0 == src && s.reads()[1].0 == ptr);
        },
        StmtModel::Gep { base_ptr, index, .. } => {
            assert(s.reads()[0].0 == base_ptr && s.reads()[1].0 == index);
        },
        StmtModel::CJump { cond, .. } => {
            assert(s.reads()[0].0 == cond);
        },
        StmtModel::Return { val } => {
            if val is Some {
                assert(s.reads()[0].0 == val->Some_0);
            }
        },
        _ => {},
    }
}

/// No value changes but the one that the statement defines.
pub proof fn lemma_only_def_changes(m: Meaning, s: StmtModel, w: Machine, id: nat)
    requires
        !(s.def() matches Some(OperandModel::Local(l)) && l.id == id),
    ensures
        w.after(m, s).locals[id] == w.locals[id],
{
}

/// Only stores, calls and new places change memory.
pub proof fn lemma_memory_kept(m: Meaning, s: StmtModel, w: Machine)
    requires
        !(s is Store),
        !(s is Call),
        !(s is Alloca),
    ensures
        w.after(m, s).cells == w.cells,
{
}

/// With other operands that have the same values and types in place of those
/// that it reads, a statement does the same.
pub proof fn lemma_operands_replaced(m: Meaning, s: StmtModel, ops: Seq<OperandModel>, w: Machine)
    requires
        ops.len() == s.reads().len(),
        forall|j: int|
            0 <= j < ops.len() ==> w.value(m, #[trigger] ops[j]) == w.value(m, s.reads()[j].0)
                && ops[j].ty() == s.reads()[j].0.ty(),
    ensures
        w.after(m, s.with_reads(ops)) == w.after(m, s),
        s.with_reads(ops).def() == s.def(),
        decisive(s.with_reads(ops)) matches Some(o) ==> decisive(s) is Some && w.value(m, o)
            == w.value(m, decisive(s)->Some_0),
        decisive(s) is Some ==> decisive(s.with_reads(ops)) is Some,
{
    if ops.len() > 0 {
        assert(w.value(m, ops[0]) == w.value(m, s.reads()[0].0));
    }
    if ops.len() > 1 {
        assert(w.value(m, ops[1]) == w.value(m, s.reads()[1].0));
    }
    match s {
        StmtModel::Call { func_name, res, args } => {
            assert(w.values(m, ops) =~= w.values(m, args)) by {
                assert forall|i: int| 0 <= i < args.len() implies w.value(m, ops[i]) == w.value(
                    m,
                    args[i],
                ) by {
                    assert(s.reads()[i].0 == args[i]);
                }
            }
            let t = s.with_reads(ops);
            assert(t->Call_args =~= ops);
        },
        _ => {},
    }
}

} // verus!
