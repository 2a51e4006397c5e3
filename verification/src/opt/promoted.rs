//! Which variables are promoted: nothing sees their places, and no load comes
//! before a store.

use crate::ir::function::BlockModel;
use crate::ir::stmt::{OperandRole, StmtModel};
use crate::ir::types::DtypeModel;
use crate::ir::value::OperandModel;
use crate::opt::alloca_analysis::{
    candidate, candidates, candidates_in, dominating_def, exposes, is_role, occurs, promotable,
    promoted_vars, select, stores,
};
use crate::opt::dominator::{is_walk, lemma_prefix_walk, reachable, walks_to};
use crate::opt::promotion::lemma_role_of_stmt;
use vstd::prelude::*;

verus! {

/// The operand is the local value `v`.
pub open spec fn is_local(o: OperandModel, v: nat) -> bool {
    o matches OperandModel::Local(l) && l.id == v
}

/// The statement hands the place of the variable on: it computes with it,
/// stores it, passes it, returns it or decides by it.
pub open spec fn hands_on_place(s: StmtModel, v: nat) -> bool {
    match s {
        StmtModel::Call { args, .. } => exists|i: int|
            0 <= i < args.len() && is_local(#[trigger] args[i], v),
        StmtModel::Phi { incomings, .. } => exists|i: int|
            0 <= i < incomings.len() && is_local((#[trigger] incomings[i]).1, v),
        StmtModel::BiOp { left, right, .. } => is_local(left, v) || is_local(right, v),
        StmtModel::Cmp { left, right, .. } => is_local(left, v) || is_local(right, v),
        StmtModel::CJump { cond, .. } => is_local(cond, v),
        StmtModel::Store { src, .. } => is_local(src, v),
        StmtModel::Gep { base_ptr, index, .. } => is_local(base_ptr, v) || is_local(index, v),
        StmtModel::Return { val } => val matches Some(o) && is_local(o, v),
        _ => false,
    }
}

proof fn lemma_selected(
    blocks: Seq<BlockModel>,
    succ: Seq<Seq<usize>>,
    vars: Seq<usize>,
    multi: bool,
    v: usize,
)
    requires
        select(blocks, succ, vars, multi).contains(v),
    ensures
        promotable(blocks, succ, v as nat),
        vars.contains(v),
    decreases vars.len(),
{
    if vars.len() > 0 {
        let front = select(blocks, succ, vars.drop_last(), multi);
        let all = select(blocks, succ, vars, multi);
        let i = choose|i: int| 0 <= i < all.len() && all[i] == v;
        if i < front.len() {
            assert(front[i] == v);
            lemma_selected(blocks, succ, vars.drop_last(), multi, v);
            let x = choose|x: int| 0 <= x < vars.drop_last().len() && vars.drop_last()[x] == v;
            assert(vars[x] == v);
        } else {
            assert(vars[vars.len() - 1] == v);
        }
    }
}

proof fn lemma_promoted(blocks: Seq<BlockModel>, succ: Seq<Seq<usize>>, v: usize)
    requires
        promoted_vars(blocks, succ).contains(v),
    ensures
        promotable(blocks, succ, v as nat),
        candidates(blocks).contains(v),
{
    if select(blocks, succ, candidates(blocks), false).contains(v) {
        lemma_selected(blocks, succ, candidates(blocks), false, v);
    } else {
        lemma_selected(blocks, succ, candidates(blocks), true, v);
    }
}

/// No statement hands on the place of a promoted variable: it is only loaded
/// from and stored to.
pub proof fn lemma_promoted_hidden(
    blocks: Seq<BlockModel>,
    succ: Seq<Seq<usize>>,
    v: usize,
    b: int,
    i: int,
)
    requires
        promoted_vars(blocks, succ).contains(v),
        0 <= b < blocks.len(),
        0 <= i < blocks[b].stmts.len(),
    ensures
        !hands_on_place(blocks[b].stmts[i], v as nat),
{
    lemma_promoted(blocks, succ, v);
    let s = blocks[b].stmts[i];
    if hands_on_place(s, v as nat) {
        let j = match s {
            StmtModel::Call { args, .. } => choose|i: int|
                0 <= i < args.len() && is_local(#[trigger] args[i], v as nat),
            StmtModel::Phi { incomings, .. } => choose|i: int|
                0 <= i < incomings.len() && is_local((#[trigger] incomings[i]).1, v as nat),
            StmtModel::BiOp { left, .. } => if is_local(left, v as nat) {
                0
            } else {
                1
            },
            StmtModel::Cmp { left, .. } => if is_local(left, v as nat) {
                0
            } else {
                1
            },
            StmtModel::Gep { base_ptr, .. } => if is_local(base_ptr, v as nat) {
                0
            } else {
                1
            },
            _ => 0,
        };
        assert(is_role(s.reads()[j], v as nat, OperandRole::Use));
        lemma_role_of_stmt(blocks[b].stmts, i, j, v as nat, OperandRole::Use);
        assert(occurs(blocks, v as nat, OperandRole::Use));
    }
}

/// However control gets to a block that loads a promoted variable before any
/// store in it: some block before it on the way stores the variable.
pub proof fn lemma_store_before_load(
    blocks: Seq<BlockModel>,
    succ: Seq<Seq<usize>>,
    v: usize,
    path: Seq<int>,
    k: int,
)
    requires
        blocks.len() == succ.len(),
        promoted_vars(blocks, succ).contains(v),
        is_walk(succ, path),
        path[0] == 0,
        0 <= k < path.len(),
        exposes(blocks[path[k]], v as nat),
    ensures
        exists|j: int| 0 <= j < k && stores(blocks[#[trigger] path[j]], v as nat),
{
    lemma_promoted(blocks, succ, v);
    let b = path[k];
    let d = choose|d: int| dominating_def(blocks, succ, v as nat, d, b);
    assert(walks_to(succ, path, path.last()));
    lemma_prefix_walk(succ, path, path.last(), k);
    let p = path.take(k + 1);
    assert(walks_to(succ, p, b));
    assert(reachable(succ, b));
    assert(p.contains(d));
    let j = choose|j: int| 0 <= j < p.len() && p[j] == d;
    assert(path[j] == d);
    assert(j != k);
}

/// Only the place of a single integer is promoted, one that some statement
/// makes.
pub proof fn lemma_promoted_made(blocks: Seq<BlockModel>, succ: Seq<Seq<usize>>, v: usize)
    requires
        promoted_vars(blocks, succ).contains(v),
    ensures
        exists|b: int, i: int|
            0 <= b < blocks.len() && 0 <= i < blocks[b].stmts.len() && makes(
                #[trigger] blocks[b].stmts[i],
                v,
            ),
{
    lemma_promoted(blocks, succ, v);
    lemma_candidate_made(blocks, v);
}

/// The statement makes the place of a single integer.
pub open spec fn makes(s: StmtModel, v: usize) -> bool {
    s matches StmtModel::Alloca { dst: OperandModel::Local(l) } && l.id as usize == v && l.dtype
        == DtypeModel::Pointer(Box::new(DtypeModel::I32))
}

proof fn lemma_candidate_in(known: Seq<usize>, stmts: Seq<StmtModel>, v: usize)
    requires
        candidates_in(known, stmts).contains(v),
    ensures
        known.contains(v) || exists|i: int| 0 <= i < stmts.len() && makes(#[trigger] stmts[i], v),
    decreases stmts.len(),
{
    if stmts.len() > 0 {
        let front = candidates_in(known, stmts.drop_last());
        if front.contains(v) {
            lemma_candidate_in(known, stmts.drop_last(), v);
            if !known.contains(v) {
                let i = choose|i: int|
                    0 <= i < stmts.drop_last().len() && makes(#[trigger] stmts.drop_last()[i], v);
                assert(makes(stmts[i], v));
            }
        } else {
            let all = candidates_in(known, stmts);
            let x = choose|x: int| 0 <= x < all.len() && all[x] == v;
            if x < front.len() {
                assert(front[x] == v);
            }
            assert(candidate(stmts.last()) == Some(v));
            assert(makes(stmts[stmts.len() - 1], v));
        }
    }
}

proof fn lemma_candidate_made(blocks: Seq<BlockModel>, v: usize)
    requires
        candidates(blocks).contains(v),
    ensures
        exists|b: int, i: int|
            0 <= b < blocks.len() && 0 <= i < blocks[b].stmts.len() && makes(
                #[trigger] blocks[b].stmts[i],
                v,
            ),
    decreases blocks.len(),
{
    if blocks.len() > 0 {
        let front = candidates(blocks.drop_last());
        lemma_candidate_in(front, blocks.last().stmts, v);
        if front.contains(v) {
            lemma_candidate_made(blocks.drop_last(), v);
            let (b, i) = choose|b: int, i: int|
                0 <= b < blocks.drop_last().len() && 0 <= i < blocks.drop_last()[b].stmts.len()
                    && makes(#[trigger] blocks.drop_last()[b].stmts[i], v);
            assert(makes(blocks[b].stmts[i], v));
        } else {
            let stmts = blocks.last().stmts;
            let i = choose|i: int| 0 <= i < stmts.len() && makes(#[trigger] stmts[i], v);
            assert(makes(blocks[blocks.len() - 1].stmts[i], v));
        }
    }
}

} // verus!
