//! Renaming gives every load the value that its variable has there, whatever
//! way led to it.

use super::alloca_analysis::{
    block_roles, has_role, is_role, lemma_promoted_distinct, occurs, stores,
};
use super::dominator::{depth, is_walk, lemma_depth, lemma_idom_table_exists};
use super::mem2reg::{enter, plan_of, promotion_fits, rename_stmts, slot, Plan, Step};
use super::phi_placement::{
    has_phi, lemma_phi_vars, lemma_phis_where_needed, live_at, needs_phi, phis_of, PhiModel,
};
use super::promotion::{lemma_local_in_range, lemma_role_of_stmt};
use super::renaming::{after, before, coherent, load_target, separate_loads};
use super::versions::{lemma_walks_agree, on_entry, on_exit, seen, Version};
use crate::ast::decl::FnDef;
use crate::common::cfg::{
    block_positions, block_succ, branch_targets, branches_resolve, falls_through, targets_in,
};
use crate::common::graph::rows_in_range;
use crate::ir::function::{block_models, BasicBlock, BlockModel};
use crate::ir::gen::blocks::lemma_branches_resolve;
use crate::ir::gen::lowering::function_code;
use crate::ir::gen::module_gen::{context, known, start, translated};
use crate::ir::gen::numbers::lemma_blocks_apart;
use crate::ir::gen::type_infer::function_types;
use crate::ir::module::Unit;
use crate::ir::stmt::{OperandRole, StmtModel};
use crate::ir::value::OperandModel;
use vstd::prelude::*;

verus! {

/// The values of the variables behind the phis of block `b`.
pub open spec fn entered(p: Plan, b: int) -> Seq<Option<OperandModel>> {
    enter(p.vars, before(p, b).current, p.phis[b], p.phis[b].len())
}

/// The value that a version of the variable at position `i` stands for.
pub open spec fn value_of(p: Plan, i: int, v: Version) -> Option<OperandModel> {
    match v {
        Version::Undefined => None,
        Version::Phi(b) => entered(p, b)[i],
        Version::Stored(b) => after(p, b).current[i],
    }
}

/// The numbers of local values are machine integers.
pub open spec fn ids_fit(p: Plan) -> bool {
    forall|b: int, i: int, j: int|
        0 <= b < p.blocks.len() && 0 <= i < p.blocks[b].stmts.len() && 0 <= j
            < p.blocks[b].stmts[i].reads().len() ==> (
        #[trigger] p.blocks[b].stmts[i].reads()[j].0 matches OperandModel::Local(l) ==> l.id
            <= usize::MAX)
}

/// The plan that promotion makes of the blocks.
pub open spec fn is_plan(p: Plan, first: nat) -> bool {
    &&& p == plan_of(p.blocks, first)
    &&& coherent(p)
    &&& ids_fit(p)
}

/// The plan for the blocks of a function is one, where no two blocks load to
/// the same value.
pub proof fn lemma_is_plan(blocks: Seq<BasicBlock>, first: nat)
    requires
        blocks.len() <= usize::MAX,
        rows_in_range(plan_of(block_models(blocks), first).succ, blocks.len()),
        separate_loads(plan_of(block_models(blocks), first)),
    ensures
        is_plan(plan_of(block_models(blocks), first), first),
{
    let p = plan_of(block_models(blocks), first);
    lemma_idom_table_exists(p.succ);
    lemma_phi_vars(p.blocks, p.succ, p.vars, p.vars.len(), 0, first);
    assert forall|b: int, i: int, j: int|
        0 <= b < p.blocks.len() && 0 <= i < p.blocks[b].stmts.len() && 0 <= j
            < p.blocks[b].stmts[i].reads().len() implies (
    #[trigger] p.blocks[b].stmts[i].reads()[j].0 matches OperandModel::Local(l) ==> l.id
        <= usize::MAX) by {
        lemma_local_in_range(blocks, b, i, j);
    }
}

/// The last phi for a variable gives it its value.
proof fn lemma_enter(
    vars: Seq<usize>,
    current: Seq<Option<OperandModel>>,
    phis: Seq<PhiModel>,
    k: nat,
    i: int,
)
    requires
        vars.no_duplicates(),
        current.len() == vars.len(),
        k <= phis.len(),
        0 <= i < vars.len(),
        forall|m: int| 0 <= m < phis.len() ==> vars.contains((#[trigger] phis[m]).var),
    ensures
        enter(vars, current, phis, k).len() == vars.len(),
        enter(vars, current, phis, k)[i] == current[i] || exists|m: int|
            0 <= m < k && (#[trigger] phis[m]).var == vars[i] && enter(vars, current, phis, k)[i]
                == Some(phis[m].dst),
        (exists|m: int| 0 <= m < k && (#[trigger] phis[m]).var == vars[i]) ==> exists|m: int|
            0 <= m < k && (#[trigger] phis[m]).var == vars[i] && enter(vars, current, phis, k)[i]
                == Some(phis[m].dst),
    decreases k,
{
    if k > 0 {
        lemma_enter(vars, current, phis, (k - 1) as nat, i);
        let v = phis[k - 1].var;
        assert(vars.contains(v));
        let at = vars.index_of(v);
        assert(vars[at] == v);
        let now = enter(vars, current, phis, k);
        let then = enter(vars, current, phis, (k - 1) as nat);
        if at == i {
            assert(phis[k - 1].var == vars[i] && now[i] == Some(phis[k - 1].dst));
        } else {
            assert(now[i] == then[i]);
            assert(v != vars[i]);
        }
    }
}

/// A variable keeps its value where nothing is stored to it.
proof fn lemma_kept(vars: Seq<usize>, st: Step, stmts: Seq<StmtModel>, i: int)
    requires
        vars.no_duplicates(),
        st.current.len() == vars.len(),
        0 <= i < vars.len(),
        forall|m: int, j: int|
            0 <= m < stmts.len() && 0 <= j < stmts[m].reads().len() ==> (
            #[trigger] stmts[m].reads()[j].0 matches OperandModel::Local(l) ==> l.id
                <= usize::MAX),
    ensures
        rename_stmts(vars, st, stmts).current.len() == vars.len(),
        !has_role(block_roles(stmts), vars[i] as nat, OperandRole::StorePtr) ==> rename_stmts(
            vars,
            st,
            stmts,
        ).current[i] == st.current[i],
    decreases stmts.len(),
{
    if stmts.len() > 0 {
        let front = stmts.drop_last();
        assert forall|m: int, j: int|
            0 <= m < front.len() && 0 <= j < front[m].reads().len() implies (
        #[trigger] front[m].reads()[j].0 matches OperandModel::Local(l) ==> l.id
            <= usize::MAX) by {
            assert(stmts[m].reads()[j] == front[m].reads()[j]);
        }
        lemma_kept(vars, st, front, i);
        let v = vars[i] as nat;
        let all = block_roles(stmts);
        let old_roles = block_roles(front);
        if !has_role(all, v, OperandRole::StorePtr) {
            assert(!has_role(old_roles, v, OperandRole::StorePtr)) by {
                if has_role(old_roles, v, OperandRole::StorePtr) {
                    let x = choose|x: int|
                        0 <= x < old_roles.len() && is_role(
                            #[trigger] old_roles[x],
                            v,
                            OperandRole::StorePtr,
                        );
                    assert(is_role(all[x], v, OperandRole::StorePtr));
                }
            }
            let m = stmts.len() - 1;
            match stmts[m] {
                StmtModel::Store { src, ptr } => {
                    assert(stmts[m].reads()[1] == (ptr, OperandRole::StorePtr));
                    match slot(vars, ptr) {
                        Some(at) => {
                            let id = ptr->Local_0.id;
                            assert(stmts[m].reads()[1].0 matches OperandModel::Local(l) && l.id
                                <= usize::MAX);
                            assert(vars.contains(id as usize));
                            assert(vars[at] == id as usize);
                            if at == i {
                                lemma_role_of_stmt(stmts, m, 1, v, OperandRole::StorePtr);
                            }
                        },
                        None => {},
                    }
                },
                _ => {},
            }
        }
    }
}

/// There is one value for each promoted variable everywhere.
proof fn lemma_lengths(p: Plan, first: nat, b: int, i: int)
    requires
        is_plan(p, first),
        0 <= b < p.blocks.len(),
        0 <= i < p.vars.len(),
    ensures
        before(p, b).current.len() == p.vars.len(),
        entered(p, b).len() == p.vars.len(),
        after(p, b).current.len() == p.vars.len(),
        !stores(p.blocks[b], p.vars[i] as nat) ==> after(p, b).current[i] == entered(p, b)[i],
        has_phi(p.phis[b], p.vars[i]) ==> exists|m: int|
            0 <= m < p.phis[b].len() && (#[trigger] p.phis[b][m]).var == p.vars[i] && entered(
                p,
                b,
            )[i] == Some(p.phis[b][m].dst),
        !has_phi(p.phis[b], p.vars[i]) ==> entered(p, b)[i] == before(p, b).current[i],
    decreases depth(p.succ, b),
{
    lemma_promoted_distinct(p.blocks, p.succ);
    lemma_depth(p.succ, p.idom, b);
    lemma_phi_vars(p.blocks, p.succ, p.vars, p.vars.len(), 0, first);
    match p.idom[b] {
        Some(d) => {
            assert(super::dominator::is_idom(p.succ, d as int, b));
            super::dominator::lemma_dominator_reachable(p.succ, d as int, b);
            lemma_lengths(p, first, d as int, i);
        },
        None => {},
    }
    assert forall|m: int| 0 <= m < p.phis[b].len() implies p.vars.contains(
        (#[trigger] p.phis[b][m]).var,
    ) by {}
    lemma_enter(p.vars, before(p, b).current, p.phis[b], p.phis[b].len(), i);
    let st = Step {
        current: entered(p, b),
        alias: before(p, b).alias,
        added: Seq::empty(),
        out: Seq::empty(),
    };
    let stmts = p.blocks[b].stmts;
    assert forall|m: int, j: int|
        0 <= m < stmts.len() && 0 <= j < stmts[m].reads().len() implies (
    #[trigger] stmts[m].reads()[j].0 matches OperandModel::Local(l) ==> l.id <= usize::MAX) by {
        assert(p.blocks[b].stmts[m].reads()[j] == stmts[m].reads()[j]);
    }
    lemma_kept(p.vars, st, stmts, i);
}

/// The value of a promoted variable at the start and at the end of a block is
/// that of its version there, and the version of a phi is the phi's result.
pub proof fn lemma_values_follow(p: Plan, first: nat, i: int, b: int)
    requires
        is_plan(p, first),
        0 <= b < p.blocks.len(),
        0 <= i < p.vars.len(),
    ensures
        entered(p, b)[i] == value_of(
            p,
            i,
            on_entry(p.blocks, p.succ, p.idom, p.vars[i] as nat, b),
        ),
        after(p, b).current[i] == value_of(
            p,
            i,
            on_exit(p.blocks, p.succ, p.idom, p.vars[i] as nat, b),
        ),
        needs_phi(p.blocks, p.succ, p.vars[i] as nat, b) ==> exists|m: int|
            0 <= m < p.phis[b].len() && (#[trigger] p.phis[b][m]).var == p.vars[i] && entered(
                p,
                b,
            )[i] == Some(p.phis[b][m].dst),
    decreases depth(p.succ, b),
{
    let v = p.vars[i] as nat;
    lemma_promoted_distinct(p.blocks, p.succ);
    lemma_phis_where_needed(p.blocks, p.succ, p.vars, first, i, b);
    lemma_lengths(p, first, b, i);
    lemma_depth(p.succ, p.idom, b);
    match p.idom[b] {
        Some(d) => {
            assert(super::dominator::is_idom(p.succ, d as int, b));
            super::dominator::lemma_dominator_reachable(p.succ, d as int, b);
            lemma_values_follow(p, first, i, d as int);
        },
        None => {},
    }
}

/// Whatever way leads from the entry to a block where a promoted variable is
/// needed, the value that renaming uses for it there is the one that was
/// stored last on that way, or the result of the last phi behind that store.
pub proof fn lemma_values_agree(p: Plan, first: nat, i: int, path: Seq<int>, k: nat)
    requires
        is_plan(p, first),
        0 <= i < p.vars.len(),
        occurs(p.blocks, p.vars[i] as nat, OperandRole::LoadPtr),
        is_walk(p.succ, path),
        path[0] == 0,
        k < path.len(),
        0 <= path[k as int] < p.blocks.len(),
        live_at(p.blocks, p.succ, p.vars[i] as nat, path[k as int]),
    ensures
        entered(p, path[k as int])[i] == value_of(
            p,
            i,
            seen(p.blocks, p.succ, p.vars[i] as nat, path, k),
        ),
{
    lemma_walks_agree(p.blocks, p.succ, p.idom, p.vars[i] as nat, path, k);
    lemma_values_follow(p, first, i, path[k as int]);
}

/// The positions of blocks are below their number.
proof fn lemma_positions_below(blocks: Seq<BlockModel>, k: nat)
    requires
        k <= blocks.len(),
        blocks.len() <= usize::MAX,
    ensures
        forall|t: Seq<char>| #[trigger]
            block_positions(blocks, k).contains_key(t) ==> block_positions(blocks, k)[t]
                < blocks.len(),
    decreases k,
{
    if k > 0 {
        lemma_positions_below(blocks, (k - 1) as nat);
        let before = block_positions(blocks, (k - 1) as nat);
        let now = block_positions(blocks, k);
        assert forall|t: Seq<char>| #[trigger] now.contains_key(t) implies now[t] < blocks.len() by {
            if t != blocks[k - 1].label.text() {
                assert(before.contains_key(t));
            }
        }
    }
}

/// Where all branches go to blocks that exist, the successors do too.
proof fn lemma_successors_exist(blocks: Seq<BlockModel>)
    requires
        blocks.len() <= usize::MAX,
        branches_resolve(blocks),
    ensures
        rows_in_range(block_succ(blocks), blocks.len()),
{
    let labels = block_positions(blocks, blocks.len());
    lemma_positions_below(blocks, blocks.len());
    let succ = block_succ(blocks);
    assert forall|i: int, j: int| 0 <= i < succ.len() && 0 <= j < succ[i].len() implies (
    #[trigger] succ[i][j]) < blocks.len() by {
        assert(targets_in(blocks[i], labels));
        if !falls_through(blocks[i]) {
            assert(labels.contains_key(branch_targets(blocks[i])[j].text()));
        }
    }
}

/// The body of a translated function can be promoted as long as the numbers
/// fit: its branches go to blocks that exist, and no two blocks load to the
/// same value.
pub proof fn lemma_translated_plan(u: Unit, f: FnDef, blocks: Seq<BasicBlock>)
    requires
        translated(u, f) matches Ok(body) && {
            &&& body.blocks == block_models(blocks)
            &&& body.blocks.len() <= usize::MAX
            &&& body.next_vreg <= usize::MAX
        },
    ensures
        ({
            let body = translated(u, f)->Ok_0;
            let plan = plan_of(body.blocks, body.next_vreg);
            &&& is_plan(plan, body.next_vreg)
            &&& phis_of(plan.blocks, plan.succ, plan.vars, body.next_vreg).1 <= usize::MAX
                ==> promotion_fits(body)
        }),
{
    let body = translated(u, f)->Ok_0;
    let p = plan_of(body.blocks, body.next_vreg);
    let types = function_types(known(u), f)->Ok_0;
    let cx = context(u, types);
    let st = function_code(cx, start(), f).0;
    lemma_branches_resolve(cx, start(), f);
    lemma_successors_exist(body.blocks);
    assert(separate_loads(p)) by {
        assert forall|b: int, i: int, c: int, j: int|
            0 <= b < p.blocks.len() && 0 <= c < p.blocks.len() && b != c && 0 <= i
                < p.blocks[b].stmts.len() && 0 <= j < p.blocks[c].stmts.len() && (load_target(
                p.vars,
                #[trigger] p.blocks[b].stmts[i],
            ) is Some) implies load_target(p.vars, p.blocks[b].stmts[i]) != load_target(
            p.vars,
            #[trigger] p.blocks[c].stmts[j],
        ) by {
            lemma_blocks_apart(cx, start(), f, b, i);
            if load_target(p.vars, p.blocks[c].stmts[j]) is Some {
                lemma_blocks_apart(cx, start(), f, c, j);
            }
        }
    }
    lemma_is_plan(blocks, body.next_vreg);
}

} // verus!
