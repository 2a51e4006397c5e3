//! What promotion guarantees: nothing reads a promoted variable afterwards.

use super::alloca_analysis::{
    block_roles, has_role, is_role, lemma_promoted_distinct, occurs, promotable,
};
use super::dominator::{children_below, lemma_children, lemma_roots, roots_below};
use super::mem2reg::{
    block_done, block_step, cleared, enter, feed, feed_row, phi_stmts, plan_of, promoted_blocks,
    rename_block, rename_children, rename_roots, rename_stmt, rename_stmts, resolve, resolved,
    rewritten, slot, unrenamed, value_at, without, Plan, Renaming, Step,
};
use super::phi_placement::{numbered, phis_of, PhiModel};
use crate::ir::function::{block_models, BasicBlock, BlockModel, LabelModel};
use crate::ir::stmt::{OperandRole, StmtModel};
use crate::ir::value::OperandModel;
use vstd::prelude::*;

verus! {

/// The statement reads no promoted variable.
pub open spec fn avoids(vars: Seq<usize>, s: StmtModel) -> bool {
    forall|j: int| 0 <= j < s.reads().len() ==> slot(vars, (#[trigger] s.reads()[j]).0) is None
}

/// The operand is no promoted variable.
spec fn clean(vars: Seq<usize>, o: OperandModel) -> bool {
    slot(vars, o) is None
}

spec fn clean_values(vars: Seq<usize>, current: Seq<Option<OperandModel>>) -> bool {
    forall|p: int|
        0 <= p < current.len() ==> (#[trigger] current[p] matches Some(v) ==> clean(vars, v))
}

spec fn clean_alias(vars: Seq<usize>, alias: Map<usize, OperandModel>) -> bool {
    forall|k: usize| #[trigger] alias.contains_key(k) ==> clean(vars, alias[k])
}

spec fn clean_stmts(vars: Seq<usize>, out: Seq<StmtModel>) -> bool {
    forall|i: int| 0 <= i < out.len() ==> avoids(vars, #[trigger] out[i])
}

spec fn clean_row(vars: Seq<usize>, row: Seq<Seq<(LabelModel, OperandModel)>>) -> bool {
    forall|k: int, j: int|
        0 <= k < row.len() && 0 <= j < row[k].len() ==> clean(vars, (#[trigger] row[k][j]).1)
}

spec fn clean_state(p: Plan, st: Renaming) -> bool {
    &&& st.current.len() == p.vars.len()
    &&& clean_values(p.vars, st.current)
    &&& clean_alias(p.vars, st.alias)
    &&& st.out.len() == p.blocks.len()
    &&& forall|b: int| 0 <= b < st.out.len() ==> clean_stmts(p.vars, #[trigger] st.out[b])
    &&& st.incomings.len() == p.blocks.len()
    &&& forall|b: int| 0 <= b < st.incomings.len() ==> clean_row(p.vars, #[trigger] st.incomings[b])
}

spec fn clean_step(vars: Seq<usize>, st: Step) -> bool {
    &&& st.current.len() == vars.len()
    &&& clean_values(vars, st.current)
    &&& clean_alias(vars, st.alias)
    &&& clean_stmts(vars, st.out)
}

/// The statement uses promoted variables as addresses of loads and stores
/// only.
spec fn plain_uses(vars: Seq<usize>, s: StmtModel) -> bool {
    forall|j: int|
        0 <= j < s.reads().len() && (#[trigger] s.reads()[j]).1 == OperandRole::Use ==> clean(
            vars,
            s.reads()[j].0,
        )
}

spec fn sound_plan(p: Plan) -> bool {
    &&& p.phis.len() == p.blocks.len()
    &&& p.succ.len() == p.blocks.len()
    &&& p.idom.len() == p.blocks.len()
    &&& p.blocks.len() <= usize::MAX
    &&& p.vars.no_duplicates()
    &&& forall|b: int, i: int|
        0 <= b < p.blocks.len() && 0 <= i < p.blocks[b].stmts.len() ==> plain_uses(
            p.vars,
            #[trigger] p.blocks[b].stmts[i],
        )
    &&& forall|b: int, k: int|
        0 <= b < p.phis.len() && 0 <= k < p.phis[b].len() ==> clean(
            p.vars,
            (#[trigger] p.phis[b][k]).dst,
        ) && p.vars.contains(p.phis[b][k].var)
    &&& forall|b: int, k: int|
        0 <= b < p.succ.len() && 0 <= k < p.succ[b].len() ==> #[trigger] p.succ[b][k]
            < p.blocks.len()
}

proof fn lemma_resolve_clean(
    vars: Seq<usize>,
    alias: Map<usize, OperandModel>,
    op: OperandModel,
    steps: nat,
)
    requires
        clean_alias(vars, alias),
        clean(vars, op),
    ensures
        clean(vars, resolve(alias, op, steps)),
    decreases steps,
{
    match op {
        OperandModel::Local(l) => {
            if steps > 0 && alias.contains_key(l.id as usize) {
                lemma_resolve_clean(vars, alias, alias[l.id as usize], (steps - 1) as nat);
            }
        },
        _ => {},
    }
}

proof fn lemma_value_clean(
    vars: Seq<usize>,
    current: Seq<Option<OperandModel>>,
    alias: Map<usize, OperandModel>,
    p: int,
)
    requires
        clean_values(vars, current),
        clean_alias(vars, alias),
        0 <= p < current.len(),
    ensures
        clean(vars, value_at(current, alias, p)),
{
    match current[p] {
        Some(v) => {
            lemma_resolve_clean(vars, alias, v, alias.dom().len());
        },
        None => {},
    }
}

proof fn lemma_reads_replaced(s: StmtModel, outs: Seq<OperandModel>)
    requires
        outs.len() == s.reads().len(),
    ensures
        s.with_reads(outs).reads().len() == outs.len(),
        forall|j: int|
            0 <= j < outs.len() ==> (#[trigger] s.with_reads(outs).reads()[j]).0 == outs[j],
{
}

proof fn lemma_rewritten_clean(vars: Seq<usize>, alias: Map<usize, OperandModel>, s: StmtModel)
    requires
        clean_alias(vars, alias),
        avoids(vars, s),
    ensures
        avoids(vars, rewritten(alias, s)),
{
    let outs = Seq::new(s.reads().len(), |i: int| resolved(alias, s.reads()[i].0));
    lemma_reads_replaced(s, outs);
    assert forall|j: int| 0 <= j < rewritten(alias, s).reads().len() implies slot(
        vars,
        (#[trigger] rewritten(alias, s).reads()[j]).0,
    ) is None by {
        assert(clean(vars, s.reads()[j].0));
        lemma_resolve_clean(vars, alias, s.reads()[j].0, alias.dom().len());
    }
}

proof fn lemma_stmt_clean(vars: Seq<usize>, st: Step, s: StmtModel)
    requires
        clean_step(vars, st),
        plain_uses(vars, s),
        vars.no_duplicates(),
    ensures
        clean_step(vars, rename_stmt(vars, st, s)),
{
    let next = rename_stmt(vars, st, s);
    match s {
        StmtModel::Alloca { dst } => {
            assert(avoids(vars, s));
        },
        StmtModel::Store { src, ptr } => {
            assert(s.reads()[0] == (src, OperandRole::Use));
            match slot(vars, ptr) {
                Some(p) => {
                    lemma_resolve_clean(vars, st.alias, src, st.alias.dom().len());
                },
                None => {
                    assert forall|j: int| 0 <= j < s.reads().len() implies slot(
                        vars,
                        (#[trigger] s.reads()[j]).0,
                    ) is None by {}
                    lemma_rewritten_clean(vars, st.alias, s);
                },
            }
        },
        StmtModel::Load { dst, ptr } => {
            match slot(vars, ptr) {
                Some(p) => {
                    match ptr {
                        OperandModel::Local(l) => {
                            let i = vars.index_of(l.id as usize);
                            assert(vars.contains(l.id as usize));
                            assert(0 <= i < vars.len());
                        },
                        _ => {},
                    }
                    lemma_value_clean(vars, st.current, st.alias, p);
                },
                None => {
                    assert forall|j: int| 0 <= j < s.reads().len() implies slot(
                        vars,
                        (#[trigger] s.reads()[j]).0,
                    ) is None by {}
                    lemma_rewritten_clean(vars, st.alias, s);
                },
            }
        },
        _ => {
            assert forall|j: int| 0 <= j < s.reads().len() implies slot(
                vars,
                (#[trigger] s.reads()[j]).0,
            ) is None by {
                assert(s.reads()[j].1 == OperandRole::Use);
            }
            lemma_rewritten_clean(vars, st.alias, s);
        },
    }
}

proof fn lemma_stmts_clean(vars: Seq<usize>, st: Step, stmts: Seq<StmtModel>)
    requires
        clean_step(vars, st),
        forall|i: int| 0 <= i < stmts.len() ==> plain_uses(vars, #[trigger] stmts[i]),
        vars.no_duplicates(),
    ensures
        clean_step(vars, rename_stmts(vars, st, stmts)),
    decreases stmts.len(),
{
    if stmts.len() > 0 {
        lemma_stmts_clean(vars, st, stmts.drop_last());
        lemma_stmt_clean(vars, rename_stmts(vars, st, stmts.drop_last()), stmts.last());
    }
}

proof fn lemma_enter_clean(
    vars: Seq<usize>,
    current: Seq<Option<OperandModel>>,
    phis: Seq<PhiModel>,
    k: nat,
)
    requires
        k <= phis.len(),
        clean_values(vars, current),
        current.len() == vars.len(),
        forall|j: int|
            0 <= j < phis.len() ==> clean(vars, (#[trigger] phis[j]).dst) && vars.contains(
                phis[j].var,
            ),
    ensures
        clean_values(vars, enter(vars, current, phis, k)),
        enter(vars, current, phis, k).len() == current.len(),
    decreases k,
{
    if k > 0 {
        lemma_enter_clean(vars, current, phis, (k - 1) as nat);
        assert(clean(vars, phis[k - 1].dst));
        assert(vars.contains(phis[k - 1].var));
        assert(0 <= vars.index_of(phis[k - 1].var) < vars.len());
    }
}

proof fn lemma_feed_clean(
    p: Plan,
    st: Step,
    inc: Seq<Seq<Seq<(LabelModel, OperandModel)>>>,
    b: int,
    k: nat,
)
    requires
        sound_plan(p),
        clean_step(p.vars, st),
        0 <= b < p.blocks.len(),
        k <= p.succ[b].len(),
        inc.len() == p.blocks.len(),
        forall|x: int| 0 <= x < inc.len() ==> clean_row(p.vars, #[trigger] inc[x]),
        shaped(p, inc),
    ensures
        feed(p, st, inc, b, k).len() == inc.len(),
        forall|x: int|
            0 <= x < inc.len() ==> clean_row(p.vars, #[trigger] feed(p, st, inc, b, k)[x]),
        shaped(p, feed(p, st, inc, b, k)),
    decreases k,
{
    if k > 0 {
        lemma_feed_clean(p, st, inc, b, (k - 1) as nat);
        let prev = feed(p, st, inc, b, (k - 1) as nat);
        let s = p.succ[b][k - 1] as int;
        assert(p.succ[b][k - 1] < p.blocks.len());
        let row = feed_row(
            p.vars,
            st,
            p.phis[s],
            prev[s],
            p.blocks[b].label,
            p.phis[s].len() as int,
        );
        assert(clean_row(p.vars, row)) by {
            assert forall|q: int, j: int| 0 <= q < row.len() && 0 <= j < row[q].len() implies clean(
                p.vars,
                (#[trigger] row[q][j]).1,
            ) by {
                assert(clean_row(p.vars, prev[s]));
                assert(prev[s].len() == p.phis[s].len());
                if j < prev[s][q].len() {
                    assert(row[q][j] == prev[s][q][j]);
                } else {
                    let var = p.phis[s][q].var;
                    assert(p.vars.contains(var));
                    let i = p.vars.index_of(var);
                    assert(0 <= i < p.vars.len());
                    lemma_value_clean(p.vars, st.current, st.alias, i);
                }
            }
        }
    }
}

/// Every phi has its incoming values.
spec fn shaped(p: Plan, inc: Seq<Seq<Seq<(LabelModel, OperandModel)>>>) -> bool {
    &&& inc.len() == p.phis.len()
    &&& forall|b: int| 0 <= b < inc.len() ==> (#[trigger] inc[b]).len() == p.phis[b].len()
}

proof fn lemma_without_clean(
    vars: Seq<usize>,
    alias: Map<usize, OperandModel>,
    added: Seq<usize>,
    k: nat,
)
    requires
        clean_alias(vars, alias),
    ensures
        clean_alias(vars, without(alias, added, k)),
    decreases k,
{
    if k > 0 {
        lemma_without_clean(vars, alias, added, (k - 1) as nat);
    }
}

proof fn lemma_block_clean(p: Plan, st: Renaming, b: int, height: nat)
    requires
        sound_plan(p),
        clean_state(p, st),
        shaped(p, st.incomings),
        0 <= b < p.blocks.len(),
    ensures
        clean_state(p, rename_block(p, st, b, height)),
        shaped(p, rename_block(p, st, b, height).incomings),
    decreases height, 0nat,
{
    if height > 0 {
        let begun = Step {
            current: enter(p.vars, st.current, p.phis[b], p.phis[b].len()),
            alias: st.alias,
            added: Seq::empty(),
            out: st.out[b],
        };
        assert forall|j: int| 0 <= j < p.phis[b].len() implies clean(
            p.vars,
            (#[trigger] p.phis[b][j]).dst,
        ) && p.vars.contains(p.phis[b][j].var) by {}
        lemma_enter_clean(p.vars, st.current, p.phis[b], p.phis[b].len());
        assert(clean_stmts(p.vars, st.out[b]));
        assert forall|i: int| 0 <= i < p.blocks[b].stmts.len() implies plain_uses(
            p.vars,
            #[trigger] p.blocks[b].stmts[i],
        ) by {}
        lemma_stmts_clean(p.vars, begun, p.blocks[b].stmts);
        let step = block_step(p, st, b);
        lemma_feed_clean(p, step, st.incomings, b, p.succ[b].len());
        let mid = block_done(p, st, b);
        assert(clean_state(p, mid));
        let kids = children_below(p.idom, b as usize, p.blocks.len());
        lemma_children(p.idom, b as usize, p.blocks.len());
        lemma_children_clean(p, mid, kids, kids.len(), (height - 1) as nat);
        let done = rename_children(p, mid, kids, kids.len(), (height - 1) as nat);
        lemma_without_clean(p.vars, done.alias, step.added, step.added.len());
    }
}

proof fn lemma_children_clean(p: Plan, st: Renaming, kids: Seq<usize>, k: nat, height: nat)
    requires
        sound_plan(p),
        clean_state(p, st),
        shaped(p, st.incomings),
        k <= kids.len(),
        forall|i: int| 0 <= i < kids.len() ==> #[trigger] kids[i] < p.blocks.len(),
    ensures
        clean_state(p, rename_children(p, st, kids, k, height)),
        shaped(p, rename_children(p, st, kids, k, height).incomings),
    decreases height, k + 1,
{
    if k > 0 {
        lemma_children_clean(p, st, kids, (k - 1) as nat, height);
        assert(kids[k - 1] < p.blocks.len());
        lemma_block_clean(
            p,
            rename_children(p, st, kids, (k - 1) as nat, height),
            kids[k - 1] as int,
            height,
        );
    }
}

proof fn lemma_roots_clean(p: Plan, st: Renaming, roots: Seq<usize>, k: nat)
    requires
        sound_plan(p),
        clean_state(p, st),
        shaped(p, st.incomings),
        k <= roots.len(),
        forall|i: int| 0 <= i < roots.len() ==> #[trigger] roots[i] < p.blocks.len(),
    ensures
        clean_state(p, rename_roots(p, st, roots, k)),
        shaped(p, rename_roots(p, st, roots, k).incomings),
    decreases k,
{
    if k > 0 {
        lemma_roots_clean(p, st, roots, (k - 1) as nat);
        assert(roots[k - 1] < p.blocks.len());
        let prev = cleared(p, rename_roots(p, st, roots, (k - 1) as nat));
        assert(clean_state(p, prev));
        lemma_block_clean(p, prev, roots[k - 1] as int, p.blocks.len());
    }
}

/// A role of one statement is a role of the block.
pub proof fn lemma_role_of_stmt(stmts: Seq<StmtModel>, i: int, j: int, v: nat, role: OperandRole)
    requires
        0 <= i < stmts.len(),
        0 <= j < stmts[i].reads().len(),
        is_role(stmts[i].reads()[j], v, role),
    ensures
        has_role(block_roles(stmts), v, role),
    decreases stmts.len(),
{
    let front = block_roles(stmts.drop_last());
    let last = stmts.last().roles();
    if i == stmts.len() - 1 {
        let off = last.len() - stmts.last().reads().len();
        assert(block_roles(stmts)[front.len() + off + j] == stmts[i].reads()[j]);
    } else {
        lemma_role_of_stmt(stmts.drop_last(), i, j, v, role);
        let x = choose|x: int| 0 <= x < front.len() && is_role(#[trigger] front[x], v, role);
        assert(block_roles(stmts)[x] == front[x]);
    }
}

/// The results of the phis are numbered from `first` on.
proof fn lemma_phi_numbers(
    blocks: Seq<BlockModel>,
    succ: Seq<Seq<usize>>,
    vars: Seq<usize>,
    i: nat,
    b: nat,
    first: nat,
)
    requires
        b <= blocks.len(),
        i < vars.len() || (i == vars.len() && b == 0),
    ensures
        numbered(blocks, succ, vars, i, b, first).1 >= first,
        numbered(blocks, succ, vars, i, b, first).0.len() == blocks.len(),
        forall|x: int, k: int|
            0 <= x < blocks.len() && 0 <= k < numbered(
                blocks,
                succ,
                vars,
                i,
                b,
                first,
            ).0[x].len() ==> fresh(
                #[trigger] numbered(blocks, succ, vars, i, b, first).0[x][k],
                first,
                numbered(blocks, succ, vars, i, b, first).1,
            ),
    decreases i, b,
{
    if b > 0 {
        lemma_phi_numbers(blocks, succ, vars, i, (b - 1) as nat, first);
    } else if i > 0 {
        lemma_phi_numbers(blocks, succ, vars, (i - 1) as nat, blocks.len(), first);
    }
}

/// The phi defines a local value with a number from `first` to `next`.
pub open spec fn fresh(phi: PhiModel, first: nat, next: nat) -> bool {
    phi.dst matches OperandModel::Local(l) && first <= l.id < next
}

/// The result of every phi has a number that was free before.
pub proof fn lemma_phis_fresh(
    blocks: Seq<BlockModel>,
    succ: Seq<Seq<usize>>,
    vars: Seq<usize>,
    first: nat,
    b: int,
    k: int,
)
    requires
        0 <= b < blocks.len(),
        0 <= k < phis_of(blocks, succ, vars, first).0[b].len(),
    ensures
        fresh(
            phis_of(blocks, succ, vars, first).0[b][k],
            first,
            phis_of(blocks, succ, vars, first).1,
        ),
{
    lemma_phi_numbers(blocks, succ, vars, vars.len(), 0, first);
}

/// After promotion no statement reads a promoted variable, neither as a value
/// nor as the address of a load or store.
pub proof fn lemma_promoted_gone(blocks: Seq<BasicBlock>, first: nat, b: int, i: int)
    requires
        blocks.len() <= usize::MAX,
        first <= usize::MAX,
        crate::common::graph::rows_in_range(plan_of(block_models(blocks), first).succ, blocks.len()),
        forall|v: usize| #[trigger] plan_of(block_models(blocks), first).vars.contains(v) ==> v < first,
        phis_of(
            plan_of(block_models(blocks), first).blocks,
            plan_of(block_models(blocks), first).succ,
            plan_of(block_models(blocks), first).vars,
            first,
        ).1 <= usize::MAX,
        0 <= b < blocks.len(),
        0 <= i < promoted_blocks(plan_of(block_models(blocks), first))[b].stmts.len(),
    ensures
        avoids(
            plan_of(block_models(blocks), first).vars,
            promoted_blocks(plan_of(block_models(blocks), first))[b].stmts[i],
        ),
{
    let p = plan_of(block_models(blocks), first);
    let roots = roots_below(p.idom, p.blocks.len());
    lemma_promoted_distinct(p.blocks, p.succ);
    super::phi_placement::lemma_phi_vars(p.blocks, p.succ, p.vars, p.vars.len(), 0, first);
    assert forall|x: int, y: int|
        0 <= x < p.blocks.len() && 0 <= y < p.blocks[x].stmts.len() implies plain_uses(
        p.vars,
        #[trigger] p.blocks[x].stmts[y],
    ) by {
        let s = p.blocks[x].stmts[y];
        assert forall|j: int|
            0 <= j < s.reads().len() && (#[trigger] s.reads()[j]).1
                == OperandRole::Use implies clean(p.vars, s.reads()[j].0) by {
            if !clean(p.vars, s.reads()[j].0) {
                let o = s.reads()[j].0;
                match o {
                    OperandModel::Local(l) => {
                        lemma_local_in_range(blocks, x, y, j);
                        let v = l.id as usize;
                        assert(p.vars.contains(v));
                        assert(promotable(p.blocks, p.succ, v as nat));
                        assert(is_role(s.reads()[j], v as nat, OperandRole::Use));
                        lemma_role_of_stmt(p.blocks[x].stmts, y, j, v as nat, OperandRole::Use);
                        assert(has_role(
                            block_roles(p.blocks[x].stmts),
                            v as nat,
                            OperandRole::Use,
                        ));
                        assert(occurs(p.blocks, v as nat, OperandRole::Use));
                    },
                    _ => {},
                }
            }
        }
    }
    assert forall|x: int, k: int| 0 <= x < p.phis.len() && 0 <= k < p.phis[x].len() implies clean(
        p.vars,
        (#[trigger] p.phis[x][k]).dst,
    ) && p.vars.contains(p.phis[x][k].var) by {
        lemma_phis_fresh(p.blocks, p.succ, p.vars, first, x, k);
        match p.phis[x][k].dst {
            OperandModel::Local(l) => {
                if p.vars.contains(l.id as usize) {
                    assert((l.id as usize) < first);
                }
            },
            _ => {},
        }
    }
    assert forall|x: int, k: int| 0 <= x < p.succ.len() && 0 <= k < p.succ[x].len() implies (
    #[trigger] p.succ[x][k]) < p.blocks.len() by {}
    assert(sound_plan(p));
    let st0 = unrenamed(p);
    assert(clean_state(p, st0));
    lemma_roots(p.idom, p.blocks.len());
    lemma_roots_clean(p, st0, roots, roots.len());
    let st = rename_roots(p, st0, roots, roots.len());
    let ps = phi_stmts(p.phis[b], st.incomings[b]);
    let s = promoted_blocks(p)[b].stmts[i];
    if i < ps.len() {
        assert(s == ps[i]);
        assert(clean_row(p.vars, st.incomings[b]));
        assert forall|j: int| 0 <= j < s.reads().len() implies slot(
            p.vars,
            (#[trigger] s.reads()[j]).0,
        ) is None by {
            assert(s.reads()[j].0 == st.incomings[b][i][j].1);
        }
    } else {
        assert(clean_stmts(p.vars, st.out[b]));
        assert(s == st.out[b][i - ps.len()]);
    }
}

/// The numbers of local values that statements read are machine integers.
pub proof fn lemma_local_in_range(blocks: Seq<BasicBlock>, x: int, y: int, j: int)
    requires
        0 <= x < blocks.len(),
        0 <= y < block_models(blocks)[x].stmts.len(),
        0 <= j < block_models(blocks)[x].stmts[y].reads().len(),
    ensures
        block_models(blocks)[x].stmts[y].reads()[j].0 matches OperandModel::Local(l) ==> l.id
            <= usize::MAX,
{
    let s = blocks[x].stmts@[y];
    assert(block_models(blocks)[x].stmts[y] == s@);
}

} // verus!
