//! Promotion of stack variables to registers.
//!
//! Integer variables that are only loaded and stored lose their place on the
//! stack: every load takes the value that reaches it, and where values meet,
//! a phi chooses between them.

use super::alloca_analysis::{indexes, picked, promoted_vars, AllocaAnalysis};
use super::dominator::{
    children_below, depth, immediate_dominators, is_idom_table, lemma_children, lemma_depth,
    lemma_idom_table_unique, lemma_roots, roots_below, DominatorInfo,
};
use super::phi_placement::{
    lemma_phi_vars, lemma_phis_bound, no_incomings, phi_incomings, phi_models, phis_of, place_phis,
    PhiModel,
    PhiPlacement,
};
use crate::common::cfg::{
    block_succ, branches_have_targets, branches_resolve, lemma_targets_exist, Cfg,
};
use crate::common::graph::rows_in_range;
use crate::common::pass::FunctionPass;
use crate::ir::function::{
    block_models, stmt_models, BasicBlock, BlockModel, BodyModel, Function, FunctionBody,
    FunctionModel, LabelModel,
};
use crate::ir::stmt::{copy_incomings, image, mapped, Stmt, StmtInner, StmtModel};
use crate::ir::value::{Operand, OperandModel};
use std::collections::HashMap;
use vstd::prelude::*;

verus! {

/// What `op` stands for after at most `steps` aliases.
pub open spec fn resolve(
    alias: Map<usize, OperandModel>,
    op: OperandModel,
    steps: nat,
) -> OperandModel
    decreases steps,
{
    match op {
        OperandModel::Local(l) => if steps > 0 && alias.contains_key(l.id as usize) {
            resolve(alias, alias[l.id as usize], (steps - 1) as nat)
        } else {
            op
        },
        _ => op,
    }
}

/// What `op` stands for.  Aliases that do not form a cycle are followed to
/// the end, since no chain is longer than their number.
pub open spec fn resolved(alias: Map<usize, OperandModel>, op: OperandModel) -> OperandModel {
    resolve(alias, op, alias.dom().len())
}

/// The statement with every operand that it reads resolved.
pub open spec fn rewritten(alias: Map<usize, OperandModel>, s: StmtModel) -> StmtModel {
    s.with_reads(Seq::new(s.reads().len(), |i: int| resolved(alias, s.reads()[i].0)))
}

/// The position of the operand among the promoted variables.
pub open spec fn slot(vars: Seq<usize>, op: OperandModel) -> Option<int> {
    match op {
        OperandModel::Local(l) => if vars.contains(l.id as usize) {
            Some(vars.index_of(l.id as usize))
        } else {
            None
        },
        _ => None,
    }
}

/// The value that the promoted variable at position `p` has: zero where
/// nothing was stored.
pub open spec fn value_at(
    current: Seq<Option<OperandModel>>,
    alias: Map<usize, OperandModel>,
    p: int,
) -> OperandModel {
    match current[p] {
        Some(v) => resolved(alias, v),
        None => OperandModel::i32_const(0),
    }
}

/// The state while the statements of one block are renamed.
pub struct Step {
    /// The value of each promoted variable.
    pub current: Seq<Option<OperandModel>>,
    /// What the results of removed loads stand for.
    pub alias: Map<usize, OperandModel>,
    /// The aliases that the block added.
    pub added: Seq<usize>,
    /// The statements that stay.
    pub out: Seq<StmtModel>,
}

/// Renames one statement.
pub open spec fn rename_stmt(vars: Seq<usize>, st: Step, s: StmtModel) -> Step {
    let keep = Step { out: st.out.push(rewritten(st.alias, s)), ..st };
    match s {
        StmtModel::Alloca { dst } => match slot(vars, dst) {
            Some(_) => st,
            None => Step { out: st.out.push(s), ..st },
        },
        StmtModel::Store { src, ptr } => match slot(vars, ptr) {
            Some(p) => Step {
                current: st.current.update(p, Some(resolved(st.alias, src))),
                ..st
            },
            None => keep,
        },
        StmtModel::Load { dst, ptr } => match slot(vars, ptr) {
            Some(p) => match dst {
                OperandModel::Local(l) => Step {
                    alias: st.alias.insert(
                        l.id as usize,
                        value_at(st.current, st.alias, p),
                    ),
                    added: st.added.push(l.id as usize),
                    ..st
                },
                _ => st,
            },
            None => keep,
        },
        _ => keep,
    }
}

/// Renames a list of statements.
pub open spec fn rename_stmts(vars: Seq<usize>, st: Step, stmts: Seq<StmtModel>) -> Step
    decreases stmts.len(),
{
    if stmts.len() == 0 {
        st
    } else {
        rename_stmt(vars, rename_stmts(vars, st, stmts.drop_last()), stmts.last())
    }
}

/// The values after the first `k` phis of a block.
pub open spec fn enter(
    vars: Seq<usize>,
    current: Seq<Option<OperandModel>>,
    phis: Seq<PhiModel>,
    k: nat,
) -> Seq<Option<OperandModel>>
    decreases k,
{
    if k == 0 {
        current
    } else {
        enter(vars, current, phis, (k - 1) as nat).update(
            vars.index_of(phis[k - 1].var),
            Some(phis[k - 1].dst),
        )
    }
}

/// The incoming values of the phis of one block after the first `k` of them
/// got theirs from the block `label`.
pub open spec fn feed_row(
    vars: Seq<usize>,
    st: Step,
    phis: Seq<PhiModel>,
    row: Seq<Seq<(LabelModel, OperandModel)>>,
    label: LabelModel,
    k: int,
) -> Seq<Seq<(LabelModel, OperandModel)>> {
    Seq::new(
        row.len(),
        |j: int|
            if j < k {
                row[j].push(
                    (label, value_at(st.current, st.alias, vars.index_of(phis[j].var))),
                )
            } else {
                row[j]
            },
    )
}

/// What renaming works on.
pub struct Plan {
    pub blocks: Seq<BlockModel>,
    pub succ: Seq<Seq<usize>>,
    pub idom: Seq<Option<usize>>,
    pub vars: Seq<usize>,
    pub phis: Seq<Seq<PhiModel>>,
}

/// The incoming values after the first `k` successors of a block got theirs.
pub open spec fn feed(
    p: Plan,
    st: Step,
    inc: Seq<Seq<Seq<(LabelModel, OperandModel)>>>,
    b: int,
    k: nat,
) -> Seq<Seq<Seq<(LabelModel, OperandModel)>>>
    decreases k,
{
    if k == 0 {
        inc
    } else {
        let prev = feed(p, st, inc, b, (k - 1) as nat);
        let s = p.succ[b][k - 1] as int;
        prev.update(
            s,
            feed_row(
                p.vars,
                st,
                p.phis[s],
                prev[s],
                p.blocks[b].label,
                p.phis[s].len() as int,
            ),
        )
    }
}

/// The aliases without the first `k` of a list.
pub open spec fn without(
    alias: Map<usize, OperandModel>,
    added: Seq<usize>,
    k: nat,
) -> Map<usize, OperandModel>
    decreases k,
{
    if k == 0 {
        alias
    } else {
        without(alias, added, (k - 1) as nat).remove(added[k - 1])
    }
}

/// The state between blocks.
pub struct Renaming {
    pub current: Seq<Option<OperandModel>>,
    pub alias: Map<usize, OperandModel>,
    /// The statements that stay, block by block.
    pub out: Seq<Seq<StmtModel>>,
    /// The incoming values of all phis.
    pub incomings: Seq<Seq<Seq<(LabelModel, OperandModel)>>>,
}

/// The statements of block `b` renamed.
pub open spec fn block_step(p: Plan, st: Renaming, b: int) -> Step {
    rename_stmts(
        p.vars,
        Step {
            current: enter(p.vars, st.current, p.phis[b], p.phis[b].len()),
            alias: st.alias,
            added: Seq::empty(),
            out: st.out[b],
        },
        p.blocks[b].stmts,
    )
}

/// The state after the statements of block `b` and before its children.
pub open spec fn block_done(p: Plan, st: Renaming, b: int) -> Renaming {
    let step = block_step(p, st, b);
    Renaming {
        current: step.current,
        alias: step.alias,
        out: st.out.update(b, step.out),
        incomings: feed(p, step, st.incomings, b, p.succ[b].len()),
    }
}

/// Renames block `b` and what it dominates, at most `height` levels deep.
/// Afterwards the variables have their former values.
pub open spec fn rename_block(p: Plan, st: Renaming, b: int, height: nat) -> Renaming
    decreases height, 0nat,
{
    if height == 0 {
        st
    } else {
        let kids = children_below(p.idom, b as usize, p.blocks.len());
        let done = rename_children(
            p,
            block_done(p, st, b),
            kids,
            kids.len(),
            (height - 1) as nat,
        );
        let added = block_step(p, st, b).added;
        Renaming {
            current: st.current,
            alias: without(done.alias, added, added.len()),
            out: done.out,
            incomings: done.incomings,
        }
    }
}

/// Renames the first `k` blocks of a list.
pub open spec fn rename_children(
    p: Plan,
    st: Renaming,
    kids: Seq<usize>,
    k: nat,
    height: nat,
) -> Renaming
    decreases height, k + 1,
{
    if k == 0 {
        st
    } else {
        rename_block(
            p,
            rename_children(p, st, kids, (k - 1) as nat, height),
            kids[k - 1] as int,
            height,
        )
    }
}

/// The state without values and aliases.
pub open spec fn cleared(p: Plan, st: Renaming) -> Renaming {
    Renaming {
        current: Seq::new(p.vars.len(), |i: int| None),
        alias: Map::empty(),
        out: st.out,
        incomings: st.incomings,
    }
}

/// Renames the trees of the first `k` roots.
pub open spec fn rename_roots(p: Plan, st: Renaming, roots: Seq<usize>, k: nat) -> Renaming
    decreases k,
{
    if k == 0 {
        st
    } else {
        rename_block(
            p,
            cleared(p, rename_roots(p, st, roots, (k - 1) as nat)),
            roots[k - 1] as int,
            p.blocks.len(),
        )
    }
}

/// The state before anything is renamed.
pub open spec fn unrenamed(p: Plan) -> Renaming {
    Renaming {
        current: Seq::new(p.vars.len(), |i: int| None),
        alias: Map::empty(),
        out: Seq::new(p.blocks.len(), |b: int| Seq::<StmtModel>::empty()),
        incomings: no_incomings(p.phis),
    }
}

/// The phis of a block as statements.
pub open spec fn phi_stmts(
    phis: Seq<PhiModel>,
    inc: Seq<Seq<(LabelModel, OperandModel)>>,
) -> Seq<StmtModel> {
    Seq::new(phis.len(), |k: int| StmtModel::Phi { dst: phis[k].dst, incomings: inc[k] })
}

/// The blocks after promotion: the phis, then what stays.
pub open spec fn promoted_blocks(p: Plan) -> Seq<BlockModel> {
    let roots = roots_below(p.idom, p.blocks.len());
    let st = rename_roots(p, unrenamed(p), roots, roots.len());
    Seq::new(
        p.blocks.len(),
        |b: int|
            BlockModel {
                label: p.blocks[b].label,
                stmts: phi_stmts(p.phis[b], st.incomings[b]) + st.out[b],
            },
    )
}

/// What renaming works on for the blocks of a function whose next free number
/// is `first`.
pub open spec fn plan_of(blocks: Seq<BlockModel>, first: nat) -> Plan {
    let succ = block_succ(blocks);
    let vars = promoted_vars(blocks, succ);
    Plan {
        blocks,
        succ,
        idom: immediate_dominators(succ),
        vars,
        phis: phis_of(blocks, succ, vars, first).0,
    }
}

/// The body after promotion.
pub open spec fn promoted_body(body: BodyModel) -> BodyModel {
    let plan = plan_of(body.blocks, body.next_vreg);
    if plan.vars.len() == 0 {
        body
    } else {
        BodyModel {
            arguments: body.arguments,
            blocks: promoted_blocks(plan),
            next_vreg: phis_of(plan.blocks, plan.succ, plan.vars, body.next_vreg).1,
        }
    }
}

/// The blocks of the body branch to blocks that exist, and the numbers of the
/// phis fit.
pub open spec fn promotion_fits(body: BodyModel) -> bool {
    let plan = plan_of(body.blocks, body.next_vreg);
    &&& branches_resolve(body.blocks)
    &&& phis_of(plan.blocks, plan.succ, plan.vars, body.next_vreg).1 <= usize::MAX
}

/// The branches of the body have targets, and there is a number for a phi of
/// every promoted variable in every block.
pub open spec fn room_for_phis(body: BodyModel) -> bool {
    &&& branches_resolve(body.blocks)
    &&& plan_of(body.blocks, body.next_vreg).vars.len() * body.blocks.len() + body.next_vreg
        <= usize::MAX
}

/// With room for all phis, the body can be promoted.
pub proof fn lemma_room_for_phis(body: BodyModel)
    requires
        room_for_phis(body),
    ensures
        promotion_fits(body),
{
    let plan = plan_of(body.blocks, body.next_vreg);
    lemma_phis_bound(plan.blocks, plan.succ, plan.vars, body.next_vreg);
}

/// The models of optional values.
pub open spec fn value_models(values: Seq<Option<Operand>>) -> Seq<Option<OperandModel>> {
    Seq::new(
        values.len(),
        |i: int|
            match values[i] {
                Some(v) => Some(v@),
                None => None,
            },
    )
}

/// The models of the aliases.
pub open spec fn alias_models(alias: Map<usize, Operand>) -> Map<usize, OperandModel> {
    Map::new(|k: usize| alias.contains_key(k), |k: usize| alias[k]@)
}

fn copy_values(values: &Vec<Option<Operand>>) -> (copy: Vec<Option<Operand>>)
    ensures
        value_models(copy@) == value_models(values@),
{
    let mut copy: Vec<Option<Operand>> = Vec::new();
    let mut i: usize = 0;
    while i < values.len()
        invariant
            i <= values.len(),
            copy.len() == i,
            forall|j: int| 0 <= j < i ==> value_models(copy@)[j] == #[trigger] value_models(values@)[j],
        decreases values.len() - i,
    {
        let ghost before_copy = copy@;
        match &values[i] {
            Some(v) => copy.push(Some(v.clone())),
            None => copy.push(None),
        }
        proof {
            assert forall|j: int| 0 <= j < i + 1 implies value_models(copy@)[j]
                == #[trigger] value_models(values@)[j] by {
                if j < i {
                    assert(copy@[j] == before_copy[j]);
                    assert(value_models(before_copy)[j] == value_models(values@)[j]);
                }
            }
        }
        i = i + 1;
    }
    assert(value_models(copy@) =~= value_models(values@));
    copy
}

fn resolve_alias(alias: &HashMap<usize, Operand>, op: &Operand) -> (r: Operand)
    ensures
        r@ == resolved(alias_models(alias@), op@),
{
    let ghost m = alias_models(alias@);
    assert(m.dom() =~= alias@.dom());
    let mut cur = op.clone();
    let mut left: usize = alias.len();
    while left > 0
        invariant
            m == alias_models(alias@),
            resolve(m, cur@, left as nat) == resolved(m, op@),
        decreases left,
    {
        let mut follow: Option<Operand> = None;
        match &cur {
            Operand::Local(l) => {
                match alias.get(&l.id.0) {
                    Some(next) => {
                        follow = Some(next.clone());
                    },
                    None => {},
                }
            },
            _ => {},
        }
        match follow {
            Some(next) => {
                cur = next;
                left = left - 1;
            },
            None => {
                return cur;
            },
        }
    }
    cur
}

fn rewrite_stmt(alias: &HashMap<usize, Operand>, stmt: &Stmt) -> (r: Stmt)
    ensures
        r@ == rewritten(alias_models(alias@), stmt@),
{
    let ghost m = alias_models(alias@);
    let f = |op: &Operand| -> (o: Operand)
        ensures
            o@ == resolved(alias_models(alias@), op@),
        { resolve_alias(alias, op) };
    let r = stmt.map_use_operands(f);
    proof {
        let reads = stmt@.reads();
        let outs = choose|outs: Seq<OperandModel>| #[trigger]
            mapped(f, reads, outs) && r@ == stmt@.with_reads(outs);
        assert forall|i: int| 0 <= i < reads.len() implies outs[i] == resolved(m, reads[i].0) by {
            assert(image(f, reads[i].0, outs[i]));
        }
        assert(outs =~= Seq::new(reads.len(), |i: int| resolved(m, reads[i].0)));
    }
    r
}

struct Renamer<'a> {
    blocks: &'a [BasicBlock],
    cfg: &'a Cfg,
    dom_info: &'a DominatorInfo,
    phi_placement: PhiPlacement,
    vars: Vec<usize>,
    slots: HashMap<usize, usize>,
    current: Vec<Option<Operand>>,
    alias: HashMap<usize, Operand>,
    rewritten: Vec<Vec<Stmt>>,
}

/// The models of the statements of all blocks.
spec fn rows_of(rows: Seq<Vec<Stmt>>) -> Seq<Seq<StmtModel>> {
    Seq::new(rows.len(), |b: int| stmt_models(rows[b]@))
}

impl<'a> Renamer<'a> {
    spec fn plan(&self) -> Plan {
        Plan {
            blocks: block_models(self.blocks@),
            succ: self.cfg.model().succ(),
            idom: self.dom_info.idoms(),
            vars: self.vars@,
            phis: self.phi_placement.model(),
        }
    }

    spec fn state(&self) -> Renaming {
        Renaming {
            current: value_models(self.current@),
            alias: alias_models(self.alias@),
            out: rows_of(self.rewritten@),
            incomings: self.phi_placement.incomings(),
        }
    }

    spec fn wf(&self) -> bool {
        let n = self.blocks@.len();
        &&& self.cfg.wf()
        &&& self.cfg.model().succ().len() == n
        &&& self.dom_info.wf()
        &&& self.dom_info.succ() == self.cfg.model().succ()
        &&& indexes(self.slots@, self.vars@)
        &&& self.current.len() == self.vars.len()
        &&& self.rewritten.len() == n
        &&& self.phi_placement.model().len() == n
        &&& forall|b: int, k: int|
            0 <= b < n && 0 <= k < self.phi_placement.model()[b].len() ==> self.vars@.contains(
                (#[trigger] self.phi_placement.model()[b][k]).var,
            )
    }

    fn clear_state(&mut self)
        requires
            old(self).wf(),
        ensures
            final(self).wf(),
            final(self).plan() == old(self).plan(),
            final(self).state() == cleared(old(self).plan(), old(self).state()),
    {
        self.alias.clear();
        let n: usize = self.vars.len();
        let mut current: Vec<Option<Operand>> = Vec::new();
        let mut i: usize = 0;
        while i < n
            invariant
                i <= n,
                current.len() == i,
                forall|j: int| 0 <= j < i ==> #[trigger] current@[j] is None,
            decreases n - i,
        {
            current.push(None);
            i = i + 1;
        }
        self.current = current;
        proof {
            assert(value_models(self.current@) =~= Seq::new(self.vars@.len(), |i: int| None));
            assert(alias_models(self.alias@) =~= Map::empty());
        }
    }

    /// The position of the operand among the promoted variables.
    fn slot_of(&self, op: &Operand) -> (p: Option<usize>)
        requires
            self.wf(),
        ensures
            match p {
                Some(i) => slot(self.vars@, op@) == Some(i as int) && i < self.vars.len(),
                None => slot(self.vars@, op@) is None,
            },
    {
        match op {
            Operand::Local(l) => self.position(l.id.0),
            _ => None,
        }
    }

    fn position(&self, var: usize) -> (p: Option<usize>)
        requires
            self.wf(),
        ensures
            match p {
                Some(i) => self.vars@.contains(var) && i == self.vars@.index_of(var) && i
                    < self.vars.len(),
                None => !self.vars@.contains(var),
            },
    {
        match self.slots.get(&var) {
            Some(p) => {
                proof {
                    let q = self.vars@.index_of(var);
                    assert(self.vars@[*p as int] == var);
                    assert(self.vars@.contains(var));
                    assert(self.vars@[q] == var);
                }
                Some(*p)
            },
            None => None,
        }
    }

    fn current_value(&self, p: usize) -> (v: Operand)
        requires
            self.wf(),
            p < self.vars.len(),
        ensures
            v@ == value_at(self.state().current, self.state().alias, p as int),
    {
        match &self.current[p] {
            Some(v) => resolve_alias(&self.alias, v),
            None => Operand::from(0i32),
        }
    }

    /// The phis of the block define its variables.
    fn enter_block(&mut self, b: usize)
        requires
            old(self).wf(),
            b < old(self).blocks@.len(),
        ensures
            final(self).wf(),
            final(self).plan() == old(self).plan(),
            final(self).state() == (Renaming {
                current: enter(
                    old(self).plan().vars,
                    old(self).state().current,
                    old(self).plan().phis[b as int],
                    old(self).plan().phis[b as int].len(),
                ),
                ..old(self).state()
            }),
    {
        let ghost st = self.state();
        let ghost plan = self.plan();
        let ghost phis = plan.phis[b as int];
        let count: usize = self.phi_placement.nodes[b].len();
        let mut k: usize = 0;
        while k < count
            invariant
                k <= count,
                self.wf(),
                self.plan() == plan,
                b < self.blocks@.len(),
                phis == plan.phis[b as int],
                count == phis.len(),
                self.state() == (Renaming {
                    current: enter(plan.vars, st.current, phis, k as nat),
                    ..st
                }),
            decreases count - k,
        {
            let var: usize = self.phi_placement.nodes[b][k].var;
            let dst = self.phi_placement.nodes[b][k].dst.clone();
            proof {
                assert(self.phi_placement.model()[b as int] == phi_models(
                    self.phi_placement.nodes@[b as int]@,
                ));
                assert(phis[k as int].var == var && phis[k as int].dst == dst@);
                assert(self.vars@.contains(self.phi_placement.model()[b as int][k as int].var));
            }
            match self.position(var) {
                Some(p) => {
                    let ghost before_current = self.current@;
                    let ghost d = dst@;
                    self.current.set(p, Some(dst));
                    assert(value_models(self.current@) =~= value_models(before_current).update(
                        p as int,
                        Some(d),
                    ));
                },
                None => {},
            }
            k = k + 1;
        }
    }

    /// Renames one statement of block `b`.
    fn rename_one(&mut self, b: usize, i: usize, added: &mut Vec<usize>)
        requires
            old(self).wf(),
            b < old(self).blocks@.len(),
            i < old(self).blocks@[b as int].stmts@.len(),
        ensures
            final(self).wf(),
            final(self).plan() == old(self).plan(),
            ({
                let st = old(self).state();
                let step = rename_stmt(
                    old(self).plan().vars,
                    Step {
                        current: st.current,
                        alias: st.alias,
                        added: old(added)@,
                        out: st.out[b as int],
                    },
                    old(self).blocks@[b as int].stmts@[i as int]@,
                );
                &&& final(added)@ == step.added
                &&& final(self).state() == (Renaming {
                    current: step.current,
                    alias: step.alias,
                    out: st.out.update(b as int, step.out),
                    incomings: st.incomings,
                })
            }),
    {
        let ghost st = self.state();
        let ghost rows = self.rewritten@;
        let ghost bi = b as int;
        assert(st.out[bi] == stmt_models(rows[bi]@));
        assert(st.out.update(bi, st.out[bi]) =~= st.out);
        let stmt = &self.blocks[b].stmts[i];
        match &stmt.inner {
            StmtInner::Alloca(a) => {
                if self.slot_of(&a.dst).is_some() {
                    return ;
                }
                let copy = stmt.clone();
                self.rewritten[b].push(copy);
            },
            StmtInner::Store(s) => {
                match self.slot_of(&s.ptr) {
                    Some(p) => {
                        let src = resolve_alias(&self.alias, &s.src);
                        let ghost before_current = self.current@;
                        let ghost v = src@;
                        self.current.set(p, Some(src));
                        assert(value_models(self.current@) =~= value_models(
                            before_current,
                        ).update(p as int, Some(v)));
                        return ;
                    },
                    None => {
                        let r = rewrite_stmt(&self.alias, stmt);
                        self.rewritten[b].push(r);
                    },
                }
            },
            StmtInner::Load(s) => {
                match self.slot_of(&s.ptr) {
                    Some(p) => {
                        match s.dst.local_id() {
                            Some(id) => {
                                let value = self.current_value(p);
                                let ghost before_alias = self.alias@;
                                let ghost v = value@;
                                self.alias.insert(id.0, value);
                                assert(alias_models(self.alias@) =~= alias_models(
                                    before_alias,
                                ).insert(id.0, v));
                                added.push(id.0);
                            },
                            None => {},
                        }
                        return ;
                    },
                    None => {
                        let r = rewrite_stmt(&self.alias, stmt);
                        self.rewritten[b].push(r);
                    },
                }
            },
            _ => {
                let r = rewrite_stmt(&self.alias, stmt);
                self.rewritten[b].push(r);
            },
        }
        proof {
            let s = self.blocks@[bi].stmts@[i as int]@;
            let last = if s is Alloca {
                s
            } else {
                rewritten(st.alias, s)
            };
            assert(stmt_models(self.rewritten@[bi]@) =~= st.out[bi].push(last));
            assert(rows_of(self.rewritten@) =~= st.out.update(bi, st.out[bi].push(last)));
        }
    }

    /// Hands the values at the end of block `b` to the phis of its successors.
    fn feed_successors(&mut self, b: usize, Ghost(step): Ghost<Step>)
        requires
            old(self).wf(),
            b < old(self).blocks@.len(),
            step.current == old(self).state().current,
            step.alias == old(self).state().alias,
        ensures
            final(self).wf(),
            final(self).plan() == old(self).plan(),
            final(self).state() == (Renaming {
                incomings: feed(
                    old(self).plan(),
                    step,
                    old(self).state().incomings,
                    b as int,
                    old(self).plan().succ[b as int].len(),
                ),
                ..old(self).state()
            }),
    {
        let ghost st = self.state();
        let ghost plan = self.plan();
        let cfg = self.cfg;
        let list = cfg.successors(b);
        let mut k: usize = 0;
        proof {
            self.cfg.model().lemma_wf();
        }
        while k < list.len()
            invariant
                k <= list.len(),
                self.wf(),
                self.plan() == plan,
                b < self.blocks@.len(),
                list@ == plan.succ[b as int],
                rows_in_range(plan.succ, plan.succ.len()),
                step.current == st.current,
                step.alias == st.alias,
                self.state() == (Renaming {
                    incomings: feed(plan, step, st.incomings, b as int, k as nat),
                    ..st
                }),
            decreases list.len() - k,
        {
            let s: usize = list[k];
            assert(plan.succ[b as int][k as int] < plan.succ.len());
            self.feed_block(b, s, Ghost(step));
            proof {
                assert(feed(plan, step, st.incomings, b as int, (k + 1) as nat) == feed(
                    plan,
                    step,
                    st.incomings,
                    b as int,
                    k as nat,
                ).update(
                    s as int,
                    feed_row(
                        plan.vars,
                        step,
                        plan.phis[s as int],
                        feed(plan, step, st.incomings, b as int, k as nat)[s as int],
                        plan.blocks[b as int].label,
                        plan.phis[s as int].len() as int,
                    ),
                ));
            }
            k = k + 1;
        }
    }

    /// Hands the values at the end of block `b` to the phis of block `s`.
    fn feed_block(&mut self, b: usize, s: usize, Ghost(step): Ghost<Step>)
        requires
            old(self).wf(),
            b < old(self).blocks@.len(),
            s < old(self).blocks@.len(),
            step.current == old(self).state().current,
            step.alias == old(self).state().alias,
        ensures
            final(self).wf(),
            final(self).plan() == old(self).plan(),
            final(self).state() == (Renaming {
                incomings: old(self).state().incomings.update(
                    s as int,
                    feed_row(
                        old(self).plan().vars,
                        step,
                        old(self).plan().phis[s as int],
                        old(self).state().incomings[s as int],
                        old(self).plan().blocks[b as int].label,
                        old(self).plan().phis[s as int].len() as int,
                    ),
                ),
                ..old(self).state()
            }),
    {
        let ghost st = self.state();
        let ghost plan = self.plan();
        let ghost phis = plan.phis[s as int];
        let ghost row = st.incomings[s as int];
        let ghost label = plan.blocks[b as int].label;
        let count: usize = self.phi_placement.nodes[s].len();
        proof {
            assert(phis == phi_models(self.phi_placement.nodes@[s as int]@));
            assert(row == phi_incomings(self.phi_placement.nodes@[s as int]@));
            assert(feed_row(plan.vars, step, phis, row, label, 0) =~= row);
            assert(st.incomings.update(s as int, row) =~= st.incomings);
        }
        let mut j: usize = 0;
        while j < count
            invariant
                j <= count,
                self.wf(),
                self.plan() == plan,
                b < self.blocks@.len(),
                s < self.blocks@.len(),
                phis == plan.phis[s as int],
                count == phis.len(),
                row == st.incomings[s as int],
                row.len() == phis.len(),
                s < st.incomings.len(),
                label == plan.blocks[b as int].label,
                step.current == st.current,
                step.alias == st.alias,
                self.state() == (Renaming {
                    incomings: st.incomings.update(
                        s as int,
                        feed_row(plan.vars, step, phis, row, label, j as int),
                    ),
                    ..st
                }),
            decreases count - j,
        {
            let var: usize = self.phi_placement.nodes[s][j].var;
            proof {
                assert(self.phi_placement.model()[s as int] == phi_models(
                    self.phi_placement.nodes@[s as int]@,
                ));
                assert(phis[j as int].var == var);
                assert(self.vars@.contains(self.phi_placement.model()[s as int][j as int].var));
            }
            let ghost fed = feed_row(plan.vars, step, phis, row, label, j as int);
            match self.position(var) {
                Some(p) => {
                    let value = self.current_value(p);
                    let from = self.blocks[b].label.clone();
                    let ghost v = value@;
                    assert(from@ == label);
                    self.phi_placement.add_incoming(s, j, from, value);
                    proof {
                        let next = feed_row(plan.vars, step, phis, row, label, j + 1);
                        assert(fed.update(j as int, fed[j as int].push((label, v))) =~= next);
                        assert(st.incomings.update(s as int, fed)[s as int] == fed);
                        assert(st.incomings.update(s as int, fed).update(s as int, next)
                            =~= st.incomings.update(s as int, next));
                    }
                },
                None => {},
            }
            j = j + 1;
        }
    }

    fn rename_statements(&mut self, b: usize) -> (added: Vec<usize>)
        requires
            old(self).wf(),
            b < old(self).blocks@.len(),
        ensures
            final(self).wf(),
            final(self).plan() == old(self).plan(),
            ({
                let st = old(self).state();
                let step = block_step(old(self).plan(), st, b as int);
                &&& added@ == step.added
                &&& final(self).state() == (Renaming {
                    current: step.current,
                    alias: step.alias,
                    out: st.out.update(b as int, step.out),
                    incomings: st.incomings,
                })
            }),
    {
        let ghost st = self.state();
        let ghost plan = self.plan();
        self.enter_block(b);
        let ghost begun = Step {
            current: enter(plan.vars, st.current, plan.phis[b as int], plan.phis[b as int].len()),
            alias: st.alias,
            added: Seq::empty(),
            out: st.out[b as int],
        };
        let mut added: Vec<usize> = Vec::new();
        let ghost ss = plan.blocks[b as int].stmts;
        let count: usize = self.blocks[b].stmts.len();
        let mut i: usize = 0;
        proof {
            assert(ss.take(0) =~= Seq::empty());
            assert(st.out.update(b as int, st.out[b as int]) =~= st.out);
        }
        while i < count
            invariant
                i <= count,
                self.wf(),
                self.plan() == plan,
                b < self.blocks@.len(),
                ss == plan.blocks[b as int].stmts,
                count == ss.len(),
                st.out.len() == self.blocks@.len(),
                added@ == rename_stmts(plan.vars, begun, ss.take(i as int)).added,
                self.state() == (Renaming {
                    current: rename_stmts(plan.vars, begun, ss.take(i as int)).current,
                    alias: rename_stmts(plan.vars, begun, ss.take(i as int)).alias,
                    out: st.out.update(
                        b as int,
                        rename_stmts(plan.vars, begun, ss.take(i as int)).out,
                    ),
                    incomings: st.incomings,
                }),
            decreases count - i,
        {
            let ghost mid = rename_stmts(plan.vars, begun, ss.take(i as int));
            proof {
                assert(ss.take(i + 1).drop_last() =~= ss.take(i as int));
                assert(ss.take(i + 1).last() == self.blocks@[b as int].stmts@[i as int]@);
            }
            self.rename_one(b, i, &mut added);
            proof {
                let next = rename_stmts(plan.vars, begun, ss.take(i + 1));
                assert(st.out.update(b as int, mid.out)[b as int] == mid.out);
                assert(st.out.update(b as int, mid.out).update(b as int, next.out)
                    =~= st.out.update(b as int, next.out));
            }
            i = i + 1;
        }
        proof {
            assert(ss.take(i as int) =~= ss);
        }
        added
    }

    fn rename_block(&mut self, b: usize, Ghost(height): Ghost<nat>)
        requires
            old(self).wf(),
            b < old(self).blocks@.len(),
            height + depth(old(self).plan().succ, b as int) >= old(self).blocks@.len() + 1,
        ensures
            final(self).wf(),
            final(self).plan() == old(self).plan(),
            final(self).state() == rename_block(
                old(self).plan(),
                old(self).state(),
                b as int,
                height,
            ),
        decreases height,
    {
        let ghost st = self.state();
        let ghost plan = self.plan();
        proof {
            self.dom_info.lemma_wf();
            lemma_depth(plan.succ, plan.idom, b as int);
        }
        let saved = copy_values(&self.current);
        let ghost n = self.blocks@.len();
        let added = self.rename_statements(b);
        let ghost step = block_step(plan, st, b as int);
        let ghost mid = block_done(plan, st, b as int);
        self.feed_successors(b, Ghost(step));
        proof {
            assert(self.state() == mid);
            lemma_children(plan.idom, b, n);
        }
        let dom_info = self.dom_info;
        let kids = dom_info.dom_children(b);
        let ghost low = (height - 1) as nat;
        let mut k: usize = 0;
        while k < kids.len()
            invariant
                k <= kids.len(),
                self.wf(),
                self.plan() == plan,
                n == self.blocks@.len(),
                b < n,
                height > 0,
                low == height - 1,
                height + depth(plan.succ, b as int) >= n + 1,
                is_idom_table(plan.succ, plan.idom),
                plan.succ.len() == n,
                kids@ == children_below(plan.idom, b, n),
                forall|e: int|
                    0 <= e < kids@.len() ==> (#[trigger] kids@[e]) < n && plan.idom[kids@[e] as int]
                        == Some(b),
                self.state() == rename_children(plan, mid, kids@, k as nat, low),
            decreases kids.len() - k,
        {
            let c: usize = kids[k];
            proof {
                assert(kids@[k as int] < n);
                lemma_depth(plan.succ, plan.idom, c as int);
            }
            self.rename_block(c, Ghost(low));
            k = k + 1;
        }
        let ghost done = self.state();
        let mut i: usize = 0;
        while i < added.len()
            invariant
                i <= added.len(),
                self.wf(),
                self.plan() == plan,
                self.state() == (Renaming {
                    alias: without(done.alias, added@, i as nat),
                    ..done
                }),
            decreases added.len() - i,
        {
            let ghost before_alias = self.alias@;
            self.alias.remove(&added[i]);
            assert(alias_models(self.alias@) =~= alias_models(before_alias).remove(
                added@[i as int],
            ));
            i = i + 1;
        }
        proof {
            assert(value_models(saved@).len() == saved@.len());
            assert(st.current.len() == plan.vars.len());
        }
        self.current = saved;
    }

    fn run(&mut self)
        requires
            old(self).wf(),
        ensures
            final(self).wf(),
            final(self).plan() == old(self).plan(),
            final(self).state() == rename_roots(
                old(self).plan(),
                old(self).state(),
                roots_below(old(self).plan().idom, old(self).blocks@.len()),
                roots_below(old(self).plan().idom, old(self).blocks@.len()).len(),
            ),
    {
        let ghost st = self.state();
        let ghost plan = self.plan();
        let dom_info = self.dom_info;
        let roots = dom_info.dom_tree_roots();
        let ghost n = self.blocks@.len();
        proof {
            self.dom_info.lemma_wf();
            lemma_roots(plan.idom, n);
        }
        let mut k: usize = 0;
        while k < roots.len()
            invariant
                k <= roots.len(),
                self.wf(),
                self.plan() == plan,
                n == self.blocks@.len(),
                is_idom_table(plan.succ, plan.idom),
                plan.succ.len() == n,
                plan.blocks.len() == n,
                roots@ == roots_below(plan.idom, n),
                forall|e: int| 0 <= e < roots@.len() ==> (#[trigger] roots@[e]) < n,
                self.state() == rename_roots(plan, st, roots@, k as nat),
            decreases roots.len() - k,
        {
            let r: usize = roots[k];
            proof {
                assert(roots@[k as int] < n);
                lemma_depth(plan.succ, plan.idom, r as int);
            }
            self.clear_state();
            self.rename_block(r, Ghost(n));
            k = k + 1;
        }
    }

    fn finish(self) -> (blocks: Vec<BasicBlock>)
        requires
            self.wf(),
        ensures
            block_models(blocks@) == Seq::new(
                self.plan().blocks.len(),
                |b: int|
                    BlockModel {
                        label: self.plan().blocks[b].label,
                        stmts: phi_stmts(self.plan().phis[b], self.state().incomings[b])
                            + self.state().out[b],
                    },
            ),
    {
        let ghost plan = self.plan();
        let ghost st = self.state();
        let mut out: Vec<BasicBlock> = Vec::new();
        let mut b: usize = 0;
        while b < self.blocks.len()
            invariant
                b <= self.blocks@.len(),
                self.wf(),
                plan == self.plan(),
                st == self.state(),
                out.len() == b,
                forall|x: int|
                    0 <= x < b ==> (#[trigger] out@[x])@ == (BlockModel {
                        label: plan.blocks[x].label,
                        stmts: phi_stmts(plan.phis[x], st.incomings[x]) + st.out[x],
                    }),
            decreases self.blocks@.len() - b,
        {
            let mut stmts: Vec<Stmt> = Vec::new();
            let phis = &self.phi_placement.nodes[b];
            let ghost ps = phi_stmts(plan.phis[b as int], st.incomings[b as int]);
            proof {
                assert(plan.phis[b as int] == phi_models(phis@));
                assert(st.incomings[b as int] == phi_incomings(phis@));
                assert(st.out[b as int] == stmt_models(self.rewritten@[b as int]@));
            }
            let mut k: usize = 0;
            while k < phis.len()
                invariant
                    k <= phis.len(),
                    plan.phis[b as int] == phi_models(phis@),
                    st.incomings[b as int] == phi_incomings(phis@),
                    ps == phi_stmts(plan.phis[b as int], st.incomings[b as int]),
                    stmts.len() == k,
                    forall|x: int| 0 <= x < k ==> (#[trigger] stmts@[x])@ == ps[x],
                decreases phis.len() - k,
            {
                stmts.push(
                    Stmt::as_phi(phis[k].dst.clone(), copy_incomings(&phis[k].incomings)),
                );
                k = k + 1;
            }
            let row = &self.rewritten[b];
            let mut i: usize = 0;
            while i < row.len()
                invariant
                    i <= row.len(),
                    ps.len() == phis.len(),
                    stmts.len() == ps.len() + i,
                    forall|x: int| 0 <= x < ps.len() ==> (#[trigger] stmts@[x])@ == ps[x],
                    forall|x: int|
                        ps.len() <= x < stmts.len() ==> (#[trigger] stmts@[x])@ == row@[x
                            - ps.len()]@,
                decreases row.len() - i,
            {
                stmts.push(row[i].clone());
                i = i + 1;
            }
            assert(stmt_models(stmts@) =~= ps + stmt_models(row@));
            let block = BasicBlock { label: self.blocks[b].label.clone(), stmts };
            out.push(block);
            b = b + 1;
        }
        assert(block_models(out@) =~= Seq::new(
            plan.blocks.len(),
            |b: int|
                BlockModel {
                    label: plan.blocks[b].label,
                    stmts: phi_stmts(plan.phis[b], st.incomings[b]) + st.out[b],
                },
        ));
        out
    }
}

/// The pass that promotes stack variables to registers.
pub struct Mem2RegPass;

impl FunctionPass for Mem2RegPass {
    open spec fn accepts(&self, func: FunctionModel) -> bool {
        func.body matches Some(body) ==> promotion_fits(body)
    }

    open spec fn relates(&self, before: FunctionModel, after: FunctionModel) -> bool {
        after == promoted(before)
    }

    fn run(&self, func: &mut Function) {
        match &mut func.body {
            None => {},
            Some(body) => {
                Self::promote(body);
            },
        }
    }
}

/// The function after promotion.
pub open spec fn promoted(func: FunctionModel) -> FunctionModel {
    FunctionModel {
        identifier: func.identifier,
        body: match func.body {
            Some(body) => Some(promoted_body(body)),
            None => None,
        },
    }
}

impl Mem2RegPass {
    /// Whether the branches of a body have targets, and there is a number for
    /// a phi of every promoted variable in every block.
    pub fn can_promote(body: &FunctionBody) -> (b: bool)
        ensures
            b == room_for_phis(body@),
    {
        proof {
            lemma_targets_exist(body.blocks@);
        }
        let blocks = body.blocks.as_slice();
        if !branches_have_targets(blocks) {
            return false;
        }
        let ghost bs = block_models(body.blocks@);
        let ghost plan = plan_of(bs, body.next_vreg as nat);
        let cfg = Cfg::from_blocks(blocks);
        let dom_info = DominatorInfo::compute(cfg.graph());
        proof {
            dom_info.lemma_wf();
            lemma_idom_table_unique(plan.succ, dom_info.idoms());
        }
        let analysis = AllocaAnalysis::from_blocks(blocks);
        let chosen = analysis.promotable_vars(&dom_info, Ghost(bs));
        assert(picked(analysis.vars@, chosen@) == plan.vars);
        let vars: u128 = chosen.len() as u128;
        let count: u128 = blocks.len() as u128;
        proof {
            assert(vars * count <= 0xffff_ffff_ffff_ffff * 0xffff_ffff_ffff_ffff)
                by (nonlinear_arith)
                requires
                    0 <= vars <= 0xffff_ffff_ffff_ffff,
                    0 <= count <= 0xffff_ffff_ffff_ffff,
            ;
        }
        vars * count + body.next_vreg as u128 <= usize::MAX as u128
    }

    fn promote(body: &mut FunctionBody)
        requires
            promotion_fits(old(body)@),
        ensures
            final(body)@ == promoted_body(old(body)@),
    {
        let ghost first = body.next_vreg as nat;
        let ghost bs = block_models(body.blocks@);
        let ghost plan = plan_of(bs, first);
        proof {
            lemma_targets_exist(body.blocks@);
        }
        let cfg = Cfg::from_blocks(body.blocks.as_slice());
        let dom_info = DominatorInfo::compute(cfg.graph());
        proof {
            dom_info.lemma_wf();
            lemma_idom_table_unique(plan.succ, dom_info.idoms());
        }
        let analysis = AllocaAnalysis::from_blocks(body.blocks.as_slice());
        let chosen = analysis.promotable_vars(&dom_info, Ghost(bs));
        assert(picked(analysis.vars@, chosen@) == plan.vars);
        assert(picked(analysis.vars@, chosen@).len() == chosen.len());
        if chosen.len() == 0 {
            return ;
        }
        let mut next_vreg: usize = body.next_vreg;
        let placement = place_phis(
            &analysis.vars,
            &analysis.usage,
            &chosen,
            cfg.graph(),
            &dom_info,
            &mut next_vreg,
            Ghost(bs),
        );
        let blocks = Self::renamed(
            body.blocks.as_slice(),
            &cfg,
            &dom_info,
            placement,
            &analysis.vars,
            &chosen,
            Ghost(first),
        );
        body.next_vreg = next_vreg;
        body.blocks = blocks;
    }

    fn renamed(
        blocks: &[BasicBlock],
        cfg: &Cfg,
        dom_info: &DominatorInfo,
        placement: PhiPlacement,
        all: &Vec<usize>,
        chosen: &Vec<usize>,
        Ghost(first): Ghost<nat>,
    ) -> (out: Vec<BasicBlock>)
        requires
            cfg.wf(),
            cfg.model().succ() == block_succ(block_models(blocks@)),
            dom_info.wf(),
            dom_info.succ() == cfg.model().succ(),
            dom_info.idoms() == plan_of(block_models(blocks@), first).idom,
            forall|k: int| 0 <= k < chosen.len() ==> (#[trigger] chosen@[k]) < all.len(),
            picked(all@, chosen@) == plan_of(block_models(blocks@), first).vars,
            placement.model() == plan_of(block_models(blocks@), first).phis,
            placement.incomings() == no_incomings(placement.model()),
        ensures
            block_models(out@) == promoted_blocks(plan_of(block_models(blocks@), first)),
    {
        let ghost plan = plan_of(block_models(blocks@), first);
        proof {
            super::alloca_analysis::lemma_promoted_distinct(plan.blocks, plan.succ);
            lemma_phi_vars(plan.blocks, plan.succ, plan.vars, plan.vars.len(), 0, first);
        }
        let mut vars: Vec<usize> = Vec::new();
        let mut slots: HashMap<usize, usize> = HashMap::new();
        let mut current: Vec<Option<Operand>> = Vec::new();
        let mut k: usize = 0;
        while k < chosen.len()
            invariant
                k <= chosen.len(),
                forall|e: int| 0 <= e < chosen.len() ==> (#[trigger] chosen@[e]) < all.len(),
                picked(all@, chosen@) == plan.vars,
                plan.vars.no_duplicates(),
                vars@ == plan.vars.take(k as int),
                indexes(slots@, vars@),
                current.len() == k,
                forall|j: int| 0 <= j < k ==> #[trigger] current@[j] is None,
            decreases chosen.len() - k,
        {
            let v: usize = all[chosen[k]];
            let ghost before_vars = vars@;
            slots.insert(v, k);
            vars.push(v);
            current.push(None);
            proof {
                assert(v == plan.vars[k as int]);
                assert(vars@ =~= plan.vars.take(k + 1));
                assert(vars@[k as int] == v);
                assert forall|w: usize| #[trigger] slots@.contains_key(w) <==> vars@.contains(w) by {
                    if before_vars.contains(w) {
                        let e = choose|e: int| 0 <= e < before_vars.len() && before_vars[e] == w;
                        assert(vars@[e] == w);
                    }
                }
                assert(!before_vars.contains(v)) by {
                    if before_vars.contains(v) {
                        let e = choose|e: int| 0 <= e < before_vars.len() && before_vars[e] == v;
                        assert(plan.vars[e] == plan.vars[k as int]);
                    }
                }
            }
            k = k + 1;
        }
        assert(plan.vars.take(k as int) =~= plan.vars);
        let mut rows: Vec<Vec<Stmt>> = Vec::new();
        let mut b: usize = 0;
        while b < blocks.len()
            invariant
                b <= blocks@.len(),
                rows.len() == b,
                forall|x: int| 0 <= x < b ==> (#[trigger] rows@[x])@.len() == 0,
            decreases blocks@.len() - b,
        {
            rows.push(Vec::new());
            b = b + 1;
        }
        let mut renamer = Renamer {
            blocks,
            cfg,
            dom_info,
            phi_placement: placement,
            vars,
            slots,
            current,
            alias: HashMap::new(),
            rewritten: rows,
        };
        proof {
            assert(renamer.plan() == plan);
            let st = renamer.state();
            let none = unrenamed(plan);
            assert(st.current =~= none.current);
            assert(st.alias =~= none.alias);
            assert forall|x: int| 0 <= x < blocks@.len() implies #[trigger] st.out[x]
                == none.out[x] by {
                assert(renamer.rewritten@[x]@.len() == 0);
                assert(st.out[x] =~= Seq::empty());
            }
            assert(st.out =~= none.out);
            assert(st == none);
        }
        renamer.run();
        renamer.finish()
    }
}

} // verus!
