//! Where values of a promoted variable meet: the blocks that need a phi.

use super::alloca_analysis::{def_set, exposes, occurs, stores, VarUsage};
use super::dominator::{in_frontier, DominatorInfo};
use crate::common::bitset::{members, Bitset};
use crate::common::graph::{
    flag_set, lemma_live_iff_reaches_use, reaches_use, sets, BackwardLiveness, Graph, Lattice,
};
use crate::ir::function::{BlockLabel, BlockModel, LabelModel};
use crate::ir::stmt::{incoming_models, OperandRole};
use crate::ir::types::{Dtype, DtypeModel};
use crate::ir::value::{Local, LocalId, Operand, OperandModel};
use vstd::prelude::*;

verus! {

/// Which blocks load `v` before they store it.
pub open spec fn gen_sets(blocks: Seq<BlockModel>, v: nat) -> Seq<Set<int>> {
    Seq::new(blocks.len(), |b: int| flag_set(exposes(blocks[b], v)))
}

/// Which blocks store `v`.
pub open spec fn kill_sets(blocks: Seq<BlockModel>, v: nat) -> Seq<Set<int>> {
    Seq::new(blocks.len(), |b: int| flag_set(stores(blocks[b], v)))
}

/// Some path from the entry of block `y` loads `v` before it stores it.
pub open spec fn live_at(
    blocks: Seq<BlockModel>,
    succ: Seq<Seq<usize>>,
    v: nat,
    y: int,
) -> bool {
    exists|path: Seq<int>|
        reaches_use(succ, gen_sets(blocks, v), kill_sets(blocks, v), y, 0, path)
}

/// Two values of `v` may meet at `y`: it is in the dominance frontier of a
/// block `b` that stores `v` or is in `s`, and `v` is live there.
pub open spec fn meets(
    blocks: Seq<BlockModel>,
    succ: Seq<Seq<usize>>,
    v: nat,
    s: Set<int>,
    b: int,
    y: int,
) -> bool {
    &&& 0 <= b < blocks.len()
    &&& 0 <= y < blocks.len()
    &&& stores(blocks[b], v) || s.contains(b)
    &&& in_frontier(succ, b, y)
    &&& live_at(blocks, succ, v, y)
}

/// With phis in the blocks of `s`, every block where values of `v` meet is in
/// `s`.
pub open spec fn covers(
    blocks: Seq<BlockModel>,
    succ: Seq<Seq<usize>>,
    v: nat,
    s: Set<int>,
) -> bool {
    forall|b: int, y: int| #[trigger] meets(blocks, succ, v, s, b, y) ==> s.contains(y)
}

/// Block `b` needs a phi for `v`: it is in every set of blocks that suffices.
pub open spec fn needs_phi(
    blocks: Seq<BlockModel>,
    succ: Seq<Seq<usize>>,
    v: nat,
    b: int,
) -> bool {
    &&& occurs(blocks, v, OperandRole::LoadPtr)
    &&& 0 <= b < blocks.len()
    &&& forall|s: Set<int>| #[trigger] covers(blocks, succ, v, s) ==> s.contains(b)
}

/// The blocks that need a phi for `v`.
pub open spec fn phi_set(blocks: Seq<BlockModel>, succ: Seq<Seq<usize>>, v: nat) -> Set<int> {
    Set::new(|b: int| needs_phi(blocks, succ, v, b))
}

/// The blocks that need a phi suffice, for a variable that is loaded.
pub proof fn lemma_phis_suffice(blocks: Seq<BlockModel>, succ: Seq<Seq<usize>>, v: nat)
    requires
        occurs(blocks, v, OperandRole::LoadPtr),
    ensures
        covers(blocks, succ, v, phi_set(blocks, succ, v)),
{
    let p = phi_set(blocks, succ, v);
    assert forall|b: int, y: int| #[trigger] meets(blocks, succ, v, p, b, y) implies p.contains(
        y,
    ) by {
        assert forall|s: Set<int>| #[trigger] covers(blocks, succ, v, s) implies s.contains(y) by {
            assert(meets(blocks, succ, v, s, b, y));
        }
    }
}

/// A phi for the variable `var` that defines `dst`.
pub struct PhiModel {
    pub var: usize,
    pub dst: OperandModel,
}

/// The phis after those of the first `i` variables, and of variable `i` in
/// the blocks below `b`, have been numbered from `first` on, and the next
/// free number.
pub open spec fn numbered(
    blocks: Seq<BlockModel>,
    succ: Seq<Seq<usize>>,
    vars: Seq<usize>,
    i: nat,
    b: nat,
    first: nat,
) -> (Seq<Seq<PhiModel>>, nat)
    decreases i, b,
{
    if b > 0 {
        let (nodes, next) = numbered(blocks, succ, vars, i, (b - 1) as nat, first);
        let k = b - 1;
        if needs_phi(blocks, succ, vars[i as int] as nat, k) {
            let phi = PhiModel {
                var: vars[i as int],
                dst: OperandModel::local(next, DtypeModel::I32),
            };
            (nodes.update(k, nodes[k].push(phi)), next + 1)
        } else {
            (nodes, next)
        }
    } else if i > 0 {
        numbered(blocks, succ, vars, (i - 1) as nat, blocks.len(), first)
    } else {
        (Seq::new(blocks.len(), |x: int| Seq::<PhiModel>::empty()), first)
    }
}

/// The phis of every block, and the next free number.
pub open spec fn phis_of(
    blocks: Seq<BlockModel>,
    succ: Seq<Seq<usize>>,
    vars: Seq<usize>,
    first: nat,
) -> (Seq<Seq<PhiModel>>, nat) {
    numbered(blocks, succ, vars, vars.len(), 0, first)
}

proof fn lemma_numbered_shape(
    blocks: Seq<BlockModel>,
    succ: Seq<Seq<usize>>,
    vars: Seq<usize>,
    i: nat,
    b: nat,
    first: nat,
)
    requires
        b <= blocks.len(),
    ensures
        numbered(blocks, succ, vars, i, b, first).0.len() == blocks.len(),
    decreases i, b,
{
    if b > 0 {
        lemma_numbered_shape(blocks, succ, vars, i, (b - 1) as nat, first);
    } else if i > 0 {
        lemma_numbered_shape(blocks, succ, vars, (i - 1) as nat, blocks.len(), first);
    }
}

proof fn lemma_numbered_grows(
    blocks: Seq<BlockModel>,
    succ: Seq<Seq<usize>>,
    vars: Seq<usize>,
    i: nat,
    b: nat,
    j: nat,
    c: nat,
    first: nat,
)
    requires
        i < j || (i == j && b <= c),
        b <= blocks.len(),
        c <= blocks.len(),
    ensures
        numbered(blocks, succ, vars, i, b, first).1 <= numbered(blocks, succ, vars, j, c, first).1,
    decreases j, c,
{
    if i == j && b == c {
    } else if c > 0 {
        lemma_numbered_grows(blocks, succ, vars, i, b, j, (c - 1) as nat, first);
    } else {
        lemma_numbered_grows(blocks, succ, vars, i, b, (j - 1) as nat, blocks.len(), first);
    }
}

/// There is at most one phi for each variable in each block.
pub proof fn lemma_phis_bound(
    blocks: Seq<BlockModel>,
    succ: Seq<Seq<usize>>,
    vars: Seq<usize>,
    first: nat,
)
    ensures
        phis_of(blocks, succ, vars, first).1 <= vars.len() * blocks.len() + first,
{
    lemma_numbered_bound(blocks, succ, vars, vars.len(), 0, first);
}

proof fn lemma_numbered_bound(
    blocks: Seq<BlockModel>,
    succ: Seq<Seq<usize>>,
    vars: Seq<usize>,
    i: nat,
    b: nat,
    first: nat,
)
    requires
        b <= blocks.len(),
    ensures
        numbered(blocks, succ, vars, i, b, first).1 <= i * blocks.len() + b + first,
    decreases i, b,
{
    if b > 0 {
        lemma_numbered_bound(blocks, succ, vars, i, (b - 1) as nat, first);
    } else if i > 0 {
        lemma_numbered_bound(blocks, succ, vars, (i - 1) as nat, blocks.len(), first);
        let n = blocks.len();
        assert((i - 1) * n + n == i * n) by (nonlinear_arith);
    } else {
        assert(0 * blocks.len() == 0);
    }
}

/// The variables of the phis are among those promoted.
pub proof fn lemma_phi_vars(
    blocks: Seq<BlockModel>,
    succ: Seq<Seq<usize>>,
    vars: Seq<usize>,
    i: nat,
    b: nat,
    first: nat,
)
    requires
        b <= blocks.len(),
        i < vars.len() || (i == vars.len() && b == 0),
    ensures
        numbered(blocks, succ, vars, i, b, first).0.len() == blocks.len(),
        forall|x: int, k: int|
            0 <= x < blocks.len() && 0 <= k < numbered(
                blocks,
                succ,
                vars,
                i,
                b,
                first,
            ).0[x].len() ==> vars.contains(
                (#[trigger] numbered(blocks, succ, vars, i, b, first).0[x][k]).var,
            ),
    decreases i, b,
{
    lemma_numbered_shape(blocks, succ, vars, i, b, first);
    if b > 0 {
        lemma_phi_vars(blocks, succ, vars, i, (b - 1) as nat, first);
        lemma_numbered_shape(blocks, succ, vars, i, (b - 1) as nat, first);
        assert(vars.contains(vars[i as int]));
    } else if i > 0 {
        lemma_phi_vars(blocks, succ, vars, (i - 1) as nat, blocks.len(), first);
    }
}

/// Some phi of the list is for `v`.
pub open spec fn has_phi(row: Seq<PhiModel>, v: usize) -> bool {
    exists|k: int| 0 <= k < row.len() && (#[trigger] row[k]).var == v
}

proof fn lemma_push_phi(row: Seq<PhiModel>, phi: PhiModel, v: usize)
    ensures
        has_phi(row.push(phi), v) == (has_phi(row, v) || phi.var == v),
{
    let more = row.push(phi);
    if has_phi(row, v) {
        let k = choose|k: int| 0 <= k < row.len() && (#[trigger] row[k]).var == v;
        assert(more[k].var == v);
    }
    if phi.var == v {
        assert(more[more.len() - 1].var == v);
    }
    if has_phi(more, v) {
        let k = choose|k: int| 0 <= k < more.len() && (#[trigger] more[k]).var == v;
        if k < row.len() {
            assert(row[k].var == v);
        }
    }
}

proof fn lemma_numbered_where(
    blocks: Seq<BlockModel>,
    succ: Seq<Seq<usize>>,
    vars: Seq<usize>,
    i: nat,
    b: nat,
    first: nat,
    j: int,
    x: int,
)
    requires
        vars.no_duplicates(),
        b <= blocks.len(),
        i < vars.len() || (i == vars.len() && b == 0),
        0 <= j < vars.len(),
        0 <= x < blocks.len(),
    ensures
        has_phi(numbered(blocks, succ, vars, i, b, first).0[x], vars[j]) == ((j < i || (j == i && x
            < b)) && needs_phi(blocks, succ, vars[j] as nat, x)),
    decreases i, b,
{
    lemma_numbered_shape(blocks, succ, vars, i, b, first);
    if b > 0 {
        lemma_numbered_where(blocks, succ, vars, i, (b - 1) as nat, first, j, x);
        lemma_numbered_shape(blocks, succ, vars, i, (b - 1) as nat, first);
        let (nodes, next) = numbered(blocks, succ, vars, i, (b - 1) as nat, first);
        if x == b - 1 && needs_phi(blocks, succ, vars[i as int] as nat, x) {
            let phi = PhiModel {
                var: vars[i as int],
                dst: OperandModel::local(next, DtypeModel::I32),
            };
            lemma_push_phi(nodes[x], phi, vars[j]);
        }
    } else if i > 0 {
        lemma_numbered_where(blocks, succ, vars, (i - 1) as nat, blocks.len(), first, j, x);
    }
}

/// A block gets a phi for a promoted variable exactly where it needs one.
pub proof fn lemma_phis_where_needed(
    blocks: Seq<BlockModel>,
    succ: Seq<Seq<usize>>,
    vars: Seq<usize>,
    first: nat,
    j: int,
    x: int,
)
    requires
        vars.no_duplicates(),
        0 <= j < vars.len(),
        0 <= x < blocks.len(),
    ensures
        has_phi(phis_of(blocks, succ, vars, first).0[x], vars[j]) == needs_phi(
            blocks,
            succ,
            vars[j] as nat,
            x,
        ),
{
    lemma_numbered_where(blocks, succ, vars, vars.len(), 0, first, j, x);
}

/// A phi of a promoted variable.
pub struct PhiInfo {
    pub var: usize,
    pub dst: Operand,
    pub incomings: Vec<(BlockLabel, Operand)>,
}

/// The phis of every block.
pub struct PhiPlacement {
    pub nodes: Vec<Vec<PhiInfo>>,
}

/// The models of a list of phis.
pub open spec fn phi_models(list: Seq<PhiInfo>) -> Seq<PhiModel> {
    Seq::new(list.len(), |k: int| PhiModel { var: list[k].var, dst: list[k].dst@ })
}

/// The incoming values of a list of phis.
pub open spec fn phi_incomings(list: Seq<PhiInfo>) -> Seq<Seq<(LabelModel, OperandModel)>> {
    Seq::new(list.len(), |k: int| incoming_models(list[k].incomings@))
}

impl PhiPlacement {
    /// The phis of every block.
    pub open spec fn model(&self) -> Seq<Seq<PhiModel>> {
        Seq::new(self.nodes@.len(), |b: int| phi_models(self.nodes@[b]@))
    }

    /// The incoming values of every phi.
    pub open spec fn incomings(&self) -> Seq<Seq<Seq<(LabelModel, OperandModel)>>> {
        Seq::new(self.nodes@.len(), |b: int| phi_incomings(self.nodes@[b]@))
    }

    /// No phis in any of `num_blocks` blocks.
    pub fn new(num_blocks: usize) -> (p: Self)
        ensures
            p.model() == Seq::new(num_blocks as nat, |b: int| Seq::<PhiModel>::empty()),
            p.incomings() == no_incomings(p.model()),
    {
        let mut nodes: Vec<Vec<PhiInfo>> = Vec::new();
        let mut b: usize = 0;
        while b < num_blocks
            invariant
                b <= num_blocks,
                nodes.len() == b,
                forall|x: int| 0 <= x < b ==> (#[trigger] nodes@[x])@.len() == 0,
            decreases num_blocks - b,
        {
            nodes.push(Vec::new());
            b = b + 1;
        }
        let p = PhiPlacement { nodes };
        assert forall|x: int| 0 <= x < num_blocks implies p.model()[x] =~= Seq::<
            PhiModel,
        >::empty() by {
            assert(p.nodes@[x]@.len() == 0);
        }
        assert forall|x: int| 0 <= x < num_blocks implies p.incomings()[x] =~= no_incomings(
            p.model(),
        )[x] by {
            assert(p.nodes@[x]@.len() == 0);
        }
        assert(p.model() =~= Seq::new(num_blocks as nat, |b: int| Seq::<PhiModel>::empty()));
        assert(p.incomings() =~= no_incomings(p.model()));
        p
    }

    /// Adds a phi for `var` to `block`.
    pub fn insert_phi(&mut self, block: usize, var: usize, dst: Operand)
        requires
            block < old(self).model().len(),
            old(self).incomings() == no_incomings(old(self).model()),
        ensures
            final(self).model() == old(self).model().update(
                block as int,
                old(self).model()[block as int].push(PhiModel { var, dst: dst@ }),
            ),
            final(self).incomings() == no_incomings(final(self).model()),
    {
        let ghost before_nodes = self.nodes@;
        let ghost m0 = self.model();
        let ghost i0 = self.incomings();
        let ghost d = dst@;
        self.nodes[block].push(PhiInfo { var, dst, incomings: Vec::new() });
        proof {
            let m1 = self.model();
            let b = block as int;
            assert forall|x: int| 0 <= x < m1.len() implies #[trigger] m1[x] == m0.update(
                b,
                m0[b].push(PhiModel { var, dst: d }),
            )[x] by {
                if x == b {
                    assert(m1[x] =~= m0[b].push(PhiModel { var, dst: d }));
                } else {
                    assert(self.nodes@[x] == before_nodes[x]);
                    assert(m0[x] == phi_models(before_nodes[x]@));
                }
            }
            assert(m1 =~= m0.update(b, m0[b].push(PhiModel { var, dst: d })));
            let none = no_incomings(m1);
            assert forall|x: int| 0 <= x < m1.len() implies #[trigger] self.incomings()[x]
                == none[x] by {
                if x == b {
                    assert forall|k: int| 0 <= k < none[x].len() implies #[trigger] self.incomings()[x][k]
                        == none[x][k] by {
                        if k < before_nodes[x]@.len() {
                            assert(i0[x] == no_incomings(m0)[x]);
                            assert(i0[x][k] == no_incomings(m0)[x][k]);
                            assert(self.nodes@[x]@[k] == before_nodes[x]@[k]);
                        } else {
                            assert(self.incomings()[x][k] =~= Seq::empty());
                        }
                    }
                    assert(self.incomings()[x] =~= none[x]);
                } else {
                    assert(self.nodes@[x] == before_nodes[x]);
                    assert(i0[x] == no_incomings(m0)[x]);
                    assert(m1[x] == m0[x]);
                }
            }
            assert(self.incomings() =~= none);
        }
    }

    /// Adds an incoming value to the phi `k` of `block`.
    pub fn add_incoming(&mut self, block: usize, k: usize, label: BlockLabel, value: Operand)
        requires
            block < old(self).model().len(),
            k < old(self).model()[block as int].len(),
        ensures
            final(self).model() == old(self).model(),
            final(self).incomings() == old(self).incomings().update(
                block as int,
                old(self).incomings()[block as int].update(
                    k as int,
                    old(self).incomings()[block as int][k as int].push((label@, value@)),
                ),
            ),
    {
        let ghost before_nodes = self.nodes@;
        let ghost m0 = self.model();
        let ghost i0 = self.incomings();
        let ghost item = (label@, value@);
        let ghost b = block as int;
        assert(m0[b] == phi_models(before_nodes[b]@));
        self.nodes[block][k].incomings.push((label, value));
        proof {
            let row = before_nodes[b]@;
            let now = self.nodes@[b]@;
            assert(now.len() == row.len());
            assert forall|x: int| 0 <= x < m0.len() implies #[trigger] self.model()[x] == m0[x] by {
                if x == b {
                    assert(phi_models(now) =~= phi_models(row));
                } else {
                    assert(self.nodes@[x] == before_nodes[x]);
                }
            }
            assert(self.model() =~= m0);
            let target = i0[b].update(k as int, i0[b][k as int].push(item));
            assert(i0[b] == phi_incomings(row));
            assert(i0[b][k as int] == incoming_models(row[k as int].incomings@));
            assert(incoming_models(now[k as int].incomings@) =~= i0[b][k as int].push(item));
            assert(phi_incomings(now) =~= target);
            assert forall|x: int| 0 <= x < m0.len() implies #[trigger] self.incomings()[x]
                == i0.update(b, target)[x] by {
                if x != b {
                    assert(self.nodes@[x] == before_nodes[x]);
                }
            }
            assert(self.incomings() =~= i0.update(b, target));
        }
    }
}

/// No incoming values in any phi.
pub open spec fn no_incomings(phis: Seq<Seq<PhiModel>>) -> Seq<
    Seq<Seq<(LabelModel, OperandModel)>>,
> {
    Seq::new(
        phis.len(),
        |b: int| Seq::new(phis[b].len(), |k: int| Seq::<(LabelModel, OperandModel)>::empty()),
    )
}

/// The blocks that need a phi for one variable.
pub fn phi_blocks(
    u: &VarUsage,
    graph: &Graph,
    dom_info: &DominatorInfo,
    Ghost(blocks): Ghost<Seq<BlockModel>>,
    Ghost(v): Ghost<nat>,
) -> (set: Bitset)
    requires
        u.describes(blocks, v),
        graph.wf(),
        graph.succ().len() == blocks.len(),
        dom_info.wf(),
        dom_info.succ() == graph.succ(),
    ensures
        set.wf(),
        set.cap() == blocks.len(),
        set@ == phi_set(blocks, graph.succ(), v),
{
    let n: usize = graph.num_nodes();
    let mut set = Bitset::new(n);
    if !u.has_load {
        assert(set@ =~= phi_set(blocks, graph.succ(), v));
        return set;
    }
    let ghost succ = graph.succ();
    let mut gen: Vec<bool> = Vec::new();
    let mut kill: Vec<bool> = Vec::new();
    let mut i: usize = 0;
    while i < n
        invariant
            i <= n,
            n == blocks.len(),
            u.describes(blocks, v),
            gen.len() == i,
            kill.len() == i,
            forall|b: int| 0 <= b < i ==> #[trigger] gen@[b] == exposes(blocks[b], v),
            forall|b: int| 0 <= b < i ==> #[trigger] kill@[b] == stores(blocks[b], v),
        decreases n - i,
    {
        gen.push(u.load_before_store_blocks.contains(i));
        kill.push(u.def_blocks.contains(i));
        assert(u.def_blocks@.contains(i as int) <==> def_set(blocks, v).contains(i as int));
        i = i + 1;
    }
    assert(false.elems() =~= Set::<int>::empty());
    let liveness = BackwardLiveness::<bool>::compute(gen.as_slice(), kill.as_slice(), graph, false);
    proof {
        graph.lemma_wf();
        assert(sets(gen@) =~= gen_sets(blocks, v));
        assert(sets(kill@) =~= kill_sets(blocks, v));
        assert forall|y: int| 0 <= y < n implies #[trigger] liveness.live_in@[y] == live_at(
            blocks,
            succ,
            v,
            y,
        ) by {
            lemma_live_iff_reaches_use(
                succ,
                sets(gen@),
                sets(kill@),
                sets(liveness.live_in@),
                sets(liveness.live_out@),
                y,
                0,
            );
            assert(sets(liveness.live_in@)[y] == flag_set(liveness.live_in@[y]));
        }
    }
    let mut work: Vec<usize> = members(&u.def_blocks);
    let ghost defs = u.def_blocks@;
    proof {
        assert forall|k: int| 0 <= k < work.len() implies (#[trigger] work@[k]) < n by {
            assert(defs.contains(work@[k] as int));
        }
        set.lemma_members_below_cap();
        assert forall|b: int, y: int| #[trigger]
            meets(blocks, succ, v, set@, b, y) implies work@.contains(b as usize) by {
            assert(def_set(blocks, v).contains(b));
            assert(defs.contains(b));
            let k = choose|k: int| 0 <= k < work@.len() && work@[k] == b;
            assert(work@[k] == b as usize);
        }
    }
    while work.len() > 0
        invariant
            n == blocks.len(),
            succ == graph.succ(),
            u.describes(blocks, v),
            defs == u.def_blocks@,
            graph.wf(),
            succ.len() == n,
            dom_info.wf(),
            dom_info.succ() == succ,
            liveness.live_in.len() == n,
            forall|y: int| 0 <= y < n ==> #[trigger] liveness.live_in@[y] == live_at(blocks, succ, v, y),
            set.wf(),
            set.cap() == n,
            set@.len() <= n,
            forall|k: int| 0 <= k < work.len() ==> (#[trigger] work@[k]) < n,
            forall|s: Set<int>| #[trigger] covers(blocks, succ, v, s) ==> set@.subset_of(s),
            forall|b: int, y: int| #[trigger]
                meets(blocks, succ, v, set@, b, y) && !set@.contains(y) ==> work@.contains(b as usize),
            forall|k: int|
                0 <= k < work.len() ==> defs.contains(#[trigger] work@[k] as int) || set@.contains(
                    work@[k] as int,
                ),
        decreases n - set@.len(), work.len(),
    {
        let ghost whole = work@;
        let b: usize = work.pop().unwrap();
        assert(b == whole.last());
        assert(whole[whole.len() - 1] == b);
        let df = dom_info.dominance_frontier(b);
        let front = members(df);
        let ghost rest = work@;
        let ghost start_len = set@.len();
        proof {
            assert forall|c: int, y: int| #[trigger]
                meets(blocks, succ, v, set@, c, y) && !set@.contains(y) && c
                    != b implies work@.contains(c as usize) by {
                let k = choose|k: int| 0 <= k < whole.len() && whole[k] == c as usize;
                assert(rest[k] == c as usize);
            }
        }
        let mut k: usize = 0;
        proof {
            assert forall|e: int| 0 <= e < front.len() implies (#[trigger] front@[e]) < n
                && in_frontier(succ, b as int, front@[e] as int) by {
                assert(df@.contains(front@[e] as int));
            }
        }
        while k < front.len()
            invariant
                k <= front.len(),
                n == blocks.len(),
                b < n,
                succ == graph.succ(),
                u.describes(blocks, v),
                defs == u.def_blocks@,
                liveness.live_in.len() == n,
                forall|y: int|
                    0 <= y < n ==> #[trigger] liveness.live_in@[y] == live_at(blocks, succ, v, y),
                forall|e: int|
                    0 <= e < front.len() ==> (#[trigger] front@[e]) < n && in_frontier(
                        succ,
                        b as int,
                        front@[e] as int,
                    ),
                set.wf(),
                set.cap() == n,
                start_len <= set@.len() <= n,
                set@.len() == start_len ==> work@ == rest,
                forall|e: int| 0 <= e < work.len() ==> (#[trigger] work@[e]) < n,
                defs.contains(b as int) || set@.contains(b as int),
                forall|s: Set<int>| #[trigger] covers(blocks, succ, v, s) ==> set@.subset_of(s),
                forall|c: int, y: int| #[trigger]
                    meets(blocks, succ, v, set@, c, y) && !set@.contains(y) && c != b
                        ==> work@.contains(c as usize),
                forall|e: int|
                    0 <= e < k && live_at(blocks, succ, v, front@[e] as int) ==> set@.contains(
                        #[trigger] front@[e] as int,
                    ),
                forall|e: int|
                    0 <= e < work.len() ==> defs.contains(#[trigger] work@[e] as int)
                        || set@.contains(work@[e] as int),
            decreases front.len() - k,
        {
            let y: usize = front[k];
            if liveness.live_in[y] && !set.contains(y) {
                let ghost before_set = set@;
                let ghost before_work = work@;
                proof {
                    assert(in_frontier(succ, b as int, front@[k as int] as int));
                    set.lemma_members_below_cap();
                    assert forall|s: Set<int>| #[trigger] covers(
                        blocks,
                        succ,
                        v,
                        s,
                    ) implies s.contains(y as int) by {
                        assert(set@.subset_of(s));
                        assert(meets(blocks, succ, v, s, b as int, y as int));
                    }
                }
                set.insert(y);
                if !u.def_blocks.contains(y) {
                    work.push(y);
                }
                proof {
                    set.lemma_members_below_cap();
                    assert forall|c: int, z: int| #[trigger]
                        meets(blocks, succ, v, set@, c, z) && !set@.contains(z) && c
                            != b implies work@.contains(c as usize) by {
                        if c == y && !defs.contains(y as int) {
                            assert(work@[before_work.len() as int] == y);
                        } else {
                            assert(def_set(blocks, v).contains(c) <==> defs.contains(c));
                            assert(meets(blocks, succ, v, before_set, c, z));
                            let e = choose|e: int|
                                0 <= e < before_work.len() && before_work[e] == c as usize;
                            assert(work@[e] == c as usize);
                        }
                    }
                    assert forall|e: int| 0 <= e < work.len() implies defs.contains(
                        #[trigger] work@[e] as int,
                    ) || set@.contains(work@[e] as int) by {
                        if e < before_work.len() {
                            assert(work@[e] == before_work[e]);
                        }
                    }
                }
            }
            k = k + 1;
        }
        proof {
            assert forall|c: int, y: int| #[trigger]
                meets(blocks, succ, v, set@, c, y) && !set@.contains(y) implies work@.contains(
                c as usize,
            ) by {
                if c == b {
                    assert(df@.contains(y));
                    let e = choose|e: int| 0 <= e < front@.len() && front@[e] == y;
                    assert(front@[e] == y);
                }
            }
        }
    }
    proof {
        assert(covers(blocks, succ, v, set@)) by {
            assert forall|c: int, y: int| #[trigger]
                meets(blocks, succ, v, set@, c, y) implies set@.contains(y) by {
                if !set@.contains(y) {
                    assert(work@.contains(c as usize));
                }
            }
        }
        set.lemma_members_below_cap();
        assert forall|b: int| set@.contains(b) <==> phi_set(blocks, succ, v).contains(b) by {
            if set@.contains(b) {
                assert forall|s: Set<int>| #[trigger] covers(blocks, succ, v, s) implies s.contains(
                    b,
                ) by {
                    assert(set@.subset_of(s));
                }
            }
        }
        assert(set@ =~= phi_set(blocks, succ, v));
    }
    set
}

/// Places and numbers the phis of one variable.
fn place_variable(
    var: usize,
    set: &Bitset,
    placement: &mut PhiPlacement,
    next_vreg: &mut usize,
    Ghost(blocks): Ghost<Seq<BlockModel>>,
    Ghost(succ): Ghost<Seq<Seq<usize>>>,
    Ghost(vars): Ghost<Seq<usize>>,
    Ghost(i): Ghost<nat>,
    Ghost(first): Ghost<nat>,
)
    requires
        i < vars.len(),
        vars[i as int] == var,
        set.wf(),
        set.cap() == blocks.len(),
        set@ == phi_set(blocks, succ, var as nat),
        old(placement).model() == numbered(blocks, succ, vars, i, 0, first).0,
        old(placement).incomings() == no_incomings(old(placement).model()),
        *old(next_vreg) == numbered(blocks, succ, vars, i, 0, first).1,
        blocks.len() <= usize::MAX,
        numbered(blocks, succ, vars, (i + 1) as nat, 0, first).1 <= usize::MAX,
    ensures
        final(placement).model() == numbered(blocks, succ, vars, (i + 1) as nat, 0, first).0,
        final(placement).incomings() == no_incomings(final(placement).model()),
        *final(next_vreg) == numbered(blocks, succ, vars, (i + 1) as nat, 0, first).1,
{
    let n: usize = placement.nodes.len();
    proof {
        lemma_numbered_shape(blocks, succ, vars, i, 0, first);
        assert(placement.model().len() == n);
    }
    let mut b: usize = 0;
    while b < n
        invariant
            b <= n,
            n == blocks.len(),
            i < vars.len(),
            vars[i as int] == var,
            set.wf(),
            set@ == phi_set(blocks, succ, var as nat),
            placement.model() == numbered(blocks, succ, vars, i, b as nat, first).0,
            placement.incomings() == no_incomings(placement.model()),
            *next_vreg == numbered(blocks, succ, vars, i, b as nat, first).1,
            numbered(blocks, succ, vars, (i + 1) as nat, 0, first).1 <= usize::MAX,
        decreases n - b,
    {
        proof {
            lemma_numbered_shape(blocks, succ, vars, i, b as nat, first);
            lemma_numbered_grows(
                blocks,
                succ,
                vars,
                i,
                (b + 1) as nat,
                (i + 1) as nat,
                0,
                first,
            );
            assert(set@.contains(b as int) <==> needs_phi(
                blocks,
                succ,
                var as nat,
                b as int,
            ));
        }
        if set.contains(b) {
            let id: usize = *next_vreg;
            *next_vreg = id + 1;
            placement.insert_phi(b, var, Operand::from(Local::new(Dtype::I32, LocalId(id))));
        }
        b = b + 1;
    }
}

/// Places the phis of all promoted variables and numbers their results.
pub fn place_phis(
    vars: &Vec<usize>,
    usage: &Vec<VarUsage>,
    chosen: &Vec<usize>,
    graph: &Graph,
    dom_info: &DominatorInfo,
    next_vreg: &mut usize,
    Ghost(blocks): Ghost<Seq<BlockModel>>,
) -> (placement: PhiPlacement)
    requires
        usage.len() == vars.len(),
        forall|p: int|
            0 <= p < usage.len() ==> (#[trigger] usage@[p]).describes(blocks, vars@[p] as nat),
        forall|k: int| 0 <= k < chosen.len() ==> (#[trigger] chosen@[k]) < vars.len(),
        graph.wf(),
        graph.succ().len() == blocks.len(),
        dom_info.wf(),
        dom_info.succ() == graph.succ(),
        phis_of(
            blocks,
            graph.succ(),
            super::alloca_analysis::picked(vars@, chosen@),
            *old(next_vreg) as nat,
        ).1 <= usize::MAX,
    ensures
        placement.model() == phis_of(
            blocks,
            graph.succ(),
            super::alloca_analysis::picked(vars@, chosen@),
            *old(next_vreg) as nat,
        ).0,
        placement.incomings() == no_incomings(placement.model()),
        *final(next_vreg) == phis_of(
            blocks,
            graph.succ(),
            super::alloca_analysis::picked(vars@, chosen@),
            *old(next_vreg) as nat,
        ).1,
{
    let n: usize = graph.num_nodes();
    let ghost succ = graph.succ();
    let ghost ids = super::alloca_analysis::picked(vars@, chosen@);
    let ghost first = *next_vreg as nat;
    let mut placement = PhiPlacement::new(n);
    let mut k: usize = 0;
    while k < chosen.len()
        invariant
            k <= chosen.len(),
            n == blocks.len(),
            usage.len() == vars.len(),
            forall|p: int|
                0 <= p < usage.len() ==> (#[trigger] usage@[p]).describes(blocks, vars@[p] as nat),
            forall|e: int| 0 <= e < chosen.len() ==> (#[trigger] chosen@[e]) < vars.len(),
            graph.wf(),
            succ == graph.succ(),
            succ.len() == blocks.len(),
            dom_info.wf(),
            dom_info.succ() == succ,
            ids == super::alloca_analysis::picked(vars@, chosen@),
            placement.model() == numbered(blocks, succ, ids, k as nat, 0, first).0,
            placement.incomings() == no_incomings(placement.model()),
            *next_vreg == numbered(blocks, succ, ids, k as nat, 0, first).1,
            phis_of(blocks, succ, ids, first).1 <= usize::MAX,
        decreases chosen.len() - k,
    {
        let p: usize = chosen[k];
        let u = &usage[p];
        let ghost v = vars@[p as int] as nat;
        assert(u.describes(blocks, v));
        let set = phi_blocks(u, graph, dom_info, Ghost(blocks), Ghost(v));
        proof {
            lemma_numbered_grows(blocks, succ, ids, (k + 1) as nat, 0, ids.len(), 0, first);
        }
        place_variable(
            vars[p],
            &set,
            &mut placement,
            next_vreg,
            Ghost(blocks),
            Ghost(succ),
            Ghost(ids),
            Ghost(k as nat),
            Ghost(first),
        );
        k = k + 1;
    }
    placement
}

} // verus!
