//! Dominators of a control-flow graph whose entry is its first block.
//!
//! A block dominates another when every path from the entry to the other
//! passes it.

use crate::common::bitset::{lists, members, Bitset};
use crate::common::graph::{rows_in_range, Graph};
use vstd::prelude::*;

verus! {

/// `path` is a walk along edges.
pub open spec fn is_walk(succ: Seq<Seq<usize>>, path: Seq<int>) -> bool {
    &&& path.len() > 0
    &&& forall|i: int| 0 <= i < path.len() ==> 0 <= #[trigger] path[i] < succ.len()
    &&& forall|i: int|
        0 <= i < path.len() - 1 ==> has_edge(succ, #[trigger] path[i], path[i + 1])
}

/// There is an edge from `a` to `b`.
pub open spec fn has_edge(succ: Seq<Seq<usize>>, a: int, b: int) -> bool {
    exists|k: int| 0 <= k < succ[a].len() && #[trigger] succ[a][k] == b
}

/// `path` is a walk from the entry to `b`.
pub open spec fn walks_to(succ: Seq<Seq<usize>>, path: Seq<int>, b: int) -> bool {
    is_walk(succ, path) && path[0] == 0 && path.last() == b
}

/// Some path leads from the entry to `b`.
pub open spec fn reachable(succ: Seq<Seq<usize>>, b: int) -> bool {
    exists|path: Seq<int>| walks_to(succ, path, b)
}

/// Every path from the entry to `b` passes `d`.
pub open spec fn dominates_node(succ: Seq<Seq<usize>>, d: int, b: int) -> bool {
    forall|path: Seq<int>| #[trigger] walks_to(succ, path, b) ==> path.contains(d)
}

/// `d` dominates `b` and is not `b`.
pub open spec fn strictly_dominates(succ: Seq<Seq<usize>>, d: int, b: int) -> bool {
    d != b && dominates_node(succ, d, b)
}

/// `d` is the strict dominator of `b` that all others dominate.
pub open spec fn is_idom(succ: Seq<Seq<usize>>, d: int, b: int) -> bool {
    &&& strictly_dominates(succ, d, b)
    &&& forall|e: int| #[trigger] strictly_dominates(succ, e, b) ==> dominates_node(succ, e, d)
}

/// The dominators of `b`.
pub open spec fn dominators(succ: Seq<Seq<usize>>, b: int) -> Set<int> {
    Set::new(|d: int| 0 <= d < succ.len() && dominates_node(succ, d, b))
}

/// The start of a walk is a walk.
pub proof fn lemma_prefix_walk(succ: Seq<Seq<usize>>, path: Seq<int>, b: int, i: int)
    requires
        walks_to(succ, path, b),
        0 <= i < path.len(),
    ensures
        walks_to(succ, path.take(i + 1), path[i]),
{
    let p = path.take(i + 1);
    assert forall|k: int| 0 <= k < p.len() - 1 implies has_edge(succ, #[trigger] p[k], p[k + 1]) by {
        assert(p[k] == path[k] && p[k + 1] == path[k + 1]);
    }
}

/// A walk can go on along an edge.
pub proof fn lemma_extend_walk(succ: Seq<Seq<usize>>, path: Seq<int>, a: int, b: int)
    requires
        walks_to(succ, path, a),
        has_edge(succ, a, b),
        0 <= b < succ.len(),
    ensures
        walks_to(succ, path.push(b), b),
{
    let p = path.push(b);
    assert forall|k: int| 0 <= k < p.len() - 1 implies has_edge(succ, #[trigger] p[k], p[k + 1]) by {
        if k < path.len() - 1 {
            assert(p[k] == path[k] && p[k + 1] == path[k + 1]);
        }
    }
}

/// The entry is reachable.
pub proof fn lemma_entry_reachable(succ: Seq<Seq<usize>>)
    requires
        succ.len() > 0,
    ensures
        reachable(succ, 0),
        walks_to(succ, seq![0int], 0),
{
    assert(walks_to(succ, seq![0int], 0));
}

/// Joins a walk to `b` with the rest of a walk that passes `b`.
proof fn lemma_splice_walk(
    succ: Seq<Seq<usize>>,
    first: Seq<int>,
    path: Seq<int>,
    b: int,
    i: int,
)
    requires
        walks_to(succ, path, b),
        0 <= i < path.len(),
        walks_to(succ, first, path[i]),
    ensures
        walks_to(succ, first + path.skip(i + 1), b),
{
    let p = first + path.skip(i + 1);
    let n = first.len() as int;
    assert forall|k: int| 0 <= k < p.len() - 1 implies has_edge(succ, #[trigger] p[k], p[k + 1]) by {
        if k < n - 1 {
            assert(p[k] == first[k] && p[k + 1] == first[k + 1]);
        } else if k == n - 1 {
            assert(p[k] == path[i] && p[k + 1] == path[i + 1]);
        } else {
            let j = k - n + i + 1;
            assert(p[k] == path[j] && p[k + 1] == path[j + 1]);
        }
    }
    assert forall|k: int| 0 <= k < p.len() implies 0 <= #[trigger] p[k] < succ.len() by {
        if k < n {
            assert(p[k] == first[k]);
        } else {
            assert(p[k] == path[k - n + i + 1]);
        }
    }
    if i + 1 < path.len() {
        assert(p.last() == path.last());
    } else {
        assert(p =~= first);
    }
}

/// Dominance is transitive.
pub proof fn lemma_dominance_transitive(succ: Seq<Seq<usize>>, a: int, b: int, c: int)
    requires
        dominates_node(succ, a, b),
        dominates_node(succ, b, c),
    ensures
        dominates_node(succ, a, c),
{
    assert forall|path: Seq<int>| #[trigger] walks_to(succ, path, c) implies path.contains(a) by {
        let i = choose|i: int| 0 <= i < path.len() && path[i] == b;
        lemma_prefix_walk(succ, path, c, i);
        let p = path.take(i + 1);
        assert(p.contains(a));
        let j = choose|j: int| 0 <= j < p.len() && p[j] == a;
        assert(path[j] == a);
    }
}

proof fn lemma_mutual_dominance(succ: Seq<Seq<usize>>, d: int, e: int, path: Seq<int>)
    requires
        dominates_node(succ, d, e),
        dominates_node(succ, e, d),
        walks_to(succ, path, d),
    ensures
        d == e,
    decreases path.len(),
{
    if d != e {
        assert(path.contains(e));
        let i = choose|i: int| 0 <= i < path.len() && path[i] == e;
        lemma_prefix_walk(succ, path, d, i);
        let p = path.take(i + 1);
        assert(p.contains(d));
        let j = choose|j: int| 0 <= j < p.len() && p[j] == d;
        lemma_prefix_walk(succ, path, d, j);
        assert(i < path.len() - 1);
        lemma_mutual_dominance(succ, d, e, path.take(j + 1));
    }
}

/// Of two different reachable blocks, one does not dominate the other.
pub proof fn lemma_dominance_antisymmetric(succ: Seq<Seq<usize>>, d: int, e: int)
    requires
        reachable(succ, d),
        dominates_node(succ, d, e),
        dominates_node(succ, e, d),
    ensures
        d == e,
{
    let path = choose|path: Seq<int>| walks_to(succ, path, d);
    lemma_mutual_dominance(succ, d, e, path);
}

/// The last position of `d` or `e` in a sequence.
proof fn lemma_last_of_two(path: Seq<int>, d: int, e: int) -> (i: int)
    requires
        path.contains(d),
    ensures
        0 <= i < path.len(),
        path[i] == d || path[i] == e,
        forall|j: int| i < j < path.len() ==> #[trigger] path[j] != d && path[j] != e,
    decreases path.len(),
{
    if path.last() == d || path.last() == e {
        path.len() - 1
    } else {
        let front = path.drop_last();
        let k = choose|k: int| 0 <= k < path.len() && path[k] == d;
        assert(front[k] == d);
        let i = lemma_last_of_two(front, d, e);
        assert forall|j: int| i < j < path.len() implies #[trigger] path[j] != d && path[j] != e by {
            if j < front.len() {
                assert(front[j] == path[j]);
            }
        }
        i
    }
}

/// Of two dominators of a reachable block, one dominates the other.
pub proof fn lemma_dominators_ordered(succ: Seq<Seq<usize>>, d: int, e: int, b: int)
    requires
        reachable(succ, b),
        dominates_node(succ, d, b),
        dominates_node(succ, e, b),
    ensures
        dominates_node(succ, d, e) || dominates_node(succ, e, d),
{
    if !dominates_node(succ, d, e) && !dominates_node(succ, e, d) {
        let p = choose|p: Seq<int>| #[trigger] walks_to(succ, p, e) && !p.contains(d);
        let q = choose|q: Seq<int>| #[trigger] walks_to(succ, q, d) && !q.contains(e);
        let r = choose|r: Seq<int>| walks_to(succ, r, b);
        assert(r.contains(d) && r.contains(e));
        let i = lemma_last_of_two(r, d, e);
        let tail = r.skip(i + 1);
        if r[i] == e && d != e {
            lemma_splice_walk(succ, p, r, b, i);
            let w = p + tail;
            assert(w.contains(d));
            let k = choose|k: int| 0 <= k < w.len() && w[k] == d;
            if k < p.len() {
                assert(p[k] == d);
            } else {
                assert(r[k - p.len() + i + 1] == d);
            }
        } else {
            lemma_splice_walk(succ, q, r, b, i);
            let w = q + tail;
            assert(w.contains(e));
            let k = choose|k: int| 0 <= k < w.len() && w[k] == e;
            if k < q.len() {
                assert(q[k] == e);
            } else {
                assert(r[k - q.len() + i + 1] == e);
            }
        }
    }
}

/// A reachable block other than the entry has at most one immediate
/// dominator.
pub proof fn lemma_idom_unique(succ: Seq<Seq<usize>>, d: int, e: int, b: int)
    requires
        reachable(succ, b),
        is_idom(succ, d, b),
        is_idom(succ, e, b),
    ensures
        d == e,
{
    let path = choose|path: Seq<int>| walks_to(succ, path, b);
    assert(path.contains(d));
    let i = choose|i: int| 0 <= i < path.len() && path[i] == d;
    lemma_prefix_walk(succ, path, b, i);
    lemma_dominance_antisymmetric(succ, d, e);
}

/// A dominator of a reachable block is reachable.
pub proof fn lemma_dominator_reachable(succ: Seq<Seq<usize>>, d: int, b: int)
    requires
        reachable(succ, b),
        dominates_node(succ, d, b),
    ensures
        reachable(succ, d),
        0 <= d < succ.len(),
{
    let path = choose|path: Seq<int>| walks_to(succ, path, b);
    assert(path.contains(d));
    let i = choose|i: int| 0 <= i < path.len() && path[i] == d;
    lemma_prefix_walk(succ, path, b, i);
}

proof fn lemma_self_dominates(succ: Seq<Seq<usize>>, b: int)
    ensures
        dominates_node(succ, b, b),
{
    assert forall|path: Seq<int>| #[trigger] walks_to(succ, path, b) implies path.contains(b) by {
        assert(path[path.len() - 1] == b);
    }
}

/// A strict dominator of a block dominates its reachable predecessors.
pub proof fn lemma_dominates_preds(succ: Seq<Seq<usize>>, d: int, p: int, b: int)
    requires
        strictly_dominates(succ, d, b),
        has_edge(succ, p, b),
        0 <= b < succ.len(),
    ensures
        dominates_node(succ, d, p),
{
    assert forall|path: Seq<int>| #[trigger] walks_to(succ, path, p) implies path.contains(d) by {
        lemma_extend_walk(succ, path, p, b);
        let w = path.push(b);
        assert(w.contains(d));
        let i = choose|i: int| 0 <= i < w.len() && w[i] == d;
        assert(path[i] == d);
    }
}

proof fn lemma_dominators_finite(succ: Seq<Seq<usize>>, b: int)
    ensures
        dominators(succ, b).finite(),
        dominators(succ, b).len() <= succ.len(),
{
    let r = vstd::set_lib::set_int_range(0, succ.len() as int);
    vstd::set_lib::lemma_int_range(0, succ.len() as int);
    assert(dominators(succ, b).subset_of(r));
    vstd::set_lib::lemma_len_subset(dominators(succ, b), r);
}

/// The dominators of a block are itself and the dominators of its immediate
/// dominator.
pub proof fn lemma_dominators_of_idom(succ: Seq<Seq<usize>>, d: int, b: int)
    requires
        reachable(succ, b),
        0 <= b < succ.len(),
        is_idom(succ, d, b),
    ensures
        dominators(succ, b) == dominators(succ, d).insert(b),
        !dominators(succ, d).contains(b),
        reachable(succ, d),
        0 <= d < succ.len(),
{
    lemma_dominator_reachable(succ, d, b);
    lemma_self_dominates(succ, b);
    assert forall|e: int| dominators(succ, b).contains(e) == dominators(succ, d).insert(
        b,
    ).contains(e) by {
        if dominators(succ, b).contains(e) && e != b {
            assert(strictly_dominates(succ, e, b));
        }
        if dominators(succ, d).contains(e) {
            lemma_dominance_transitive(succ, e, d, b);
        }
    }
    assert(dominators(succ, b) =~= dominators(succ, d).insert(b));
    if dominators(succ, d).contains(b) {
        lemma_dominance_antisymmetric(succ, d, b);
    }
}

/// The dominators of the blocks of a graph, as a tree.
pub struct DominatorInfo {
    idom: Vec<Option<usize>>,
    children: Vec<Vec<usize>>,
    frontiers: Vec<Bitset>,
    graph: Ghost<Seq<Seq<usize>>>,
}

/// The table holds the immediate dominators: of every reachable block but the
/// entry.
pub open spec fn is_idom_table(succ: Seq<Seq<usize>>, idom: Seq<Option<usize>>) -> bool {
    &&& idom.len() == succ.len()
    &&& forall|b: int|
        #![trigger idom[b]]
        0 <= b < succ.len() ==> match idom[b] {
            Some(d) => reachable(succ, b) && b != 0 && is_idom(succ, d as int, b),
            None => b == 0 || !reachable(succ, b),
        }
}

/// The blocks below `b` in ascending order that have `p` as immediate
/// dominator.
pub open spec fn children_below(idom: Seq<Option<usize>>, p: usize, b: nat) -> Seq<usize>
    decreases b,
{
    if b == 0 {
        Seq::empty()
    } else {
        let front = children_below(idom, p, (b - 1) as nat);
        if idom[b - 1] == Some(p) {
            front.push((b - 1) as usize)
        } else {
            front
        }
    }
}

/// `b` is `p`, or found by going up from `p`.
pub open spec fn above(succ: Seq<Seq<usize>>, b: int, p: int) -> bool {
    if reachable(succ, p) {
        dominates_node(succ, b, p)
    } else {
        b == p
    }
}

/// `w` is in the dominance frontier of `b`: `b` is above a predecessor of
/// `w`, and is not a strict dominator of `w`.
pub open spec fn in_frontier(succ: Seq<Seq<usize>>, b: int, w: int) -> bool {
    &&& exists|p: int|
        0 <= p < succ.len() && #[trigger] has_edge(succ, p, w) && above(succ, b, p)
    &&& !(reachable(succ, w) && strictly_dominates(succ, b, w))
}

impl DominatorInfo {
    /// The successors of each block.
    pub closed spec fn succ(&self) -> Seq<Seq<usize>> {
        self.graph@
    }

    /// The immediate dominators.
    pub closed spec fn idoms(&self) -> Seq<Option<usize>> {
        self.idom@
    }

    /// The tables belong to the graph.
    pub closed spec fn wf(&self) -> bool {
        &&& rows_in_range(self.succ(), self.succ().len())
        &&& is_idom_table(self.succ(), self.idoms())
        &&& self.children@.len() == self.succ().len()
        &&& forall|p: int|
            0 <= p < self.children@.len() ==> (#[trigger] self.children@[p])@ == children_below(
                self.idoms(),
                p as usize,
                self.succ().len(),
            )
        &&& self.frontiers@.len() == self.succ().len()
        &&& forall|b: int|
            0 <= b < self.frontiers@.len() ==> (#[trigger] self.frontiers@[b]).wf()
                && self.frontiers@[b].cap() == self.succ().len()
        &&& forall|b: int, w: int|
            0 <= b < self.frontiers@.len() ==> (#[trigger] self.frontiers@[b]@.contains(w) <==> 0
                <= w < self.succ().len() && in_frontier(self.succ(), b, w))
    }

    /// What well-formedness means for the immediate dominators.
    pub proof fn lemma_wf(&self)
        requires
            self.wf(),
        ensures
            rows_in_range(self.succ(), self.succ().len()),
            is_idom_table(self.succ(), self.idoms()),
    {
    }

    /// Computes the dominators of a graph.
    pub fn compute(graph: &Graph) -> (info: Self)
        requires
            graph.wf(),
        ensures
            info.wf(),
            info.succ() == graph.succ(),
    {
        let n: usize = graph.num_nodes();
        let ghost succ = graph.succ();
        proof {
            graph.lemma_wf();
        }
        let idom = Self::compute_idom(graph);
        let children = Self::build_dom_tree(&idom);
        let frontiers = Self::compute_dominance_frontiers(graph, &idom);
        DominatorInfo { idom, children, frontiers, graph: Ghost(succ) }
    }

    /// Whether `dominator` dominates `block`.  A block that no path reaches
    /// is dominated by itself alone.
    pub fn dominates(&self, dominator: usize, block: usize) -> (b: bool)
        requires
            self.wf(),
            block < self.succ().len(),
        ensures
            b == above(self.succ(), dominator as int, block as int),
    {
        let ghost succ = self.succ();
        let mut cur: usize = block;
        proof {
            lemma_dominators_finite(succ, cur as int);
        }
        loop
            invariant
                self.wf(),
                succ == self.succ(),
                cur < succ.len(),
                block < succ.len(),
                above(succ, dominator as int, cur as int) == above(
                    succ,
                    dominator as int,
                    block as int,
                ),
                dominators(succ, cur as int).finite(),
            decreases dominators(succ, cur as int).len(),
        {
            if cur == dominator {
                proof {
                    lemma_self_dominates(succ, cur as int);
                }
                return true;
            }
            match self.idom[cur] {
                Some(parent) => {
                    proof {
                        assert(self.idoms()[cur as int] == Some(parent));
                        lemma_dominators_of_idom(succ, parent as int, cur as int);
                        lemma_dominators_finite(succ, parent as int);
                        let d = dominator as int;
                        if dominates_node(succ, d, cur as int) {
                            lemma_dominator_reachable(succ, d, cur as int);
                            assert(dominators(succ, cur as int).contains(d));
                            assert(dominators(succ, parent as int).contains(d));
                        }
                        if dominates_node(succ, d, parent as int) {
                            lemma_dominance_transitive(succ, d, parent as int, cur as int);
                        }
                    }
                    cur = parent;
                },
                None => {
                    proof {
                        assert(self.idoms()[cur as int] is None);
                        if cur == 0 {
                            lemma_entry_reachable(succ);
                            assert(!seq![0int].contains(dominator as int));
                        }
                    }
                    return false;
                },
            }
        }
    }

    /// The blocks whose immediate dominator is `block`.
    pub fn dom_children(&self, block: usize) -> (c: &Vec<usize>)
        requires
            self.wf(),
            block < self.succ().len(),
        ensures
            c@ == children_below(self.idoms(), block, self.succ().len()),
    {
        &self.children[block]
    }

    /// The dominance frontier of `block`.
    pub fn dominance_frontier(&self, block: usize) -> (f: &Bitset)
        requires
            self.wf(),
            block < self.succ().len(),
        ensures
            f.wf(),
            f.cap() == self.succ().len(),
            forall|w: int| #[trigger]
                f@.contains(w) <==> 0 <= w < self.succ().len() && in_frontier(
                    self.succ(),
                    block as int,
                    w,
                ),
    {
        &self.frontiers[block]
    }

    /// The blocks without an immediate dominator, in ascending order.
    pub fn dom_tree_roots(&self) -> (roots: Vec<usize>)
        requires
            self.wf(),
        ensures
            roots@ == roots_below(self.idoms(), self.succ().len()),
    {
        let mut roots: Vec<usize> = Vec::new();
        let mut b: usize = 0;
        while b < self.idom.len()
            invariant
                b <= self.idom.len(),
                self.wf(),
                self.idom.len() == self.succ().len(),
                roots@ == roots_below(self.idoms(), b as nat),
            decreases self.idom.len() - b,
        {
            if self.idom[b].is_none() {
                roots.push(b);
            }
            b = b + 1;
        }
        roots
    }

    fn compute_reachable(graph: &Graph) -> (reach: Bitset)
        requires
            graph.wf(),
            graph.succ().len() > 0,
        ensures
            reach.wf(),
            reach.cap() == graph.succ().len(),
            forall|b: int| #[trigger]
                reach@.contains(b) <==> 0 <= b < graph.succ().len() && reachable(
                    graph.succ(),
                    b,
                ),
    {
        let n: usize = graph.num_nodes();
        let ghost succ = graph.succ();
        proof {
            graph.lemma_wf();
            lemma_entry_reachable(succ);
        }
        let mut reach = Bitset::new(n);
        let mut work: Vec<usize> = Vec::new();
        reach.insert(0);
        work.push(0);
        proof {
            reach.lemma_members_below_cap();
            assert(work@[0] == 0usize);
            assert(work@.contains(0usize));
        }
        while work.len() > 0
            invariant
                graph.wf(),
                succ == graph.succ(),
                n == succ.len(),
                rows_in_range(succ, succ.len()),
                reach.wf(),
                reach.cap() == n,
                reach@.contains(0),
                forall|b: int| #[trigger] reach@.contains(b) ==> reachable(succ, b),
                forall|k: int| 0 <= k < work.len() ==> reach@.contains(#[trigger] work@[k] as int),
                forall|a: int, b: int| #[trigger]
                    has_edge(succ, a, b) && reach@.contains(a) && !reach@.contains(b)
                        ==> work@.contains(a as usize),
            decreases n - reach@.len(), work.len(),
        {
            let ghost whole = work@;
            let v: usize = work.pop().unwrap();
            let ghost rest = work@;
            proof {
                assert forall|a: int, b: int| #[trigger]
                    has_edge(succ, a, b) && reach@.contains(a) && !reach@.contains(b) && a
                        != v implies work@.contains(a as usize) by {
                    reach.lemma_members_below_cap();
                    let e = choose|e: int| 0 <= e < whole.len() && whole[e] == a as usize;
                    assert(rest[e] == a as usize);
                }
                reach.lemma_members_below_cap();
                assert(reach@.contains(v as int));
            }
            let list = graph.successors(v);
            let ghost start_len = reach@.len();
            let mut k: usize = 0;
            while k < list.len()
                invariant
                    k <= list.len(),
                    graph.wf(),
                    succ == graph.succ(),
                    n == succ.len(),
                    v < n,
                    list@ == succ[v as int],
                    rows_in_range(succ, succ.len()),
                    reach.wf(),
                    reach.cap() == n,
                    reach@.contains(0),
                    reach@.contains(v as int),
                    forall|b: int| #[trigger] reach@.contains(b) ==> reachable(succ, b),
                    forall|e: int|
                        0 <= e < work.len() ==> reach@.contains(#[trigger] work@[e] as int),
                    forall|a: int, b: int| #[trigger]
                        has_edge(succ, a, b) && reach@.contains(a) && !reach@.contains(b) && a != v
                            ==> work@.contains(a as usize),
                    forall|e: int| 0 <= e < k ==> reach@.contains(#[trigger] list@[e] as int),
                    start_len <= reach@.len() <= n,
                    reach@.len() == start_len ==> work@ == rest,
                decreases list.len() - k,
            {
                let s: usize = list[k];
                proof {
                    assert(succ[v as int][k as int] < n);
                    reach.lemma_members_below_cap();
                }
                if !reach.contains(s) {
                    let ghost before_work = work@;
                    let ghost before_reach = reach@;
                    reach.insert(s);
                    work.push(s);
                    proof {
                        reach.lemma_members_below_cap();
                        assert(has_edge(succ, v as int, s as int)) by {
                            assert(succ[v as int][k as int] == s);
                        }
                        let path = choose|path: Seq<int>| walks_to(succ, path, v as int);
                        lemma_extend_walk(succ, path, v as int, s as int);
                        assert(reachable(succ, s as int));
                        assert forall|a: int, b: int| #[trigger]
                            has_edge(succ, a, b) && reach@.contains(a) && !reach@.contains(b) && a
                                != v implies work@.contains(a as usize) by {
                            if a == s {
                                assert(work@[before_work.len() as int] == s);
                            } else {
                                assert(before_work.contains(a as usize));
                                let e = choose|e: int|
                                    0 <= e < before_work.len() && before_work[e] == a as usize;
                                assert(work@[e] == a as usize);
                            }
                        }
                    }
                }
                k = k + 1;
            }
            proof {
                assert forall|a: int, b: int| #[trigger]
                    has_edge(succ, a, b) && reach@.contains(a) && !reach@.contains(
                        b,
                    ) implies work@.contains(a as usize) by {
                    if a == v {
                        let e = choose|e: int| 0 <= e < succ[a].len() && #[trigger] succ[a][e] == b;
                        assert(reach@.contains(list@[e] as int));
                    }
                }
            }
        }
        proof {
            assert forall|b: int| 0 <= b < n && reachable(succ, b) implies #[trigger] reach@.contains(
                b,
            ) by {
                let path = choose|path: Seq<int>| walks_to(succ, path, b);
                lemma_closed_reaches(succ, reach@, path, path.len() - 1);
            }
            reach.lemma_members_below_cap();
        }
        reach
    }

    /// The dominators of every reachable block: what is not a dominator is
    /// struck out until nothing changes.
    fn compute_dominators(graph: &Graph, reach: &Bitset) -> (doms: Vec<Bitset>)
        requires
            graph.wf(),
            graph.succ().len() > 0,
            reach.wf(),
            reach.cap() == graph.succ().len(),
            forall|b: int| #[trigger]
                reach@.contains(b) <==> 0 <= b < graph.succ().len() && reachable(
                    graph.succ(),
                    b,
                ),
        ensures
            doms.len() == graph.succ().len(),
            forall|b: int|
                0 <= b < doms.len() ==> (#[trigger] doms@[b]).wf() && doms@[b].cap()
                    == graph.succ().len(),
            forall|b: int|
                0 <= b < doms.len() && reachable(graph.succ(), b) ==> (#[trigger] doms@[b])@
                    == dominators(graph.succ(), b),
    {
        let n: usize = graph.num_nodes();
        let ghost succ = graph.succ();
        proof {
            graph.lemma_wf();
            lemma_entry_reachable(succ);
        }
        let mut doms: Vec<Bitset> = Vec::new();
        let mut i: usize = 0;
        while i < n
            invariant
                i <= n,
                n == succ.len(),
                n > 0,
                reach.wf(),
                reach.cap() == n,
                doms.len() == i,
                forall|b: int|
                    0 <= b < i ==> (#[trigger] doms@[b]).wf() && doms@[b].cap() == n,
                i > 0 ==> doms@[0]@ == set![0int],
                forall|b: int| 1 <= b < i ==> (#[trigger] doms@[b])@ == reach@,
            decreases n - i,
        {
            if i == 0 {
                let mut one = Bitset::new(n);
                one.insert(0);
                assert(one@ =~= set![0int]);
                doms.push(one);
            } else {
                doms.push(reach.clone());
            }
            i = i + 1;
        }
        proof {
            assert forall|b: int| 0 <= b < n && reachable(succ, b) implies dominators(
                succ,
                b,
            ).subset_of(#[trigger] doms@[b]@) by {
                assert forall|d: int| dominators(succ, b).contains(d) implies doms@[b]@.contains(
                    d,
                ) by {
                    lemma_dominator_reachable(succ, d, b);
                    if b == 0 {
                        assert(seq![0int].contains(d));
                    } else {
                        assert(reach@.contains(d));
                    }
                }
            }
        }
        let mut changed = true;
        while changed
            invariant
                graph.wf(),
                succ == graph.succ(),
                n == succ.len(),
                n > 0,
                reach.wf(),
                reach.cap() == n,
                forall|b: int| #[trigger]
                    reach@.contains(b) <==> 0 <= b < succ.len() && reachable(succ, b),
                doms.len() == n,
                forall|b: int|
                    0 <= b < n ==> (#[trigger] doms@[b]).wf() && doms@[b].cap() == n,
                doms@[0]@ == set![0int],
                forall|b: int|
                    0 <= b < n && reachable(succ, b) ==> dominators(succ, b).subset_of(
                        #[trigger] doms@[b]@,
                    ),
                !changed ==> stable(succ, sets_of(doms@)),
            decreases
                    total_len(sets_of(doms@)),
                    if changed {
                        1int
                    } else {
                        0
                    },
        {
            changed = Self::strike_out(graph, reach, &mut doms);
        }
        proof {
            assert forall|b: int| 0 <= b < n && reachable(succ, b) implies (#[trigger] doms@[b])@
                == dominators(succ, b) by {
                assert forall|d: int| doms@[b]@.contains(d) implies dominators(succ, b).contains(
                    d,
                ) by {
                    doms@[b].lemma_members_below_cap();
                    assert forall|path: Seq<int>| #[trigger] walks_to(
                        succ,
                        path,
                        b,
                    ) implies path.contains(d) by {
                        lemma_stable_sound(succ, sets_of(doms@), path, d, b);
                    }
                }
                assert(doms@[b]@ =~= dominators(succ, b));
            }
        }
        doms
    }

    /// Strikes out once what is not in the set of a predecessor.
    fn strike_out(graph: &Graph, reach: &Bitset, doms: &mut Vec<Bitset>) -> (changed: bool)
        requires
            graph.wf(),
            graph.succ().len() > 0,
            reach.wf(),
            reach.cap() == graph.succ().len(),
            forall|b: int| #[trigger]
                reach@.contains(b) <==> 0 <= b < graph.succ().len() && reachable(
                    graph.succ(),
                    b,
                ),
            old(doms).len() == graph.succ().len(),
            forall|b: int|
                0 <= b < graph.succ().len() ==> (#[trigger] old(doms)@[b]).wf() && old(doms)@[b].cap() == graph.succ().len(),
            old(doms)@[0]@ == set![0int],
            forall|b: int|
                0 <= b < graph.succ().len() && reachable(graph.succ(), b) ==> dominators(
                    graph.succ(),
                    b,
                ).subset_of(#[trigger] old(doms)@[b]@),
        ensures
            final(doms).len() == graph.succ().len(),
            forall|b: int|
                0 <= b < graph.succ().len() ==> (#[trigger] final(doms)@[b]).wf() && final(doms)@[b].cap() == graph.succ().len(),
            final(doms)@[0]@ == set![0int],
            forall|b: int|
                0 <= b < graph.succ().len() && reachable(graph.succ(), b) ==> dominators(
                    graph.succ(),
                    b,
                ).subset_of(#[trigger] final(doms)@[b]@),
            changed ==> total_len(sets_of(final(doms)@)) < total_len(sets_of(old(doms)@)),
            !changed ==> stable(graph.succ(), sets_of(final(doms)@)) && sets_of(final(doms)@)
                == sets_of(old(doms)@),
    {
        let n: usize = graph.num_nodes();
        let ghost succ = graph.succ();
        let ghost start = sets_of(doms@);
        proof {
            graph.lemma_wf();
        }
        let mut changed = false;
        let mut b: usize = 1;
        while b < n
            invariant
                1 <= b,
                b <= n || n == 0,
                graph.wf(),
                succ == graph.succ(),
                n == succ.len(),
                n > 0,
                rows_in_range(succ, succ.len()),
                reach.wf(),
                reach.cap() == n,
                forall|x: int| #[trigger]
                    reach@.contains(x) <==> 0 <= x < succ.len() && reachable(succ, x),
                doms.len() == n,
                forall|x: int| 0 <= x < n ==> (#[trigger] doms@[x]).wf() && doms@[x].cap() == n,
                doms@[0]@ == set![0int],
                forall|x: int|
                    0 <= x < n && reachable(succ, x) ==> dominators(succ, x).subset_of(
                        #[trigger] doms@[x]@,
                    ),
                start.len() == n,
                changed ==> total_len(sets_of(doms@)) < total_len(start),
                !changed ==> sets_of(doms@) == start && forall|x: int|
                    1 <= x < b && reachable(succ, x) ==> #[trigger] agrees(succ, start, x),
            decreases n - b,
        {
            if reach.contains(b) {
                let preds = graph.predecessors(b);
                let nodes = members(&doms[b]);
                let ghost before_doms = sets_of(doms@);
                let mut k: usize = 0;
                let mut struck = false;
                while k < nodes.len()
                    invariant
                        k <= nodes.len(),
                        1 <= b < n,
                        graph.wf(),
                        succ == graph.succ(),
                        n == succ.len(),
                        reach.wf(),
                        reach.cap() == n,
                        reachable(succ, b as int),
                        preds@ == graph.pred()[b as int],
                        forall|x: int| #[trigger]
                            reach@.contains(x) <==> 0 <= x < succ.len() && reachable(succ, x),
                        lists(nodes@, before_doms[b as int]),
                        before_doms.len() == n,
                        doms.len() == n,
                        forall|x: int|
                            0 <= x < n ==> (#[trigger] doms@[x]).wf() && doms@[x].cap() == n,
                        doms@[0]@ == set![0int],
                        forall|x: int|
                            0 <= x < n && reachable(succ, x) ==> dominators(succ, x).subset_of(
                                #[trigger] doms@[x]@,
                            ),
                        forall|x: int| 0 <= x < n && x != b ==> (#[trigger] doms@[x])@
                            == before_doms[x],
                        struck ==> total_len(sets_of(doms@)) < total_len(before_doms),
                        !struck ==> doms@[b as int]@ == before_doms[b as int] && forall|e: int|
                            0 <= e < k && nodes@[e] != b ==> #[trigger] shared(
                                succ,
                                before_doms,
                                b as int,
                                nodes@[e] as int,
                            ),
                        forall|e: int| k <= e < nodes.len() ==> doms@[b as int]@.contains(
                            #[trigger] nodes@[e] as int,
                        ),
                    decreases nodes.len() - k,
                {
                    let d: usize = nodes[k];
                    if d != b && !Self::in_all(graph, reach, doms, preds, d, b) {
                        proof {
                            lemma_total_len_remove(sets_of(doms@), b as int, d as int);
                            lemma_not_shared(succ, sets_of(doms@), b as int, d as int);
                            doms@[b as int].lemma_members_below_cap();
                            assert(doms@[b as int]@.contains(nodes@[k as int] as int));
                        }
                        let ghost mid = sets_of(doms@);
                        proof {
                            if !struck {
                                assert(mid =~= before_doms);
                            }
                        }
                        let mut set = doms[b].clone();
                        set.remove(d);
                        doms.set(b, set);
                        assert(sets_of(doms@) =~= mid.update(
                            b as int,
                            mid[b as int].remove(d as int),
                        ));
                        struck = true;
                    } else {
                        proof {
                            if !struck && d != b {
                                assert(sets_of(doms@) =~= before_doms);
                                assert(shared(succ, before_doms, b as int, d as int));
                            }
                        }
                    }
                    proof {
                        assert forall|e: int| k + 1 <= e < nodes.len() implies doms@[b as int]@.contains(
                            #[trigger] nodes@[e] as int,
                        ) by {
                            assert(nodes@[k as int] < nodes@[e]);
                        }
                    }
                    k = k + 1;
                }
                proof {
                    if !struck {
                        assert(sets_of(doms@) =~= before_doms);
                        if !changed {
                            assert(agrees(succ, start, b as int)) by {
                                assert forall|d: int| start[b as int].contains(d) && d
                                    != b implies #[trigger] shared(succ, start, b as int, d) by {
                                    let e = choose|e: int|
                                        0 <= e < nodes@.len() && nodes@[e] == d;
                                    assert(shared(
                                        succ,
                                        before_doms,
                                        b as int,
                                        nodes@[e] as int,
                                    ));
                                }
                            }
                        }
                    }
                }
                if struck {
                    changed = true;
                }
            }
            b = b + 1;
        }
        proof {
            if !changed {
                assert forall|x: int| 0 <= x < n && reachable(succ, x) implies #[trigger] agrees(
                    succ,
                    start,
                    x,
                ) by {
                    if x == 0 {
                        assert(start[0] == doms@[0]@);
                    }
                }
            }
        }
        changed
    }

    /// Whether `d` is in the sets of all reachable predecessors.
    fn in_all(
        graph: &Graph,
        reach: &Bitset,
        doms: &Vec<Bitset>,
        preds: &[usize],
        d: usize,
        b: usize,
    ) -> (all: bool)
        requires
            graph.wf(),
            b < graph.succ().len(),
            preds@ == graph.pred()[b as int],
            reach.wf(),
            reach.cap() == graph.succ().len(),
            forall|x: int| #[trigger]
                reach@.contains(x) <==> 0 <= x < graph.succ().len() && reachable(
                    graph.succ(),
                    x,
                ),
            doms.len() == graph.succ().len(),
            forall|x: int| 0 <= x < doms.len() ==> (#[trigger] doms@[x]).wf(),
        ensures
            all == shared(graph.succ(), sets_of(doms@), b as int, d as int),
    {
        let ghost succ = graph.succ();
        proof {
            graph.lemma_wf();
            graph.lemma_preds_in_range(b as int);
        }
        let mut k: usize = 0;
        while k < preds.len()
            invariant
                k <= preds.len(),
                graph.wf(),
                succ == graph.succ(),
                b < succ.len(),
                preds@ == graph.pred()[b as int],
                forall|e: int| 0 <= e < preds@.len() ==> (#[trigger] preds@[e]) < succ.len(),
                reach.wf(),
                forall|x: int| #[trigger]
                    reach@.contains(x) <==> 0 <= x < succ.len() && reachable(succ, x),
                doms.len() == succ.len(),
                forall|x: int| 0 <= x < doms.len() ==> (#[trigger] doms@[x]).wf(),
                forall|e: int|
                    0 <= e < k && reachable(succ, preds@[e] as int) ==> (
                    #[trigger] doms@[preds@[e] as int])@.contains(d as int),
            decreases preds.len() - k,
        {
            let p: usize = preds[k];
            if reach.contains(p) && !doms[p].contains(d) {
                proof {
                    graph.lemma_pred_inverts_succ(p, b);
                    assert(preds@.contains(p)) by {
                        assert(preds@[k as int] == p);
                    }
                    let e = choose|e: int| 0 <= e < succ[p as int].len() && succ[p as int][e] == b;
                    assert(has_edge(succ, p as int, b as int)) by {
                        assert(succ[p as int][e] == b as int);
                    }
                    assert(!shared(succ, sets_of(doms@), b as int, d as int));
                }
                return false;
            }
            k = k + 1;
        }
        proof {
            assert forall|p: int| #[trigger] has_edge(succ, p, b as int) && 0 <= p < succ.len()
                && reachable(succ, p) implies sets_of(doms@)[p].contains(d as int) by {
                let e = choose|e: int| 0 <= e < succ[p].len() && #[trigger] succ[p][e] == b as int;
                assert(succ[p].contains(b));
                graph.lemma_pred_inverts_succ(p as usize, b);
                let k2 = choose|k2: int| 0 <= k2 < preds@.len() && preds@[k2] == p as usize;
                assert(doms@[preds@[k2] as int]@.contains(d as int));
            }
        }
        true
    }

    /// The immediate dominator of every block that has one.
    fn compute_idom(graph: &Graph) -> (idom: Vec<Option<usize>>)
        requires
            graph.wf(),
        ensures
            is_idom_table(graph.succ(), idom@),
    {
        let n: usize = graph.num_nodes();
        let ghost succ = graph.succ();
        let mut idom: Vec<Option<usize>> = Vec::new();
        if n == 0 {
            return idom;
        }
        let reach = Self::compute_reachable(graph);
        let doms = Self::compute_dominators(graph, &reach);
        let mut b: usize = 0;
        while b < n
            invariant
                b <= n,
                n == succ.len(),
                succ == graph.succ(),
                graph.wf(),
                reach.wf(),
                reach.cap() == n,
                forall|x: int| #[trigger]
                    reach@.contains(x) <==> 0 <= x < succ.len() && reachable(succ, x),
                doms.len() == n,
                forall|x: int| 0 <= x < n ==> (#[trigger] doms@[x]).wf() && doms@[x].cap() == n,
                forall|x: int|
                    0 <= x < n && reachable(succ, x) ==> (#[trigger] doms@[x])@ == dominators(
                        succ,
                        x,
                    ),
                idom.len() == b,
                forall|x: int|
                    #![trigger idom@[x]]
                    0 <= x < b ==> match idom@[x] {
                        Some(d) => reachable(succ, x) && x != 0 && is_idom(succ, d as int, x),
                        None => x == 0 || !reachable(succ, x),
                    },
            decreases n - b,
        {
            if b != 0 && reach.contains(b) {
                idom.push(Some(Self::closest(graph, &doms, b)));
            } else {
                idom.push(None);
            }
            b = b + 1;
        }
        idom
    }

    /// The strict dominator of `b` that has the most dominators itself.
    fn closest(graph: &Graph, doms: &Vec<Bitset>, b: usize) -> (d: usize)
        requires
            graph.wf(),
            0 < b < graph.succ().len(),
            reachable(graph.succ(), b as int),
            doms.len() == graph.succ().len(),
            forall|x: int|
                0 <= x < doms.len() ==> (#[trigger] doms@[x]).wf() && doms@[x].cap()
                    == graph.succ().len(),
            forall|x: int|
                0 <= x < doms.len() && reachable(graph.succ(), x) ==> (#[trigger] doms@[x])@
                    == dominators(graph.succ(), x),
        ensures
            is_idom(graph.succ(), d as int, b as int),
    {
        let ghost succ = graph.succ();
        let nodes = members(&doms[b]);
        let mut best: usize = 0;
        let mut best_len: usize = doms[0].len();
        proof {
            lemma_entry_reachable(succ);
            assert(dominates_node(succ, 0, b as int)) by {
                assert forall|path: Seq<int>| #[trigger] walks_to(
                    succ,
                    path,
                    b as int,
                ) implies path.contains(0int) by {
                    assert(path[0] == 0);
                }
            }
        }
        let mut k: usize = 0;
        while k < nodes.len()
            invariant
                k <= nodes.len(),
                succ == graph.succ(),
                0 < b < succ.len(),
                reachable(succ, b as int),
                doms.len() == succ.len(),
                forall|x: int| 0 <= x < doms.len() ==> (#[trigger] doms@[x]).wf()
                    && doms@[x].cap() == succ.len(),
                lists(nodes@, doms@[b as int]@),
                doms@[b as int]@ == dominators(succ, b as int),
                best < succ.len(),
                strictly_dominates(succ, best as int, b as int),
                best_len == doms@[best as int]@.len(),
                forall|e: int|
                    0 <= e < k && nodes@[e] != b ==> doms@[#[trigger] nodes@[e] as int]@.len()
                        <= best_len,
            decreases nodes.len() - k,
        {
            let d: usize = nodes[k];
            assert(doms@[b as int]@.contains(nodes@[k as int] as int));
            if d != b {
                let len: usize = doms[d].len();
                if len > best_len {
                    best = d;
                    best_len = len;
                }
            }
            k = k + 1;
        }
        proof {
            lemma_dominator_reachable(succ, best as int, b as int);
            assert(doms@[best as int]@ == dominators(succ, best as int));
            assert forall|e: int| #[trigger] strictly_dominates(
                succ,
                e,
                b as int,
            ) implies dominates_node(succ, e, best as int) by {
                lemma_dominator_reachable(succ, e, b as int);
                assert(doms@[b as int]@.contains(e));
                let k = choose|k: int| 0 <= k < nodes@.len() && nodes@[k] == e;
                assert(doms@[nodes@[k] as int]@.len() <= best_len);
                assert(doms@[e]@ == dominators(succ, e));
                lemma_dominators_ordered(succ, e, best as int, b as int);
                if !dominates_node(succ, e, best as int) {
                    let big = dominators(succ, e);
                    let small = dominators(succ, best as int);
                    lemma_dominators_finite(succ, e);
                    lemma_dominators_finite(succ, best as int);
                    lemma_self_dominates(succ, e);
                    assert(small.subset_of(big)) by {
                        assert forall|x: int| small.contains(x) implies big.contains(x) by {
                            lemma_dominance_transitive(succ, x, best as int, e);
                        }
                    }
                    assert(big.contains(e) && !small.contains(e));
                    vstd::set_lib::lemma_len_subset(small, big.remove(e));
                }
            }
        }
        best
    }

    fn build_dom_tree(idom: &Vec<Option<usize>>) -> (children: Vec<Vec<usize>>)
        requires
            forall|b: int|
                0 <= b < idom@.len() ==> (#[trigger] idom@[b] matches Some(p) ==> p < idom@.len()),
        ensures
            children.len() == idom.len(),
            forall|p: int|
                0 <= p < children.len() ==> (#[trigger] children@[p])@ == children_below(
                    idom@,
                    p as usize,
                    idom@.len(),
                ),
    {
        let mut children: Vec<Vec<usize>> = Vec::new();
        let mut p: usize = 0;
        while p < idom.len()
            invariant
                p <= idom.len(),
                children.len() == p,
                forall|q: int|
                    0 <= q < p ==> (#[trigger] children@[q])@ == children_below(
                        idom@,
                        q as usize,
                        idom@.len(),
                    ),
            decreases idom.len() - p,
        {
            let mut list: Vec<usize> = Vec::new();
            let mut b: usize = 0;
            while b < idom.len()
                invariant
                    b <= idom.len(),
                    list@ == children_below(idom@, p, b as nat),
                decreases idom.len() - b,
            {
                if let Some(q) = idom[b] {
                    if q == p {
                        list.push(b);
                    }
                }
                b = b + 1;
            }
            children.push(list);
            p = p + 1;
        }
        children
    }

    fn compute_dominance_frontiers(graph: &Graph, idom: &Vec<Option<usize>>) -> (df: Vec<Bitset>)
        requires
            graph.wf(),
            is_idom_table(graph.succ(), idom@),
        ensures
            df.len() == graph.succ().len(),
            forall|b: int|
                0 <= b < df.len() ==> (#[trigger] df@[b]).wf() && df@[b].cap()
                    == graph.succ().len(),
            forall|b: int, w: int|
                0 <= b < df.len() ==> (#[trigger] df@[b]@.contains(w) <==> 0 <= w
                    < graph.succ().len() && in_frontier(graph.succ(), b, w)),
    {
        let n: usize = graph.num_nodes();
        let ghost succ = graph.succ();
        proof {
            graph.lemma_wf();
        }
        let mut df: Vec<Bitset> = Vec::new();
        let mut a: usize = 0;
        while a < n
            invariant
                a <= n,
                df.len() == a,
                forall|b: int| 0 <= b < a ==> (#[trigger] df@[b]).wf() && df@[b].cap() == n,
                forall|b: int| 0 <= b < a ==> (#[trigger] df@[b])@ == Set::<int>::empty(),
            decreases n - a,
        {
            df.push(Bitset::new(n));
            a = a + 1;
        }
        let mut p: usize = 0;
        while p < n
            invariant
                p <= n,
                n == succ.len(),
                succ == graph.succ(),
                graph.wf(),
                rows_in_range(succ, succ.len()),
                is_idom_table(succ, idom@),
                df.len() == n,
                forall|b: int| 0 <= b < n ==> (#[trigger] df@[b]).wf() && df@[b].cap() == n,
                forall|b: int, w: int|
                    0 <= b < n ==> (#[trigger] df@[b]@.contains(w) <==> noted(
                        succ,
                        p as int,
                        0,
                        b,
                        w,
                    )),
            decreases n - p,
        {
            let list = graph.successors(p);
            let mut k: usize = 0;
            while k < list.len()
                invariant
                    k <= list.len(),
                    p < n,
                    n == succ.len(),
                    succ == graph.succ(),
                    graph.wf(),
                    list@ == succ[p as int],
                    rows_in_range(succ, succ.len()),
                    is_idom_table(succ, idom@),
                    df.len() == n,
                    forall|b: int| 0 <= b < n ==> (#[trigger] df@[b]).wf() && df@[b].cap() == n,
                    forall|b: int, w: int|
                        0 <= b < n ==> (#[trigger] df@[b]@.contains(w) <==> noted(
                            succ,
                            p as int,
                            k as int,
                            b,
                            w,
                        )),
                decreases list.len() - k,
            {
                let w: usize = list[k];
                let ghost before_df = sets_of(df@);
                proof {
                    assert(succ[p as int][k as int] < n);
                    assert(has_edge(succ, p as int, w as int)) by {
                        assert(succ[p as int][k as int] == w);
                    }
                }
                Self::note_edge(idom, &mut df, p, w, Ghost(succ));
                proof {
                    assert forall|b: int, x: int| 0 <= b < n implies (#[trigger] df@[b]@.contains(x)
                        <==> noted(succ, p as int, k + 1, b, x)) by {
                        assert(before_df[b].contains(x) <==> noted(
                            succ,
                            p as int,
                            k as int,
                            b,
                            x,
                        ));
                        lemma_noted_step(succ, p as int, k as int, b, x);
                    }
                }
                k = k + 1;
            }
            proof {
                assert forall|b: int, x: int| 0 <= b < n implies (#[trigger] df@[b]@.contains(x)
                    <==> noted(succ, p + 1, 0, b, x)) by {
                    lemma_noted_row(succ, p as int, b, x);
                }
            }
            p = p + 1;
        }
        proof {
            assert forall|b: int, w: int| 0 <= b < n implies (#[trigger] df@[b]@.contains(w) <==> 0
                <= w < n && in_frontier(succ, b, w)) by {
                lemma_noted_all(succ, b, w);
            }
        }
        df
    }

    /// Notes `w` in the frontier of every block on the way up from `p` that
    /// does not strictly dominate `w`.
    fn note_edge(
        idom: &Vec<Option<usize>>,
        df: &mut Vec<Bitset>,
        p: usize,
        w: usize,
        Ghost(succ): Ghost<Seq<Seq<usize>>>,
    )
        requires
            is_idom_table(succ, idom@),
            p < succ.len(),
            w < succ.len(),
            has_edge(succ, p as int, w as int),
            old(df)@.len() == succ.len(),
            forall|b: int|
                0 <= b < succ.len() ==> (#[trigger] old(df)@[b]).wf() && old(df)@[b].cap()
                    == succ.len(),
        ensures
            final(df)@.len() == succ.len(),
            forall|b: int|
                0 <= b < succ.len() ==> (#[trigger] final(df)@[b]).wf() && final(df)@[b].cap()
                    == succ.len(),
            forall|b: int, x: int|
                0 <= b < succ.len() ==> (#[trigger] final(df)@[b]@.contains(x) <==> old(df)@[b]@.contains(x) || (x == w && above(succ, b, p as int) && !(reachable(
                    succ,
                    w as int,
                ) && strictly_dominates(succ, b, w as int)))),
    {
        let n: usize = df.len();
        let ghost start = sets_of(df@);
        let mut runner: usize = p;
        proof {
            lemma_dominators_finite(succ, p as int);
        }
        loop
            invariant_except_break
                is_idom_table(succ, idom@),
                n == succ.len(),
                idom.len() == n,
                p < n,
                w < n,
                runner < n,
                has_edge(succ, p as int, w as int),
                above(succ, runner as int, p as int),
                df@.len() == n,
                start.len() == n,
                forall|b: int| 0 <= b < n ==> (#[trigger] df@[b]).wf() && df@[b].cap() == n,
                forall|b: int, x: int|
                    0 <= b < n ==> (#[trigger] df@[b]@.contains(x) <==> start[b].contains(x) || (x
                        == w && above(succ, b, p as int) && !above(succ, b, runner as int))),
                forall|b: int|
                    0 <= b < n && #[trigger] above(succ, b, p as int) && !above(
                        succ,
                        b,
                        runner as int,
                    ) ==> !(reachable(succ, w as int) && strictly_dominates(succ, b, w as int)),
                dominators(succ, runner as int).finite(),
                start == sets_of(old(df)@),
            ensures
                n == succ.len(),
                start == sets_of(old(df)@),
                df@.len() == n,
                forall|b: int| 0 <= b < n ==> (#[trigger] df@[b]).wf() && df@[b].cap() == n,
                forall|b: int, x: int|
                    0 <= b < n ==> (#[trigger] df@[b]@.contains(x) <==> start[b].contains(x) || (x
                        == w && above(succ, b, p as int) && !(reachable(succ, w as int)
                        && strictly_dominates(succ, b, w as int)))),
            decreases dominators(succ, runner as int).len(),
        {
            let stop = match idom[w] {
                Some(d) => d == runner,
                None => false,
            };
            if stop {
                proof {
                    assert(idom@[w as int] == Some(runner));
                    assert forall|b: int, x: int| 0 <= b < n implies (#[trigger] df@[b]@.contains(x)
                        <==> start[b].contains(x) || (x == w && above(succ, b, p as int) && !(
                    reachable(succ, w as int) && strictly_dominates(succ, b, w as int)))) by {
                        lemma_above_idom(succ, idom@, runner as int, w as int, b);
                    }
                }
                break ;
            }
            proof {
                lemma_not_strict_here(succ, idom@, p as int, runner as int, w as int);
            }
            let ghost mid = sets_of(df@);
            let mut set = df[runner].clone();
            set.insert(w);
            df.set(runner, set);
            match idom[runner] {
                None => {
                    proof {
                        assert(idom@[runner as int] is None);
                        assert forall|b: int, x: int| 0 <= b < n implies (#[trigger] df@[b]@.contains(
                            x,
                        ) <==> start[b].contains(x) || (x == w && above(succ, b, p as int) && !(
                        reachable(succ, w as int) && strictly_dominates(succ, b, w as int)))) by {
                            lemma_above_root(succ, idom@, runner as int, b);
                            assert(mid[b].contains(x) <==> start[b].contains(x) || (x == w
                                && above(succ, b, p as int) && !above(succ, b, runner as int)));
                        }
                    }
                    break ;
                },
                Some(q) => {
                    proof {
                        assert(idom@[runner as int] == Some(q));
                        lemma_dominators_of_idom(succ, q as int, runner as int);
                        lemma_dominators_finite(succ, q as int);
                        lemma_above_step(succ, idom@, p as int, runner as int, q as int);
                        assert forall|b: int, x: int| 0 <= b < n implies (#[trigger] df@[b]@.contains(
                            x,
                        ) <==> start[b].contains(x) || (x == w && above(succ, b, p as int)
                            && !above(succ, b, q as int))) by {
                            assert(mid[b].contains(x) <==> start[b].contains(x) || (x == w
                                && above(succ, b, p as int) && !above(succ, b, runner as int)));
                            lemma_above_up(succ, idom@, runner as int, q as int, b);
                        }
                        assert forall|b: int|
                            0 <= b < n && #[trigger] above(succ, b, p as int) && !above(
                                succ,
                                b,
                                q as int,
                            ) implies !(reachable(succ, w as int) && strictly_dominates(
                            succ,
                            b,
                            w as int,
                        )) by {
                            lemma_above_up(succ, idom@, runner as int, q as int, b);
                        }
                    }
                    runner = q;
                },
            }
        }
    }
}

/// The blocks below `b` without an immediate dominator.
pub open spec fn roots_below(idom: Seq<Option<usize>>, b: nat) -> Seq<usize>
    decreases b,
{
    if b == 0 {
        Seq::empty()
    } else {
        let front = roots_below(idom, (b - 1) as nat);
        if idom[b - 1] is None {
            front.push((b - 1) as usize)
        } else {
            front
        }
    }
}

/// The sets of a list.
spec fn sets_of(doms: Seq<Bitset>) -> Seq<Set<int>> {
    Seq::new(doms.len(), |i: int| doms[i]@)
}

/// `d` is in the sets of all reachable predecessors of `b`.
spec fn shared(succ: Seq<Seq<usize>>, doms: Seq<Set<int>>, b: int, d: int) -> bool {
    forall|p: int| #[trigger]
        has_edge(succ, p, b) && 0 <= p < succ.len() && reachable(succ, p) ==> doms[p].contains(d)
}

/// The set of `b` holds nothing but `b` that a predecessor's does not.
spec fn agrees(succ: Seq<Seq<usize>>, doms: Seq<Set<int>>, b: int) -> bool {
    if b == 0 {
        doms[0] == set![0int]
    } else {
        forall|d: int| doms[b].contains(d) && d != b ==> #[trigger] shared(succ, doms, b, d)
    }
}

/// No set holds what a predecessor's does not.
spec fn stable(succ: Seq<Seq<usize>>, doms: Seq<Set<int>>) -> bool {
    forall|b: int|
        0 <= b < succ.len() && reachable(succ, b) ==> #[trigger] agrees(succ, doms, b)
}

proof fn lemma_stable_sound(
    succ: Seq<Seq<usize>>,
    doms: Seq<Set<int>>,
    path: Seq<int>,
    d: int,
    b: int,
)
    requires
        stable(succ, doms),
        walks_to(succ, path, b),
        doms[b].contains(d),
    ensures
        path.contains(d),
    decreases path.len(),
{
    assert(reachable(succ, b));
    assert(agrees(succ, doms, b));
    assert(path[path.len() - 1] == b);
    if d != b {
        if b == 0 {
            assert(set![0int].contains(d));
        }
        assert(path.len() > 1) by {
            if path.len() == 1 {
                assert(path[0] == 0);
            }
        }
        let i = path.len() - 2;
        let p = path[i];
        lemma_prefix_walk(succ, path, b, i);
        assert(has_edge(succ, path[i], path[i + 1]));
        assert(shared(succ, doms, b, d));
        assert(reachable(succ, p));
        assert(doms[p].contains(d));
        lemma_stable_sound(succ, doms, path.take(i + 1), d, p);
        let front = path.take(i + 1);
        let j = choose|j: int| 0 <= j < front.len() && front[j] == d;
        assert(path[j] == d);
    }
}

proof fn lemma_not_shared(succ: Seq<Seq<usize>>, doms: Seq<Set<int>>, b: int, d: int)
    requires
        doms.len() == succ.len(),
        0 <= b < succ.len(),
        d != b,
        !shared(succ, doms, b, d),
        forall|x: int|
            0 <= x < succ.len() && reachable(succ, x) ==> dominators(succ, x).subset_of(
                #[trigger] doms[x],
            ),
    ensures
        !dominates_node(succ, d, b),
        !dominators(succ, b).contains(d),
{
    let p = choose|p: int| #[trigger]
        has_edge(succ, p, b) && 0 <= p < succ.len() && reachable(succ, p) && !doms[p].contains(d);
    assert(dominators(succ, p).subset_of(doms[p]));
    if dominates_node(succ, d, b) {
        lemma_dominates_preds(succ, d, p, b);
        lemma_dominator_reachable(succ, d, p);
        assert(dominators(succ, p).contains(d));
    }
}

spec fn total_len(sets: Seq<Set<int>>) -> nat
    decreases sets.len(),
{
    if sets.len() == 0 {
        0
    } else {
        total_len(sets.drop_last()) + sets.last().len()
    }
}

proof fn lemma_total_len_update(sets: Seq<Set<int>>, i: int, s: Set<int>)
    requires
        0 <= i < sets.len(),
    ensures
        total_len(sets.update(i, s)) == total_len(sets) - sets[i].len() + s.len(),
    decreases sets.len(),
{
    let u = sets.update(i, s);
    if i == sets.len() - 1 {
        assert(u.drop_last() =~= sets.drop_last());
    } else {
        assert(u.drop_last() =~= sets.drop_last().update(i, s));
        lemma_total_len_update(sets.drop_last(), i, s);
    }
}

proof fn lemma_total_len_remove(sets: Seq<Set<int>>, i: int, d: int)
    requires
        0 <= i < sets.len(),
    ensures
        sets[i].finite() && sets[i].contains(d) ==> total_len(
            sets.update(i, sets[i].remove(d)),
        ) < total_len(sets),
{
    lemma_total_len_update(sets, i, sets[i].remove(d));
}

proof fn lemma_closed_reaches(succ: Seq<Seq<usize>>, reach: Set<int>, path: Seq<int>, i: int)
    requires
        is_walk(succ, path),
        path[0] == 0,
        reach.contains(0),
        0 <= i < path.len(),
        forall|a: int, b: int| #[trigger]
            has_edge(succ, a, b) && reach.contains(a) ==> reach.contains(b),
    ensures
        reach.contains(path[i]),
    decreases i,
{
    if i > 0 {
        lemma_closed_reaches(succ, reach, path, i - 1);
        assert(has_edge(succ, path[i - 1], path[i - 1 + 1]));
    }
}

/// An edge before position `(p, k)` puts `w` in the frontier of `b`.
spec fn noted(succ: Seq<Seq<usize>>, p: int, k: int, b: int, w: int) -> bool {
    &&& exists|q: int, e: int| #[trigger]
        edge_before(succ, p, k, q, e) && succ[q][e] == w && above(succ, b, q)
    &&& !(reachable(succ, w) && strictly_dominates(succ, b, w))
}

spec fn edge_before(succ: Seq<Seq<usize>>, p: int, k: int, q: int, e: int) -> bool {
    &&& 0 <= q < succ.len()
    &&& 0 <= e < succ[q].len()
    &&& q < p || (q == p && e < k)
}

proof fn lemma_noted_step(succ: Seq<Seq<usize>>, p: int, k: int, b: int, x: int)
    requires
        0 <= p < succ.len(),
        0 <= k < succ[p].len(),
    ensures
        noted(succ, p, k + 1, b, x) <==> noted(succ, p, k, b, x) || (x == succ[p][k] && above(
            succ,
            b,
            p,
        ) && !(reachable(succ, x) && strictly_dominates(succ, b, x))),
{
    if noted(succ, p, k + 1, b, x) {
        let (q, e) = choose|q: int, e: int| #[trigger]
            edge_before(succ, p, k + 1, q, e) && succ[q][e] == x && above(succ, b, q);
        if q != p || e != k {
            assert(edge_before(succ, p, k, q, e));
        }
    }
    if noted(succ, p, k, b, x) {
        let (q, e) = choose|q: int, e: int| #[trigger]
            edge_before(succ, p, k, q, e) && succ[q][e] == x && above(succ, b, q);
        assert(edge_before(succ, p, k + 1, q, e));
    }
    if x == succ[p][k] && above(succ, b, p) {
        assert(edge_before(succ, p, k + 1, p, k));
    }
}

proof fn lemma_noted_row(succ: Seq<Seq<usize>>, p: int, b: int, x: int)
    requires
        0 <= p < succ.len(),
    ensures
        noted(succ, p + 1, 0, b, x) <==> noted(succ, p, succ[p].len() as int, b, x),
{
    if noted(succ, p + 1, 0, b, x) {
        let (q, e) = choose|q: int, e: int| #[trigger]
            edge_before(succ, p + 1, 0, q, e) && succ[q][e] == x && above(succ, b, q);
        assert(edge_before(succ, p, succ[p].len() as int, q, e));
    }
    if noted(succ, p, succ[p].len() as int, b, x) {
        let (q, e) = choose|q: int, e: int| #[trigger]
            edge_before(succ, p, succ[p].len() as int, q, e) && succ[q][e] == x && above(
                succ,
                b,
                q,
            );
        assert(edge_before(succ, p + 1, 0, q, e));
    }
}

proof fn lemma_noted_all(succ: Seq<Seq<usize>>, b: int, w: int)
    requires
        rows_in_range(succ, succ.len()),
    ensures
        noted(succ, succ.len() as int, 0, b, w) <==> 0 <= w < succ.len() && in_frontier(
            succ,
            b,
            w,
        ),
{
    let n = succ.len() as int;
    if noted(succ, n, 0, b, w) {
        let (q, e) = choose|q: int, e: int| #[trigger]
            edge_before(succ, n, 0, q, e) && succ[q][e] == w && above(succ, b, q);
        assert(succ[q][e] < succ.len());
        assert(has_edge(succ, q, w));
    }
    if in_frontier(succ, b, w) {
        let p = choose|p: int|
            0 <= p < succ.len() && #[trigger] has_edge(succ, p, w) && above(succ, b, p);
        let e = choose|e: int| 0 <= e < succ[p].len() && #[trigger] succ[p][e] == w;
        assert(edge_before(succ, n, 0, p, e));
    }
}

proof fn lemma_above_up(
    succ: Seq<Seq<usize>>,
    idom: Seq<Option<usize>>,
    r: int,
    q: int,
    b: int,
)
    requires
        is_idom_table(succ, idom),
        0 <= r < succ.len(),
        idom[r] == Some(q as usize),
        0 <= q <= usize::MAX,
        0 <= b < succ.len(),
    ensures
        above(succ, b, r) <==> b == r || above(succ, b, q),
        !above(succ, r, q),
{
    assert(idom[r] is Some);
    lemma_dominators_of_idom(succ, q, r);
    assert(dominators(succ, r).contains(b) <==> dominators(succ, q).insert(r).contains(b));
    assert(!dominators(succ, q).contains(r));
}

proof fn lemma_above_step(
    succ: Seq<Seq<usize>>,
    idom: Seq<Option<usize>>,
    p: int,
    r: int,
    q: int,
)
    requires
        is_idom_table(succ, idom),
        0 <= r < succ.len(),
        0 <= p < succ.len(),
        idom[r] == Some(q as usize),
        0 <= q <= usize::MAX,
        above(succ, r, p),
    ensures
        above(succ, q, p),
        0 <= q < succ.len(),
{
    assert(idom[r] is Some);
    lemma_dominators_of_idom(succ, q, r);
    if reachable(succ, p) {
        lemma_dominance_transitive(succ, q, r, p);
    }
}

proof fn lemma_above_root(succ: Seq<Seq<usize>>, idom: Seq<Option<usize>>, r: int, b: int)
    requires
        is_idom_table(succ, idom),
        0 <= r < succ.len(),
        idom[r] is None,
        0 <= b < succ.len(),
    ensures
        above(succ, b, r) <==> b == r,
{
    lemma_self_dominates(succ, r);
    if reachable(succ, r) {
        assert(r == 0);
        lemma_entry_reachable(succ);
        if dominates_node(succ, b, 0) {
            assert(seq![0int].contains(b));
        }
    }
}

proof fn lemma_above_idom(
    succ: Seq<Seq<usize>>,
    idom: Seq<Option<usize>>,
    r: int,
    w: int,
    b: int,
)
    requires
        is_idom_table(succ, idom),
        0 <= w < succ.len(),
        0 <= r <= usize::MAX,
        idom[w] == Some(r as usize),
        0 <= b < succ.len(),
    ensures
        above(succ, b, r) <==> reachable(succ, w) && strictly_dominates(succ, b, w),
{
    assert(idom[w] is Some);
    lemma_dominators_of_idom(succ, r, w);
    assert(dominators(succ, w).contains(b) <==> dominators(succ, r).insert(w).contains(b));
}

/// Above the immediate dominator of `w` on the way up from a predecessor,
/// nothing strictly dominates `w`.
proof fn lemma_not_strict_here(
    succ: Seq<Seq<usize>>,
    idom: Seq<Option<usize>>,
    p: int,
    r: int,
    w: int,
)
    requires
        is_idom_table(succ, idom),
        0 <= p < succ.len(),
        0 <= r < succ.len(),
        0 <= w < succ.len(),
        has_edge(succ, p, w),
        above(succ, r, p),
        !(idom[w] matches Some(d) && d == r),
        forall|b: int|
            0 <= b < succ.len() && #[trigger] above(succ, b, p) && !above(succ, b, r) ==> !(
            reachable(succ, w) && strictly_dominates(succ, b, w)),
    ensures
        !(reachable(succ, w) && strictly_dominates(succ, r, w)),
{
    if reachable(succ, w) && strictly_dominates(succ, r, w) {
        lemma_self_dominates(succ, r);
        match idom[w] {
            None => {
                assert(w == 0);
                lemma_entry_reachable(succ);
                assert(seq![0int].contains(r));
            },
            Some(d) => {
                let d = d as int;
                // `d` lies above `p`, below or at `r`.
                lemma_dominator_reachable(succ, d, w);
                lemma_dominates_preds(succ, d, p, w);
                assert(dominates_node(succ, r, d));
                if reachable(succ, p) {
                    assert(above(succ, d, p));
                    if above(succ, d, r) {
                        lemma_dominator_reachable(succ, r, w);
                        lemma_dominance_antisymmetric(succ, d, r);
                    }
                } else {
                    assert(r == p);
                    lemma_dominator_reachable(succ, r, w);
                }
            },
        }
    }
}

/// The immediate dominator of every block that has one.
pub open spec fn immediate_dominators(succ: Seq<Seq<usize>>) -> Seq<Option<usize>> {
    Seq::new(
        succ.len(),
        |b: int|
            if b != 0 && reachable(succ, b) {
                Some(choose|d: usize| is_idom(succ, d as int, b))
            } else {
                None
            },
    )
}

/// There is one table of immediate dominators.
pub proof fn lemma_idom_table_unique(succ: Seq<Seq<usize>>, idom: Seq<Option<usize>>)
    requires
        is_idom_table(succ, idom),
    ensures
        idom == immediate_dominators(succ),
{
    let t = immediate_dominators(succ);
    assert forall|b: int| 0 <= b < succ.len() implies idom[b] == t[b] by {
        match idom[b] {
            Some(d) => {
                assert(is_idom(succ, d as int, b));
                let e = choose|e: usize| is_idom(succ, e as int, b);
                lemma_idom_unique(succ, d as int, e as int, b);
            },
            None => {},
        }
    }
    assert(idom =~= t);
}

/// Going down from a strict dominator of `b` leads to the immediate one.
proof fn lemma_idom_below(succ: Seq<Seq<usize>>, d: int, b: int) -> (i: int)
    requires
        reachable(succ, b),
        0 <= b < succ.len(),
        strictly_dominates(succ, d, b),
    ensures
        0 <= i < succ.len(),
        is_idom(succ, i, b),
    decreases succ.len() - dominators(succ, d).len(),
{
    lemma_dominator_reachable(succ, d, b);
    lemma_dominators_finite(succ, d);
    if is_idom(succ, d, b) {
        d
    } else {
        let e = choose|e: int| #[trigger]
            strictly_dominates(succ, e, b) && !dominates_node(succ, e, d);
        lemma_dominator_reachable(succ, e, b);
        lemma_dominators_ordered(succ, e, d, b);
        let big = dominators(succ, e);
        let small = dominators(succ, d);
        lemma_dominators_finite(succ, e);
        lemma_self_dominates(succ, e);
        assert(small.subset_of(big.remove(e))) by {
            assert forall|x: int| small.contains(x) implies big.remove(e).contains(x) by {
                lemma_dominance_transitive(succ, x, d, e);
            }
        }
        assert(big.contains(e));
        vstd::set_lib::lemma_len_subset(small, big.remove(e));
        lemma_idom_below(succ, e, b)
    }
}

/// Every reachable block but the entry has an immediate dominator.
pub proof fn lemma_idom_table_exists(succ: Seq<Seq<usize>>)
    requires
        succ.len() <= usize::MAX,
    ensures
        is_idom_table(succ, immediate_dominators(succ)),
{
    let t = immediate_dominators(succ);
    assert forall|b: int| #![trigger t[b]] 0 <= b < succ.len() implies match t[b] {
        Some(d) => reachable(succ, b) && b != 0 && is_idom(succ, d as int, b),
        None => b == 0 || !reachable(succ, b),
    } by {
        if b != 0 && reachable(succ, b) {
            assert(dominates_node(succ, 0, b)) by {
                assert forall|path: Seq<int>| #[trigger] walks_to(
                    succ,
                    path,
                    b,
                ) implies path.contains(0int) by {
                    assert(path[0] == 0);
                }
            }
            let i = lemma_idom_below(succ, 0, b);
            assert(is_idom(succ, (i as usize) as int, b));
        }
    }
}

/// The blocks listed as children of `p` have `p` as immediate dominator.
pub proof fn lemma_children(idom: Seq<Option<usize>>, p: usize, b: nat)
    requires
        b <= idom.len(),
        b <= usize::MAX,
    ensures
        forall|k: int|
            0 <= k < children_below(idom, p, b).len() ==> (#[trigger] children_below(
                idom,
                p,
                b,
            )[k]) < b && idom[children_below(idom, p, b)[k] as int] == Some(p),
    decreases b,
{
    if b > 0 {
        lemma_children(idom, p, (b - 1) as nat);
    }
}

/// The roots lie in range.
pub proof fn lemma_roots(idom: Seq<Option<usize>>, b: nat)
    requires
        b <= idom.len(),
        b <= usize::MAX,
    ensures
        forall|k: int|
            0 <= k < roots_below(idom, b).len() ==> (#[trigger] roots_below(idom, b)[k]) < b
                && idom[roots_below(idom, b)[k] as int] is None,
    decreases b,
{
    if b > 0 {
        lemma_roots(idom, (b - 1) as nat);
    }
}

/// The number of dominators of a block.
pub open spec fn depth(succ: Seq<Seq<usize>>, b: int) -> nat {
    dominators(succ, b).len()
}

/// A child in the dominator tree has one dominator more than its parent, and
/// no block has more dominators than there are blocks.
pub proof fn lemma_depth(succ: Seq<Seq<usize>>, idom: Seq<Option<usize>>, b: int)
    requires
        is_idom_table(succ, idom),
        0 <= b < succ.len(),
    ensures
        1 <= depth(succ, b) <= succ.len(),
        idom[b] matches Some(d) ==> depth(succ, b) == depth(succ, d as int) + 1,
{
    lemma_dominators_finite(succ, b);
    lemma_self_dominates(succ, b);
    assert(dominators(succ, b).contains(b));
    vstd::set_lib::lemma_len_subset(set![b], dominators(succ, b));
    match idom[b] {
        Some(d) => {
            lemma_dominators_of_idom(succ, d as int, b);
            lemma_dominators_finite(succ, d as int);
        },
        None => {},
    }
}

} // verus!
