//! Directed graphs over node indices, and backward liveness on them.

use super::bitset::Bitset;
use super::names::NameMap;
use std::collections::VecDeque;
use vstd::prelude::*;

verus! {

/// A node of a control-flow graph, which knows its label and, given the
/// positions of all labels, its successors.
pub trait CfgNode {
    /// The label of the node, if it has one.
    spec fn label_of(&self) -> Option<Seq<char>>;

    /// Every label that the node branches to has a position.
    spec fn resolvable(&self, labels: Map<Seq<char>, usize>) -> bool;

    /// The indices of the nodes that may follow this one.
    spec fn successors_of(&self, idx: nat, num_nodes: nat, labels: Map<Seq<char>, usize>) -> Seq<
        usize,
    >;

    /// Successors are nodes of the graph.
    proof fn lemma_successors_in_range(
        &self,
        idx: nat,
        num_nodes: nat,
        labels: Map<Seq<char>, usize>,
    )
        requires
            idx < num_nodes,
            num_nodes <= usize::MAX,
            self.resolvable(labels),
            forall|k: Seq<char>| labels.contains_key(k) ==> (#[trigger] labels[k]) < num_nodes,
        ensures
            forall|j: int|
                0 <= j < self.successors_of(idx, num_nodes, labels).len() ==> (
                #[trigger] self.successors_of(idx, num_nodes, labels)[j]) < num_nodes,
    ;

    /// The label of the node.
    fn label(&self) -> (label: Option<String>)
        ensures
            match label {
                Some(s) => self.label_of() == Some(s@),
                None => self.label_of() is None,
            },
    ;

    /// The successors of the node at index `idx` of `num_nodes` nodes whose
    /// labels have the positions in `label_map`.
    fn successors(&self, idx: usize, num_nodes: usize, label_map: &NameMap<usize>) -> (succs: Vec<
        usize,
    >)
        requires
            label_map.wf(),
            idx < num_nodes,
            self.resolvable(label_map@),
        ensures
            succs@ == self.successors_of(idx as nat, num_nodes as nat, label_map@),
    ;
}

/// The positions of the labels of the first `k` nodes; where a label occurs
/// more than once, its last position.
pub open spec fn label_positions<N: CfgNode>(nodes: Seq<N>, k: nat) -> Map<Seq<char>, usize>
    decreases k,
{
    if k == 0 {
        Map::empty()
    } else {
        let rest = label_positions(nodes, (k - 1) as nat);
        match nodes[k - 1].label_of() {
            Some(l) => rest.insert(l, (k - 1) as usize),
            None => rest,
        }
    }
}

proof fn lemma_label_positions_in_range<N: CfgNode>(nodes: Seq<N>, k: nat)
    requires
        k <= nodes.len(),
        nodes.len() <= usize::MAX,
    ensures
        forall|l: Seq<char>|
            label_positions(nodes, k).contains_key(l) ==> (#[trigger] label_positions(nodes, k)[l])
                < k,
    decreases k,
{
    if k > 0 {
        let rest = label_positions(nodes, (k - 1) as nat);
        lemma_label_positions_in_range(nodes, (k - 1) as nat);
        assert forall|l: Seq<char>| label_positions(nodes, k).contains_key(l) implies (
        #[trigger] label_positions(nodes, k)[l]) < k by {
            if rest.contains_key(l) {
                assert(rest[l] < k - 1);
            }
        }
    }
}

/// An adjacency list as sequences.
pub open spec fn rows(lists: Seq<Vec<usize>>) -> Seq<Seq<usize>> {
    Seq::new(lists.len(), |i: int| lists[i]@)
}

/// Every entry of an adjacency list is an index below `n`.
pub open spec fn rows_in_range(succs: Seq<Seq<usize>>, n: nat) -> bool {
    forall|i: int, k: int|
        0 <= i < succs.len() && 0 <= k < succs[i].len() ==> (#[trigger] succs[i][k]) < n
}

/// The sources of the edges into `j`, counting the rows before `i` and the
/// first `k` entries of row `i`, in that order.
pub open spec fn sources(succs: Seq<Seq<usize>>, j: int, i: nat, k: nat) -> Seq<usize>
    decreases i, k,
{
    if k > 0 {
        let rest = sources(succs, j, i, (k - 1) as nat);
        if succs[i as int][k - 1] == j {
            rest.push(i as usize)
        } else {
            rest
        }
    } else if i > 0 {
        sources(succs, j, (i - 1) as nat, succs[i - 1].len())
    } else {
        Seq::empty()
    }
}

/// The predecessors of `j`: the sources of all edges into it.
pub open spec fn predecessors_of(succs: Seq<Seq<usize>>, j: int) -> Seq<usize> {
    sources(succs, j, succs.len(), 0)
}

/// Entry `e` of row `p` leads to `j`.
pub open spec fn leads_to(succs: Seq<Seq<usize>>, p: int, e: int, j: int) -> bool {
    succs[p][e] == j
}

/// Row `p` has `j` among the entries counted by `sources(succs, j, i, k)`.
spec fn counted(succs: Seq<Seq<usize>>, j: int, i: nat, k: nat, p: usize) -> bool {
    exists|e: int|
        0 <= e && (p < i && e < succs[p as int].len() || p == i && e < k) && #[trigger] leads_to(
            succs,
            p as int,
            e,
            j,
        )
}

/// `sources` holds exactly the rows that have `j` among the counted entries.
proof fn lemma_sources(succs: Seq<Seq<usize>>, j: int, i: nat, k: nat)
    requires
        i <= succs.len(),
        succs.len() <= usize::MAX,
        i < succs.len() ==> k <= succs[i as int].len(),
        i == succs.len() ==> k == 0,
    ensures
        forall|p: usize| #[trigger]
            sources(succs, j, i, k).contains(p) <==> counted(succs, j, i, k, p),
    decreases i, k,
{
    let s = sources(succs, j, i, k);
    if k > 0 {
        lemma_sources(succs, j, i, (k - 1) as nat);
        let rest = sources(succs, j, i, (k - 1) as nat);
        let hit = leads_to(succs, i as int, k - 1, j);
        assert forall|p: usize| #[trigger] s.contains(p) <==> counted(succs, j, i, k, p) by {
            assert(s.contains(p) <==> rest.contains(p) || (hit && p == i)) by {
                if s.contains(p) {
                    let w = choose|w: int| 0 <= w < s.len() && s[w] == p;
                    if w < rest.len() {
                        assert(rest[w] == p);
                    }
                }
                if rest.contains(p) {
                    let w = choose|w: int| 0 <= w < rest.len() && rest[w] == p;
                    assert(s[w] == p);
                }
                if hit {
                    assert(s[s.len() - 1] == i);
                }
            }
            assert(counted(succs, j, i, k, p) <==> counted(succs, j, i, (k - 1) as nat, p) || (hit
                && p == i));
        }
    } else if i > 0 {
        let i1 = (i - 1) as nat;
        let k1 = succs[i - 1].len();
        lemma_sources(succs, j, i1, k1);
        assert(s == sources(succs, j, i1, k1));
        assert forall|p: usize| #[trigger] s.contains(p) <==> counted(succs, j, i, k, p) by {
            assert(sources(succs, j, i1, k1).contains(p) <==> counted(succs, j, i1, k1, p));
            assert(counted(succs, j, i1, k1, p) <==> counted(succs, j, i, k, p));
        }
    }
}

/// A directed graph with successor and predecessor lists.
pub struct Graph {
    succs: Vec<Vec<usize>>,
    preds: Vec<Vec<usize>>,
}

impl Graph {
    /// The successor lists.
    pub closed spec fn succ(&self) -> Seq<Seq<usize>> {
        rows(self.succs@)
    }

    /// The predecessor lists.
    pub closed spec fn pred(&self) -> Seq<Seq<usize>> {
        rows(self.preds@)
    }

    /// Edges lead to nodes, and the predecessor lists invert the successor
    /// lists.
    pub closed spec fn wf(&self) -> bool {
        &&& rows_in_range(self.succ(), self.succ().len())
        &&& self.pred().len() == self.succ().len()
        &&& forall|j: int|
            0 <= j < self.pred().len() ==> #[trigger] self.pred()[j] == predecessors_of(
                self.succ(),
                j,
            )
    }

    /// What well-formedness means for the two lists.
    pub proof fn lemma_wf(&self)
        requires
            self.wf(),
        ensures
            self.succ().len() <= usize::MAX,
            rows_in_range(self.succ(), self.succ().len()),
            self.pred().len() == self.succ().len(),
            forall|j: int|
                0 <= j < self.pred().len() ==> #[trigger] self.pred()[j] == predecessors_of(
                    self.succ(),
                    j,
                ),
    {
        assert(self.succ().len() == self.succs.len());
    }

    /// The predecessor lists invert the successor lists: `i` is a predecessor
    /// of `j` exactly when `j` is a successor of `i`.
    pub proof fn lemma_pred_inverts_succ(&self, i: usize, j: usize)
        requires
            self.wf(),
            i < self.succ().len(),
            j < self.succ().len(),
        ensures
            self.pred()[j as int].contains(i) <==> self.succ()[i as int].contains(j),
    {
        self.lemma_wf();
        let succs = self.succ();
        lemma_sources(succs, j as int, succs.len(), 0);
        assert(self.pred()[j as int] == predecessors_of(succs, j as int));
        assert(sources(succs, j as int, succs.len(), 0).contains(i) <==> counted(
            succs,
            j as int,
            succs.len(),
            0,
            i,
        ));
        if succs[i as int].contains(j) {
            let e = choose|e: int| 0 <= e < succs[i as int].len() && succs[i as int][e] == j;
            assert(leads_to(succs, i as int, e, j as int));
        }
    }

    /// Predecessors are nodes of the graph.
    pub proof fn lemma_preds_in_range(&self, j: int)
        requires
            self.wf(),
            0 <= j < self.pred().len(),
        ensures
            forall|k: int|
                0 <= k < self.pred()[j].len() ==> (#[trigger] self.pred()[j][k])
                    < self.succ().len(),
    {
        self.lemma_wf();
        lemma_sources(self.succ(), j, self.succ().len(), 0);
        assert(self.pred()[j] == predecessors_of(self.succ(), j));
        assert forall|k: int| 0 <= k < self.pred()[j].len() implies (#[trigger] self.pred()[j][k])
            < self.succ().len() by {
            let p = self.pred()[j][k];
            assert(self.pred()[j].contains(p));
        }
    }

    /// Builds a graph from its successor lists.
    pub fn new(succs: Vec<Vec<usize>>) -> (graph: Self)
        requires
            rows_in_range(rows(succs@), succs.len() as nat),
        ensures
            graph.wf(),
            graph.succ() == rows(succs@),
    {
        let n: usize = succs.len();
        let ghost lists = rows(succs@);
        let mut preds: Vec<Vec<usize>> = Vec::new();
        let mut m: usize = 0;
        while m < n
            invariant
                m <= n,
                preds.len() == m,
                forall|j: int| 0 <= j < m ==> #[trigger] preds@[j]@ == Seq::<usize>::empty(),
            decreases n - m,
        {
            preds.push(Vec::new());
            m = m + 1;
        }
        let mut i: usize = 0;
        while i < n
            invariant
                i <= n,
                n == succs.len(),
                n == preds.len(),
                lists == rows(succs@),
                rows_in_range(lists, n as nat),
                forall|j: int|
                    0 <= j < n ==> #[trigger] preds@[j]@ == sources(lists, j, i as nat, 0),
            decreases n - i,
        {
            let len: usize = succs[i].len();
            let mut k: usize = 0;
            assert(lists[i as int] == succs@[i as int]@);
            while k < len
                invariant
                    i < n,
                    k <= len,
                    n == succs.len(),
                    n == preds.len(),
                    len == succs@[i as int].len(),
                    lists == rows(succs@),
                    lists[i as int] == succs@[i as int]@,
                    rows_in_range(lists, n as nat),
                    forall|j: int|
                        0 <= j < n ==> #[trigger] preds@[j]@ == sources(
                            lists,
                            j,
                            i as nat,
                            k as nat,
                        ),
                decreases len - k,
            {
                let s: usize = succs[i][k];
                let ghost before = preds@;
                assert(lists[i as int][k as int] == s);
                preds[s].push(i);
                proof {
                    assert forall|j: int| 0 <= j < n implies #[trigger] preds@[j]@ == sources(
                        lists,
                        j,
                        i as nat,
                        (k + 1) as nat,
                    ) by {
                        assert(before[j]@ == sources(lists, j, i as nat, k as nat));
                    }
                }
                k = k + 1;
            }
            proof {
                assert forall|j: int| 0 <= j < n implies #[trigger] preds@[j]@ == sources(
                    lists,
                    j,
                    (i + 1) as nat,
                    0,
                ) by {
                    assert(sources(lists, j, (i + 1) as nat, 0) == sources(
                        lists,
                        j,
                        i as nat,
                        lists[i as int].len(),
                    ));
                }
            }
            i = i + 1;
        }
        let graph = Graph { succs, preds };
        proof {
            assert(graph.succ() =~= lists);
            assert forall|j: int| 0 <= j < graph.pred().len() implies #[trigger] graph.pred()[j]
                == predecessors_of(lists, j) by {
                assert(preds@[j]@ == sources(lists, j, n as nat, 0));
            }
        }
        graph
    }

    /// Builds the graph of a list of control-flow nodes.
    pub fn from_nodes<N: CfgNode>(nodes: &[N]) -> (graph: Self)
        requires
            forall|i: int|
                0 <= i < nodes.len() ==> (#[trigger] nodes@[i]).resolvable(
                    label_positions(nodes@, nodes@.len()),
                ),
        ensures
            graph.wf(),
            graph.succ().len() == nodes.len(),
            forall|i: int|
                0 <= i < nodes.len() ==> #[trigger] graph.succ()[i] == nodes@[i].successors_of(
                    i as nat,
                    nodes@.len(),
                    label_positions(nodes@, nodes@.len()),
                ),
    {
        let n: usize = nodes.len();
        let mut label_map: NameMap<usize> = NameMap::new();
        let mut i: usize = 0;
        while i < n
            invariant
                i <= n,
                n == nodes.len(),
                label_map.wf(),
                label_map@ == label_positions(nodes@, i as nat),
            decreases n - i,
        {
            match nodes[i].label() {
                Some(l) => {
                    label_map.insert(l, i);
                },
                None => {},
            }
            i = i + 1;
        }
        let ghost positions = label_positions(nodes@, nodes@.len());
        let mut succs: Vec<Vec<usize>> = Vec::new();
        let mut k: usize = 0;
        while k < n
            invariant
                k <= n,
                n == nodes.len(),
                succs.len() == k,
                label_map.wf(),
                label_map@ == positions,
                forall|i: int|
                    0 <= i < nodes.len() ==> (#[trigger] nodes@[i]).resolvable(positions),
                forall|i: int|
                    0 <= i < k ==> #[trigger] succs@[i]@ == nodes@[i].successors_of(
                        i as nat,
                        n as nat,
                        positions,
                    ),
            decreases n - k,
        {
            assert(nodes@[k as int].resolvable(positions));
            let list = nodes[k].successors(k, n, &label_map);
            succs.push(list);
            k = k + 1;
        }
        proof {
            lemma_label_positions_in_range(nodes@, n as nat);
            assert forall|i: int, e: int|
                0 <= i < succs.len() && 0 <= e < rows(succs@)[i].len() implies (
            #[trigger] rows(succs@)[i][e]) < n by {
                assert(succs@[i]@ == nodes@[i].successors_of(i as nat, n as nat, positions));
                assert(nodes@[i].resolvable(positions));
                nodes@[i].lemma_successors_in_range(i as nat, n as nat, positions);
                assert(nodes@[i].successors_of(i as nat, n as nat, positions)[e] < n);
            }
        }
        let graph = Self::new(succs);
        proof {
            assert forall|i: int| 0 <= i < nodes.len() implies #[trigger] graph.succ()[i]
                == nodes@[i].successors_of(i as nat, n as nat, positions) by {
                assert(succs@[i]@ == nodes@[i].successors_of(i as nat, n as nat, positions));
            }
        }
        graph
    }

    /// The number of nodes.
    pub fn num_nodes(&self) -> (n: usize)
        ensures
            n == self.succ().len(),
    {
        self.succs.len()
    }

    /// The successors of `node`.
    pub fn successors(&self, node: usize) -> (list: &[usize])
        requires
            node < self.succ().len(),
        ensures
            list@ == self.succ()[node as int],
    {
        self.succs[node].as_slice()
    }

    /// The predecessors of `node`.
    pub fn predecessors(&self, node: usize) -> (list: &[usize])
        requires
            self.wf(),
            node < self.succ().len(),
        ensures
            list@ == self.pred()[node as int],
    {
        proof {
            self.lemma_wf();
        }
        self.preds[node].as_slice()
    }

    /// All successor lists.
    pub fn succs_vec(&self) -> (lists: &[Vec<usize>])
        ensures
            rows(lists@) == self.succ(),
    {
        self.succs.as_slice()
    }

    /// All predecessor lists.
    pub fn preds_vec(&self) -> (lists: &[Vec<usize>])
        ensures
            rows(lists@) == self.pred(),
    {
        self.preds.as_slice()
    }
}

/// A lattice of sets, the value domain of a dataflow analysis.
///
/// A value stands for the set [`Lattice::elems`], a subset of
/// `0..self.extent()`.
pub trait Lattice: Sized {
    /// The set that the value stands for.
    spec fn elems(&self) -> Set<int>;

    /// The exclusive bound on elements, which every operation keeps.
    spec fn extent(&self) -> nat;

    /// The value is well formed.
    spec fn inv(&self) -> bool;

    /// Elements are below the extent.
    proof fn lemma_elems_bounded(&self)
        requires
            self.inv(),
        ensures
            self.elems().finite(),
            self.elems().len() <= self.extent(),
    ;

    /// A copy of the value.
    fn duplicate(&self) -> (copy: Self)
        requires
            self.inv(),
        ensures
            copy.inv(),
            copy.extent() == self.extent(),
            copy.elems() == self.elems(),
    ;

    /// Sets the value to bottom, the empty set.
    fn reset(&mut self)
        requires
            old(self).inv(),
        ensures
            final(self).inv(),
            final(self).extent() == old(self).extent(),
            final(self).elems() == Set::<int>::empty(),
    ;

    /// Least upper bound in place.  Returns whether the value changed.
    fn join(&mut self, other: &Self) -> (changed: bool)
        requires
            old(self).inv(),
            other.inv(),
            old(self).extent() == other.extent(),
        ensures
            final(self).inv(),
            final(self).extent() == old(self).extent(),
            final(self).elems() == old(self).elems() + other.elems(),
            changed == (final(self).elems() != old(self).elems()),
    ;

    /// Sets the value to `gen ∪ (out ∖ kill)`.  Returns whether it changed.
    fn transfer(&mut self, gen: &Self, kill: &Self, out: &Self) -> (changed: bool)
        requires
            old(self).inv(),
            gen.inv(),
            kill.inv(),
            out.inv(),
            old(self).extent() == gen.extent(),
            old(self).extent() == kill.extent(),
            old(self).extent() == out.extent(),
        ensures
            final(self).inv(),
            final(self).extent() == old(self).extent(),
            final(self).elems() == flow(gen.elems(), kill.elems(), out.elems()),
            changed == (final(self).elems() != old(self).elems()),
    ;
}

/// The transfer function of backward liveness.
pub open spec fn flow(gen: Set<int>, kill: Set<int>, out: Set<int>) -> Set<int> {
    gen + (out - kill)
}

/// The set of a single flag: `{0}` or nothing.
pub open spec fn flag_set(b: bool) -> Set<int> {
    if b {
        set![0int]
    } else {
        Set::empty()
    }
}

/// One flag: `false` is bottom and join is disjunction.
impl Lattice for bool {
    open spec fn elems(&self) -> Set<int> {
        flag_set(*self)
    }

    open spec fn extent(&self) -> nat {
        1
    }

    open spec fn inv(&self) -> bool {
        true
    }

    proof fn lemma_elems_bounded(&self) {
    }

    fn duplicate(&self) -> (copy: Self) {
        *self
    }

    fn reset(&mut self) {
        *self = false;
    }

    fn join(&mut self, other: &Self) -> (changed: bool) {
        proof {
            lemma_flag_sets();
        }
        if *other && !*self {
            *self = true;
            true
        } else {
            false
        }
    }

    fn transfer(&mut self, gen: &Self, kill: &Self, out: &Self) -> (changed: bool) {
        proof {
            lemma_flag_sets();
        }
        let updated = *gen || (*out && !*kill);
        if updated != *self {
            *self = updated;
            true
        } else {
            false
        }
    }
}

proof fn lemma_flag_sets()
    ensures
        flag_set(true) != flag_set(false),
        forall|a: bool, b: bool| #[trigger] (flag_set(a) + flag_set(b)) == flag_set(a || b),
        forall|g: bool, k: bool, o: bool| #[trigger]
            flow(flag_set(g), flag_set(k), flag_set(o)) == flag_set(g || (o && !k)),
{
    assert(flag_set(true).contains(0));
    assert forall|a: bool, b: bool| #[trigger] (flag_set(a) + flag_set(b)) == flag_set(a || b) by {
        assert(flag_set(a) + flag_set(b) =~= flag_set(a || b));
    }
    assert forall|g: bool, k: bool, o: bool| #[trigger]
        flow(flag_set(g), flag_set(k), flag_set(o)) == flag_set(g || (o && !k)) by {
        assert(flow(flag_set(g), flag_set(k), flag_set(o)) =~= flag_set(g || (o && !k)));
    }
}

/// Sets of indices under union; the empty bit set is bottom.
impl Lattice for Bitset {
    open spec fn elems(&self) -> Set<int> {
        self@
    }

    open spec fn extent(&self) -> nat {
        self.cap()
    }

    open spec fn inv(&self) -> bool {
        self.wf()
    }

    proof fn lemma_elems_bounded(&self) {
        self.lemma_members_below_cap();
    }

    fn duplicate(&self) -> (copy: Self) {
        self.clone()
    }

    fn reset(&mut self) {
        self.clear();
    }

    fn join(&mut self, other: &Self) -> (changed: bool) {
        self.union_with(other)
    }

    fn transfer(&mut self, gen: &Self, kill: &Self, out: &Self) -> (changed: bool) {
        self.assign_transfer(gen, kill, out)
    }
}

/// The sets that a sequence of lattice values stands for.
pub open spec fn sets<L: Lattice>(values: Seq<L>) -> Seq<Set<int>> {
    Seq::new(values.len(), |i: int| values[i].elems())
}

/// Well-formed values of one extent.
pub open spec fn uniform<L: Lattice>(values: Seq<L>, extent: nat) -> bool {
    forall|i: int|
        0 <= i < values.len() ==> (#[trigger] values[i]).inv() && values[i].extent() == extent
}

/// The union of the sets of the nodes in `list`.
pub open spec fn union_of(list: Seq<usize>, ins: Seq<Set<int>>) -> Set<int> {
    Set::new(|v: int| exists|k: int| 0 <= k < list.len() && (#[trigger] ins[list[k] as int]).contains(v))
}

/// What flows into node `i` when the nodes have the sets `ins` at entry.
pub open spec fn flow_in(
    succ: Seq<Seq<usize>>,
    gen: Seq<Set<int>>,
    kill: Seq<Set<int>>,
    ins: Seq<Set<int>>,
    i: int,
) -> Set<int> {
    flow(gen[i], kill[i], union_of(succ[i], ins))
}

/// `ins` and `outs` solve the liveness equations: what leaves a node is the
/// union of what enters its successors, and what enters it is what the
/// transfer function makes of that.
pub open spec fn solves(
    succ: Seq<Seq<usize>>,
    gen: Seq<Set<int>>,
    kill: Seq<Set<int>>,
    ins: Seq<Set<int>>,
    outs: Seq<Set<int>>,
) -> bool {
    forall|i: int|
        #![trigger ins[i]]
        #![trigger outs[i]]
        0 <= i < succ.len() ==> outs[i] == union_of(succ[i], ins) && ins[i] == flow_in(
            succ,
            gen,
            kill,
            ins,
            i,
        )
}

/// `x` is closed under the liveness equations.
pub open spec fn closed_under_flow(
    succ: Seq<Seq<usize>>,
    gen: Seq<Set<int>>,
    kill: Seq<Set<int>>,
    x: Seq<Set<int>>,
) -> bool {
    forall|i: int|
        0 <= i < succ.len() ==> flow_in(succ, gen, kill, x, i).subset_of(#[trigger] x[i])
}

/// Every set of `a` is contained in the set of `b` at the same position.
pub open spec fn below(a: Seq<Set<int>>, b: Seq<Set<int>>) -> bool {
    forall|i: int| 0 <= i < a.len() ==> (#[trigger] a[i]).subset_of(b[i])
}

/// `ins` lies below everything that is closed under the liveness equations.
pub open spec fn least(
    succ: Seq<Seq<usize>>,
    gen: Seq<Set<int>>,
    kill: Seq<Set<int>>,
    ins: Seq<Set<int>>,
) -> bool {
    forall|x: Seq<Set<int>>| #[trigger] closed_under_flow(succ, gen, kill, x) ==> below(ins, x)
}

/// The number of elements in all sets together.
spec fn total(ins: Seq<Set<int>>) -> nat
    decreases ins.len(),
{
    if ins.len() == 0 {
        0
    } else {
        total(ins.drop_last()) + ins.last().len()
    }
}

proof fn lemma_total_bound(ins: Seq<Set<int>>, cap: nat)
    requires
        forall|i: int| 0 <= i < ins.len() ==> (#[trigger] ins[i]).len() <= cap,
    ensures
        total(ins) <= ins.len() * cap,
    decreases ins.len(),
{
    if ins.len() > 0 {
        lemma_total_bound(ins.drop_last(), cap);
        assert(ins.len() * cap == (ins.len() - 1) * cap + cap) by (nonlinear_arith);
    }
}

proof fn lemma_total_update(ins: Seq<Set<int>>, i: int, x: Set<int>)
    requires
        0 <= i < ins.len(),
    ensures
        total(ins.update(i, x)) == total(ins) - ins[i].len() + x.len(),
    decreases ins.len(),
{
    let upd = ins.update(i, x);
    if i == ins.len() - 1 {
        assert(upd.drop_last() =~= ins.drop_last());
    } else {
        lemma_total_update(ins.drop_last(), i, x);
        assert(upd.drop_last() =~= ins.drop_last().update(i, x));
    }
}

/// Flow is monotone.
pub proof fn lemma_flow_monotone(
    succ: Seq<Seq<usize>>,
    gen: Seq<Set<int>>,
    kill: Seq<Set<int>>,
    a: Seq<Set<int>>,
    b: Seq<Set<int>>,
    i: int,
)
    requires
        below(a, b),
        rows_in_range(succ, a.len()),
        0 <= i < succ.len(),
    ensures
        flow_in(succ, gen, kill, a, i).subset_of(flow_in(succ, gen, kill, b, i)),
{
    let ua = union_of(succ[i], a);
    let ub = union_of(succ[i], b);
    assert forall|v: int| ua.contains(v) implies ub.contains(v) by {
        let k = choose|k: int| 0 <= k < succ[i].len() && (#[trigger] a[succ[i][k] as int]).contains(
            v,
        );
        assert(succ[i][k] < a.len());
        assert(a[succ[i][k] as int].subset_of(b[succ[i][k] as int]));
        assert(b[succ[i][k] as int].contains(v));
    }
}

/// The result of backward liveness: the set at entry and at exit of each node.
pub struct BackwardLiveness<L> {
    /// Values live at the entry of each node.
    pub live_in: Vec<L>,
    /// Values live at the exit of each node.
    pub live_out: Vec<L>,
}

impl<L: Lattice> BackwardLiveness<L> {
    /// The value that leaves node `i`: the join over its successors.
    fn exit_value(graph: &Graph, live_in: &Vec<L>, bottom: &L, i: usize) -> (out: L)
        requires
            graph.wf(),
            i < graph.succ().len(),
            live_in.len() == graph.succ().len(),
            bottom.inv(),
            bottom.elems() == Set::<int>::empty(),
            uniform(live_in@, bottom.extent()),
        ensures
            out.inv(),
            out.extent() == bottom.extent(),
            out.elems() == union_of(graph.succ()[i as int], sets(live_in@)),
    {
        proof {
            graph.lemma_wf();
        }
        let list = graph.successors(i);
        let n: usize = list.len();
        let mut out = bottom.duplicate();
        let mut k: usize = 0;
        assert(out.elems() =~= union_of(list@.take(0), sets(live_in@)));
        while k < n
            invariant
                k <= n,
                n == list.len(),
                out.inv(),
                out.extent() == bottom.extent(),
                uniform(live_in@, bottom.extent()),
                forall|e: int| 0 <= e < n ==> (#[trigger] list@[e]) < live_in.len(),
                out.elems() == union_of(list@.take(k as int), sets(live_in@)),
            decreases n - k,
        {
            let s: usize = list[k];
            let ghost before = out.elems();
            out.join(&live_in[s]);
            proof {
                let ins = sets(live_in@);
                let a = list@.take(k as int);
                let b = list@.take(k + 1);
                assert forall|v: int| out.elems().contains(v) == union_of(b, ins).contains(v) by {
                    if union_of(a, ins).contains(v) {
                        let e = choose|e: int| 0 <= e < a.len() && (
                        #[trigger] ins[a[e] as int]).contains(v);
                        assert(ins[b[e] as int].contains(v));
                    }
                    if ins[s as int].contains(v) {
                        assert(ins[b[k as int] as int].contains(v));
                    }
                    if union_of(b, ins).contains(v) {
                        let e = choose|e: int| 0 <= e < b.len() && (
                        #[trigger] ins[b[e] as int]).contains(v);
                        if e < k {
                            assert(ins[a[e] as int].contains(v));
                        }
                    }
                }
                assert(out.elems() =~= union_of(b, ins));
            }
            k = k + 1;
        }
        assert(list@.take(n as int) =~= list@);
        out
    }

    /// Solves the liveness equations with a worklist.
    ///
    /// The result is the least solution: what is live is live because some
    /// path reaches a use of it without passing a definition.
    pub fn compute(gen: &[L], kill: &[L], graph: &Graph, bottom: L) -> (result: Self)
        requires
            graph.wf(),
            gen.len() == graph.succ().len(),
            kill.len() == graph.succ().len(),
            bottom.inv(),
            bottom.elems() == Set::<int>::empty(),
            uniform(gen@, bottom.extent()),
            uniform(kill@, bottom.extent()),
        ensures
            result.live_in.len() == graph.succ().len(),
            result.live_out.len() == graph.succ().len(),
            uniform(result.live_in@, bottom.extent()),
            uniform(result.live_out@, bottom.extent()),
            solves(
                graph.succ(),
                sets(gen@),
                sets(kill@),
                sets(result.live_in@),
                sets(result.live_out@),
            ),
            least(graph.succ(), sets(gen@), sets(kill@), sets(result.live_in@)),
    {
        let n: usize = graph.num_nodes();
        let ghost cap = bottom.extent();
        let ghost succ = graph.succ();
        let ghost gens = sets(gen@);
        let ghost kills = sets(kill@);
        let mut live_in: Vec<L> = Vec::new();
        let mut live_out: Vec<L> = Vec::new();
        let mut in_worklist: Vec<bool> = Vec::new();
        let mut worklist: VecDeque<usize> = VecDeque::new();
        let mut m: usize = 0;
        while m < n
            invariant
                m <= n,
                bottom.inv(),
                bottom.extent() == cap,
                bottom.elems() == Set::<int>::empty(),
                live_in.len() == m,
                live_out.len() == m,
                in_worklist.len() == m,
                worklist.len() == m,
                uniform(live_in@, cap),
                uniform(live_out@, cap),
                forall|j: int|
                    0 <= j < m ==> (#[trigger] live_in@[j]).elems() == Set::<int>::empty(),
                forall|j: int| 0 <= j < m ==> in_worklist@[j],
                forall|j: int| 0 <= j < m ==> #[trigger] worklist@[j] == n - 1 - j,
            decreases n - m,
        {
            live_in.push(bottom.duplicate());
            live_out.push(bottom.duplicate());
            in_worklist.push(true);
            worklist.push_back(n - 1 - m);
            m = m + 1;
        }
        proof {
            graph.lemma_wf();
            let ins = sets(live_in@);
            assert forall|j: int|
                #![trigger in_worklist@[j]]
                0 <= j < n implies worklist@.contains(j as usize) by {
                assert(worklist@[n - 1 - j] == j);
            }
            assert forall|j: int| 0 <= j < n implies (#[trigger] ins[j]).subset_of(
                flow_in(succ, gens, kills, ins, j),
            ) by {
                assert(live_in@[j].elems() == Set::<int>::empty());
            }
            assert forall|x: Seq<Set<int>>| #[trigger]
                closed_under_flow(succ, gens, kills, x) implies below(ins, x) by {
                assert forall|i: int| 0 <= i < ins.len() implies (#[trigger] ins[i]).subset_of(
                    x[i],
                ) by {
                    assert(live_in@[i].elems() == Set::<int>::empty());
                }
            }
            lemma_bounded(live_in@, cap);
        }
        while worklist.len() > 0
            invariant
                graph.wf(),
                succ == graph.succ(),
                n == succ.len(),
                rows_in_range(succ, n as nat),
                gen.len() == n,
                kill.len() == n,
                gens == sets(gen@),
                kills == sets(kill@),
                bottom.inv(),
                bottom.extent() == cap,
                bottom.elems() == Set::<int>::empty(),
                uniform(gen@, cap),
                uniform(kill@, cap),
                live_in.len() == n,
                live_out.len() == n,
                in_worklist.len() == n,
                uniform(live_in@, cap),
                uniform(live_out@, cap),
                forall|k: int| 0 <= k < worklist.len() ==> (#[trigger] worklist@[k]) < n,
                forall|j: int|
                    #![trigger in_worklist@[j]]
                    0 <= j < n && in_worklist@[j] ==> worklist@.contains(j as usize),
                forall|j: int|
                    #![trigger live_out@[j]]
                    #![trigger live_in@[j]]
                    0 <= j < n && !in_worklist@[j] ==> live_out@[j].elems() == union_of(
                        succ[j],
                        sets(live_in@),
                    ) && live_in@[j].elems() == flow_in(succ, gens, kills, sets(live_in@), j),
                forall|j: int|
                    0 <= j < n ==> (#[trigger] sets(live_in@)[j]).subset_of(
                        flow_in(succ, gens, kills, sets(live_in@), j),
                    ),
                least(succ, gens, kills, sets(live_in@)),
                total(sets(live_in@)) <= n * cap,
            decreases n * cap - total(sets(live_in@)), worklist.len(),
        {
            let ghost ins = sets(live_in@);
            let ghost queue = worklist@;
            let i: usize = worklist.pop_front().unwrap();
            assert(i == queue[0]);
            let ghost flags = in_worklist@;
            in_worklist.set(i, false);
            let out = Self::exit_value(graph, &live_in, &bottom, i);
            let ghost lin = live_in@;
            let in_changed = live_in[i].transfer(&gen[i], &kill[i], &out);
            let ghost lout = live_out@;
            live_out.set(i, out);
            let ghost ins2 = sets(live_in@);
            proof {
                assert(live_in@[i as int].elems() == flow_in(succ, gens, kills, ins, i as int));
                assert(ins2 =~= ins.update(i as int, live_in@[i as int].elems()));
                assert(ins[i as int].subset_of(ins2[i as int]));
                assert(below(ins, ins2));
                lemma_bounded(live_in@, cap);
                assert(uniform(live_in@, cap));
                assert forall|j: int| 0 <= j < n implies (#[trigger] ins2[j]).subset_of(
                    flow_in(succ, gens, kills, ins2, j),
                ) by {
                    lemma_flow_monotone(succ, gens, kills, ins, ins2, j);
                    assert(ins[j].subset_of(flow_in(succ, gens, kills, ins, j)));
                }
                assert forall|x: Seq<Set<int>>| #[trigger]
                    closed_under_flow(succ, gens, kills, x) implies below(ins2, x) by {
                    assert(below(ins, x));
                    lemma_flow_monotone(succ, gens, kills, ins, x, i as int);
                    assert(flow_in(succ, gens, kills, x, i as int).subset_of(x[i as int]));
                    assert forall|q: int| 0 <= q < ins2.len() implies (
                    #[trigger] ins2[q]).subset_of(x[q]) by {
                        assert(ins[q].subset_of(x[q]));
                    }
                }
                if !in_changed {
                    assert(ins2 =~= ins);
                } else {
                    lemma_total_update(ins, i as int, ins2[i as int]);
                    lin[i as int].lemma_elems_bounded();
                    live_in@[i as int].lemma_elems_bounded();
                    lemma_strict_subset_len(ins[i as int], ins2[i as int]);
                }
            }
            let ghost queue1 = worklist@;
            proof {
                assert forall|j: int|
                    #![trigger in_worklist@[j]]
                    0 <= j < n && in_worklist@[j] implies queue1.contains(
                    j as usize,
                ) by {
                    assert(flags[j]);
                    let w = choose|w: int| 0 <= w < queue.len() && queue[w] == j as usize;
                    assert(w != 0);
                    assert(queue1[w - 1] == j as usize);
                }
                // Nodes that do not lead to `i` keep their equations.
                assert forall|j: int|
                    0 <= j < n && !in_worklist@[j] && (!in_changed || !succ[j].contains(
                        i,
                    )) implies #[trigger] live_out@[j].elems() == union_of(succ[j], ins2)
                    && live_in@[j].elems() == flow_in(succ, gens, kills, ins2, j) by {
                    if in_changed {
                        lemma_union_unaffected(succ[j], ins, i, ins2[i as int]);
                        assert(union_of(succ[j], ins2) =~= union_of(succ[j], ins));
                    }
                    if j != i {
                        assert(!flags[j]);
                        assert(lout[j].elems() == union_of(succ[j], ins));
                        assert(lin[j].elems() == flow_in(succ, gens, kills, ins, j));
                    }
                }
            }
            if in_changed {
                let list = graph.predecessors(i);
                let count: usize = list.len();
                let mut k: usize = 0;
                proof {
                    graph.lemma_preds_in_range(i as int);
                }
                while k < count
                    invariant
                        k <= count,
                        count == list.len(),
                        n == succ.len(),
                        in_worklist.len() == n,
                        forall|e: int| 0 <= e < count ==> (#[trigger] list@[e]) < n,
                        forall|e: int| 0 <= e < k ==> in_worklist@[(#[trigger] list@[e]) as int],
                        forall|e: int| 0 <= e < worklist.len() ==> (#[trigger] worklist@[e]) < n,
                        forall|j: int|
                            #![trigger in_worklist@[j]]
                            0 <= j < n && in_worklist@[j] ==> worklist@.contains(j as usize),
                        forall|j: int|
                            #![trigger live_out@[j]]
                            #![trigger live_in@[j]]
                            0 <= j < n && !in_worklist@[j] && !succ[j].contains(i)
                                ==> live_out@[j].elems() == union_of(succ[j], ins2)
                                && live_in@[j].elems() == flow_in(succ, gens, kills, ins2, j),
                    decreases count - k,
                {
                    let p: usize = list[k];
                    if !in_worklist[p] {
                        let ghost before = worklist@;
                        let ghost flags2 = in_worklist@;
                        in_worklist.set(p, true);
                        worklist.push_back(p);
                        proof {
                            assert forall|j: int|
                                #![trigger in_worklist@[j]]
                                0 <= j < n && in_worklist@[j] implies worklist@.contains(
                                j as usize,
                            ) by {
                                if j == p {
                                    assert(worklist@[before.len() as int] == p);
                                } else {
                                    assert(flags2[j]);
                                    let w = choose|w: int|
                                        0 <= w < before.len() && before[w] == j as usize;
                                    assert(worklist@[w] == j as usize);
                                }
                            }
                        }
                    }
                    k = k + 1;
                }
                proof {
                    assert forall|j: int|
                        0 <= j < n && !in_worklist@[j] implies #[trigger] live_out@[j].elems()
                        == union_of(succ[j], ins2) && live_in@[j].elems() == flow_in(
                        succ,
                        gens,
                        kills,
                        ins2,
                        j,
                    ) by {
                        graph.lemma_pred_inverts_succ(j as usize, i);
                        if succ[j].contains(i) {
                            let e = choose|e: int| 0 <= e < list.len() && list@[e] == j as usize;
                            assert(in_worklist@[list@[e] as int]);
                        }
                    }
                }
            }
        }
        let result = BackwardLiveness { live_in, live_out };
        proof {
            assert forall|i: int|
                #![trigger sets(result.live_in@)[i]]
                #![trigger sets(result.live_out@)[i]]
                0 <= i < succ.len() implies sets(result.live_out@)[i] == union_of(
                succ[i],
                sets(result.live_in@),
            ) && sets(result.live_in@)[i] == flow_in(
                succ,
                gens,
                kills,
                sets(result.live_in@),
                i,
            ) by {
                assert(!in_worklist@[i]);
                assert(live_out@[i].elems() == union_of(succ[i], sets(live_in@)));
            }
        }
        result
    }
}

proof fn lemma_bounded<L: Lattice>(values: Seq<L>, cap: nat)
    requires
        uniform(values, cap),
    ensures
        total(sets(values)) <= values.len() * cap,
{
    assert forall|i: int| 0 <= i < sets(values).len() implies (#[trigger] sets(values)[i]).len()
        <= cap by {
        values[i].lemma_elems_bounded();
    }
    lemma_total_bound(sets(values), cap);
}

proof fn lemma_strict_subset_len(a: Set<int>, b: Set<int>)
    requires
        a.subset_of(b),
        a != b,
        b.finite(),
    ensures
        a.len() < b.len(),
{
    assert(exists|v: int| b.contains(v) && !a.contains(v)) by {
        if forall|v: int| b.contains(v) ==> a.contains(v) {
            assert(a =~= b);
        }
    }
    let v = choose|v: int| b.contains(v) && !a.contains(v);
    vstd::set_lib::lemma_len_subset(a, b.remove(v));
}

/// Changing the set of a node outside `list` leaves the union over `list`.
proof fn lemma_union_unaffected(list: Seq<usize>, ins: Seq<Set<int>>, i: usize, x: Set<int>)
    requires
        !list.contains(i),
        i < ins.len(),
        forall|k: int| 0 <= k < list.len() ==> (#[trigger] list[k]) < ins.len(),
    ensures
        union_of(list, ins.update(i as int, x)) =~= union_of(list, ins),
{
    let ins2 = ins.update(i as int, x);
    assert forall|v: int| union_of(list, ins2).contains(v) == union_of(list, ins).contains(v) by {
        if union_of(list, ins).contains(v) {
            let k = choose|k: int| 0 <= k < list.len() && (#[trigger] ins[list[k] as int]).contains(
                v,
            );
            assert(list.contains(list[k]));
            assert(ins2[list[k] as int].contains(v));
        }
        if union_of(list, ins2).contains(v) {
            let k = choose|k: int| 0 <= k < list.len() && (
            #[trigger] ins2[list[k] as int]).contains(v);
            assert(list.contains(list[k]));
            assert(ins[list[k] as int].contains(v));
        }
    }
}

/// `path` is a walk along edges from `i` to a node that uses `v`, and no node
/// before the last defines `v`.
pub open spec fn reaches_use(
    succ: Seq<Seq<usize>>,
    gen: Seq<Set<int>>,
    kill: Seq<Set<int>>,
    i: int,
    v: int,
    path: Seq<int>,
) -> bool
    decreases path.len(),
{
    &&& 0 <= i < succ.len()
    &&& path.len() > 0
    &&& path[0] == i
    &&& if path.len() == 1 {
        gen[i].contains(v)
    } else {
        &&& 0 <= path[1] < succ.len()
        &&& succ[i].contains(path[1] as usize)
        &&& !kill[i].contains(v)
        &&& reaches_use(succ, gen, kill, path[1], v, path.drop_first())
    }
}

/// The set of values that reach a use from node `i`.
spec fn reaching(
    succ: Seq<Seq<usize>>,
    gen: Seq<Set<int>>,
    kill: Seq<Set<int>>,
    i: int,
) -> Set<int> {
    Set::new(|v: int| exists|path: Seq<int>| reaches_use(succ, gen, kill, i, v, path))
}

proof fn lemma_use_is_live(
    succ: Seq<Seq<usize>>,
    gen: Seq<Set<int>>,
    kill: Seq<Set<int>>,
    ins: Seq<Set<int>>,
    outs: Seq<Set<int>>,
    i: int,
    v: int,
    path: Seq<int>,
)
    requires
        solves(succ, gen, kill, ins, outs),
        ins.len() == succ.len(),
        succ.len() <= usize::MAX,
        reaches_use(succ, gen, kill, i, v, path),
    ensures
        ins[i].contains(v),
    decreases path.len(),
{
    assert(ins[i] == flow_in(succ, gen, kill, ins, i));
    if path.len() > 1 {
        lemma_use_is_live(succ, gen, kill, ins, outs, path[1], v, path.drop_first());
        let k = choose|k: int| 0 <= k < succ[i].len() && succ[i][k] == path[1] as usize;
        assert(ins[succ[i][k] as int].contains(v));
    }
}

/// In a least solution a value is live at the entry of a node exactly when
/// some path from the node reaches a use of it before any definition.
pub proof fn lemma_live_iff_reaches_use(
    succ: Seq<Seq<usize>>,
    gen: Seq<Set<int>>,
    kill: Seq<Set<int>>,
    ins: Seq<Set<int>>,
    outs: Seq<Set<int>>,
    i: int,
    v: int,
)
    requires
        rows_in_range(succ, succ.len()),
        succ.len() <= usize::MAX,
        ins.len() == succ.len(),
        solves(succ, gen, kill, ins, outs),
        least(succ, gen, kill, ins),
        0 <= i < succ.len(),
    ensures
        ins[i].contains(v) <==> exists|path: Seq<int>| reaches_use(succ, gen, kill, i, v, path),
{
    let x = Seq::new(succ.len(), |j: int| reaching(succ, gen, kill, j));
    assert(closed_under_flow(succ, gen, kill, x)) by {
        assert forall|j: int| 0 <= j < succ.len() implies flow_in(
            succ,
            gen,
            kill,
            x,
            j,
        ).subset_of(#[trigger] x[j]) by {
            assert forall|w: int| flow_in(succ, gen, kill, x, j).contains(w) implies x[j].contains(
                w,
            ) by {
                if gen[j].contains(w) {
                    assert(reaches_use(succ, gen, kill, j, w, seq![j]));
                } else {
                    let k = choose|k: int| 0 <= k < succ[j].len() && (
                    #[trigger] x[succ[j][k] as int]).contains(w);
                    let s = succ[j][k] as int;
                    assert(succ[j][k] < succ.len());
                    let tail = choose|path: Seq<int>| reaches_use(succ, gen, kill, s, w, path);
                    let path = seq![j] + tail;
                    assert(path.drop_first() =~= tail);
                    assert(reaches_use(succ, gen, kill, j, w, path));
                }
            }
        }
    }
    assert(below(ins, x));
    assert(ins[i].subset_of(x[i]));
    if exists|path: Seq<int>| reaches_use(succ, gen, kill, i, v, path) {
        let path = choose|path: Seq<int>| reaches_use(succ, gen, kill, i, v, path);
        lemma_use_is_live(succ, gen, kill, ins, outs, i, v, path);
    }
}

} // verus!
