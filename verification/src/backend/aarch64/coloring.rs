//! Colouring of the interference graph.
//!
//! Nodes are removed one by one: nodes with few neighbours left first, and
//! when there are none, the node with the most.  Then they come back in
//! reverse order, and each takes the first colour that no coloured neighbour
//! has.

use crate::common::bitset::{lists, members, Bitset};
use std::collections::{HashMap, VecDeque};
use vstd::prelude::*;

verus! {

/// The number of colours.
pub const NUM_COLORS: usize = 8;

/// The first colour; the others follow it.
pub const FIRST_COLOR: u8 = 8;

/// The number behind the last colour.
pub const COLORS_END: u8 = 16;

/// The sets of a list.
pub open spec fn member_sets(list: Seq<Bitset>) -> Seq<Set<int>> {
    Seq::new(list.len(), |i: int| list[i]@)
}

/// A graph: neighbours are present, no node is its own neighbour, and
/// neighbours are neighbours of each other.
pub open spec fn is_graph(adj: Seq<Set<int>>, present: Set<int>) -> bool {
    &&& forall|v: int| #[trigger] present.contains(v) ==> 0 <= v < adj.len()
    &&& forall|v: int|
        0 <= v < adj.len() ==> (#[trigger] adj[v]).subset_of(present) && adj[v].finite()
            && !adj[v].contains(v)
    &&& forall|u: int, v: int|
        0 <= u < adj.len() && 0 <= v < adj.len() && #[trigger] adj[u].contains(v)
            ==> adj[v].contains(u)
}

/// The first `k` nodes of an order.
pub open spec fn before(order: Seq<usize>, k: int) -> Set<int> {
    Set::new(|x: int| exists|j: int| 0 <= j < k && j < order.len() && order[j] == x)
}

/// The neighbours of `v` that are left when the first `k` nodes are gone.
pub open spec fn left(adj: Seq<Set<int>>, order: Seq<usize>, k: int, v: int) -> Set<int> {
    adj[v].difference(before(order, k))
}

/// Removing `order[k]` next was right: it has few neighbours left; or no node
/// has, and none has more.
pub open spec fn well_picked(
    adj: Seq<Set<int>>,
    present: Set<int>,
    order: Seq<usize>,
    spills: Set<int>,
    k: int,
) -> bool {
    let v = order[k] as int;
    if spills.contains(v) {
        forall|u: int|
            #![trigger present.contains(u)]
            present.contains(u) && !before(order, k).contains(u) ==> NUM_COLORS <= left(
                adj,
                order,
                k,
                u,
            ).len() <= left(adj, order, k, v).len()
    } else {
        left(adj, order, k, v).len() < NUM_COLORS
    }
}

/// The members of `s` below `n` that are in `first` or not, as `wanted` says,
/// in ascending order.
pub open spec fn ascending(s: Set<int>, first: Set<int>, wanted: bool, n: nat) -> Seq<usize>
    decreases n,
{
    if n == 0 {
        Seq::empty()
    } else {
        let x = n - 1;
        let front = ascending(s, first, wanted, x as nat);
        if s.contains(x) && first.contains(x) == wanted {
            front.push(x as usize)
        } else {
            front
        }
    }
}

/// The nodes with few neighbours.
pub open spec fn few(adj: Seq<Set<int>>) -> Set<int> {
    Set::new(|u: int| adj[u].len() < NUM_COLORS)
}

/// The nodes that have few neighbours left since `order.last()` is gone, and
/// do not wait in `queue` yet.
pub open spec fn newly_few(adj: Seq<Set<int>>, order: Seq<usize>, queue: Seq<usize>) -> Set<int> {
    let n = order.len() as int;
    Set::new(
        |u: int|
            !before(order, n).contains(u) && left(adj, order, n, u).len() < NUM_COLORS && !before(
                queue,
                queue.len() as int,
            ).contains(u),
    )
}

/// A queue without its first member.
pub open spec fn popped(queue: Seq<usize>) -> Seq<usize> {
    if queue.len() == 0 {
        queue
    } else {
        queue.subrange(1, queue.len() as int)
    }
}

/// The nodes with few neighbours left that wait to be removed when those of
/// `order` are gone, the one that waits longest first; nodes that join
/// together join in ascending order.
pub open spec fn waiting(adj: Seq<Set<int>>, present: Set<int>, order: Seq<usize>) -> Seq<usize>
    decreases order.len(),
{
    if order.len() == 0 {
        ascending(present, few(adj), true, adj.len())
    } else {
        let rest = popped(waiting(adj, present, order.drop_last()));
        rest + ascending(
            adj[order.last() as int],
            newly_few(adj, order, rest),
            true,
            adj.len(),
        )
    }
}

/// `v` is left when the first `k` nodes are gone, and no other node that is
/// left has more neighbours left; of those with as many it is the last.
pub open spec fn busiest(
    adj: Seq<Set<int>>,
    present: Set<int>,
    order: Seq<usize>,
    k: int,
    v: int,
) -> bool {
    &&& present.contains(v)
    &&& !before(order, k).contains(v)
    &&& forall|u: int|
        #![trigger present.contains(u)]
        present.contains(u) && !before(order, k).contains(u) ==> {
            ||| left(adj, order, k, u).len() < left(adj, order, k, v).len()
            ||| left(adj, order, k, u).len() == left(adj, order, k, v).len() && u <= v
        }
}

/// `order[k]` is the node to remove next: the one that waits longest, or where
/// none waits, the busiest, which may then remain without a colour.
pub open spec fn picked(
    adj: Seq<Set<int>>,
    present: Set<int>,
    order: Seq<usize>,
    spills: Set<int>,
    k: int,
) -> bool {
    let queue = waiting(adj, present, order.take(k));
    if queue.len() > 0 {
        order[k] == queue[0] && !spills.contains(order[k] as int)
    } else {
        busiest(adj, present, order, k, order[k] as int) && spills.contains(order[k] as int)
    }
}

/// The order in which the nodes are removed; `spills` holds those that had
/// too many neighbours left.
pub open spec fn is_removal_order(
    adj: Seq<Set<int>>,
    present: Set<int>,
    order: Seq<usize>,
    spills: Set<int>,
) -> bool {
    &&& order.no_duplicates()
    &&& before(order, order.len() as int) == present
    &&& forall|k: int|
        0 <= k < order.len() ==> #[trigger] well_picked(adj, present, order, spills, k)
    &&& forall|k: int|
        0 <= k < order.len() ==> #[trigger] picked(adj, present, order, spills, k)
    &&& spills.subset_of(present)
}

proof fn lemma_same_removal(
    adj: Seq<Set<int>>,
    present: Set<int>,
    a: Seq<usize>,
    a_spills: Set<int>,
    b: Seq<usize>,
    b_spills: Set<int>,
    k: int,
)
    requires
        is_removal_order(adj, present, a, a_spills),
        is_removal_order(adj, present, b, b_spills),
        0 <= k <= a.len(),
        k <= b.len(),
    ensures
        a.take(k) == b.take(k),
        forall|i: int|
            #![trigger a[i]]
            0 <= i < k ==> a_spills.contains(a[i] as int) == b_spills.contains(a[i] as int),
    decreases k,
{
    if k > 0 {
        let j = k - 1;
        lemma_same_removal(adj, present, a, a_spills, b, b_spills, j);
        assert(picked(adj, present, a, a_spills, j));
        assert(picked(adj, present, b, b_spills, j));
        lemma_before_take(a, j);
        lemma_before_take(b, j);
        assert(before(a, j) == before(b, j));
        if waiting(adj, present, a.take(j)).len() == 0 {
            let x = a[j] as int;
            let y = b[j] as int;
            assert(left(adj, a, j, x) == left(adj, b, j, x));
            assert(left(adj, a, j, y) == left(adj, b, j, y));
            assert(present.contains(x) && present.contains(y));
            assert(x == y);
        }
        assert(a.take(k) =~= a.take(j).push(a[j]));
        assert(b.take(k) =~= b.take(j).push(b[j]));
        assert forall|i: int| #![trigger a[i]] 0 <= i < k implies a_spills.contains(a[i] as int)
            == b_spills.contains(a[i] as int) by {
            if i < j {
                assert(a.take(j)[i] == a[i]);
            }
        }
    } else {
        assert(a.take(0) =~= b.take(0));
    }
}

proof fn lemma_before_take(order: Seq<usize>, k: int)
    requires
        0 <= k <= order.len(),
    ensures
        before(order.take(k), k) == before(order, k),
{
    assert forall|x: int| before(order.take(k), k).contains(x) == before(order, k).contains(x) by {
        if before(order.take(k), k).contains(x) {
            let j = choose|j: int| 0 <= j < k && j < order.take(k).len() && order.take(k)[j] == x;
            assert(order[j] == x);
        }
        if before(order, k).contains(x) {
            let j = choose|j: int| 0 <= j < k && j < order.len() && order[j] == x;
            assert(order.take(k)[j] == x);
        }
    }
    assert(before(order.take(k), k) =~= before(order, k));
}

/// A removal order does not end before another one does.
proof fn lemma_removal_length(
    adj: Seq<Set<int>>,
    present: Set<int>,
    a: Seq<usize>,
    a_spills: Set<int>,
    b: Seq<usize>,
    b_spills: Set<int>,
)
    requires
        is_removal_order(adj, present, a, a_spills),
        is_removal_order(adj, present, b, b_spills),
    ensures
        a.len() <= b.len(),
{
    if b.len() < a.len() {
        let n = b.len() as int;
        lemma_same_removal(adj, present, a, a_spills, b, b_spills, n);
        assert(b.take(n) =~= b);
        let x = a[n] as int;
        assert(before(a, a.len() as int).contains(x)) by {
            assert(a[n] == x);
        }
        assert(before(b, n).contains(x));
        let j = choose|j: int| 0 <= j < n && j < b.len() && b[j] == x;
        assert(a.take(n)[j] == b[j]);
        assert(a[j] == a[n]);
    }
}

/// There is one removal order of a graph.
pub proof fn lemma_one_removal_order(
    adj: Seq<Set<int>>,
    present: Set<int>,
    a: Seq<usize>,
    a_spills: Set<int>,
    b: Seq<usize>,
    b_spills: Set<int>,
)
    requires
        is_removal_order(adj, present, a, a_spills),
        is_removal_order(adj, present, b, b_spills),
    ensures
        a == b,
        a_spills == b_spills,
{
    lemma_removal_length(adj, present, a, a_spills, b, b_spills);
    lemma_removal_length(adj, present, b, b_spills, a, a_spills);
    let n = a.len() as int;
    lemma_same_removal(adj, present, a, a_spills, b, b_spills, n);
    assert(a.take(n) =~= a && b.take(n) =~= b);
    assert forall|x: int| a_spills.contains(x) == b_spills.contains(x) by {
        if present.contains(x) {
            assert(before(a, n).contains(x));
            let i = choose|i: int| 0 <= i < n && i < a.len() && a[i] == x;
            assert(a_spills.contains(a[i] as int) == b_spills.contains(a[i] as int));
        }
    }
    assert(a_spills =~= b_spills);
}

/// Some neighbour of `order[k]` that was removed after it has the colour `c`.
pub open spec fn taken(
    adj: Seq<Set<int>>,
    order: Seq<usize>,
    colors: Map<usize, u8>,
    k: int,
    c: int,
) -> bool {
    exists|j: int|
        k < j < order.len() && adj[order[k] as int].contains(#[trigger] order[j] as int)
            && colors.contains_key(order[j]) && colors[order[j]] == c
}

/// `order[k]` has the first colour that is not taken, or none when all are.
pub open spec fn greedily_colored(
    adj: Seq<Set<int>>,
    order: Seq<usize>,
    colors: Map<usize, u8>,
    k: int,
) -> bool {
    let v = order[k];
    if colors.contains_key(v) {
        &&& FIRST_COLOR <= colors[v] < COLORS_END
        &&& !taken(adj, order, colors, k, colors[v] as int)
        &&& forall|c: int| FIRST_COLOR <= c < colors[v] ==> #[trigger] taken(
            adj,
            order,
            colors,
            k,
            c,
        )
    } else {
        forall|c: int| FIRST_COLOR <= c < COLORS_END ==> #[trigger] taken(adj, order, colors, k, c)
    }
}

/// The nodes are coloured in reverse order of removal.
pub open spec fn is_greedy(
    adj: Seq<Set<int>>,
    order: Seq<usize>,
    colors: Map<usize, u8>,
) -> bool {
    &&& forall|v: usize|
        #[trigger] colors.contains_key(v) ==> before(order, order.len() as int).contains(v as int)
    &&& forall|k: int| 0 <= k < order.len() ==> #[trigger] greedily_colored(adj, order, colors, k)
}

proof fn lemma_same_colors(
    adj: Seq<Set<int>>,
    order: Seq<usize>,
    a: Map<usize, u8>,
    b: Map<usize, u8>,
    k: int,
)
    requires
        is_greedy(adj, order, a),
        is_greedy(adj, order, b),
        0 <= k <= order.len(),
    ensures
        forall|j: int|
            k <= j < order.len() ==> a.contains_key(#[trigger] order[j]) == b.contains_key(order[j])
                && (a.contains_key(order[j]) ==> a[order[j]] == b[order[j]]),
    decreases order.len() - k,
{
    if k < order.len() {
        lemma_same_colors(adj, order, a, b, k + 1);
        let v = order[k];
        assert forall|c: int|
            #![trigger taken(adj, order, a, k, c)]
            #![trigger taken(adj, order, b, k, c)]
            taken(adj, order, a, k, c) == taken(adj, order, b, k, c) by {
            if taken(adj, order, a, k, c) {
                let j = choose|j: int|
                    k < j < order.len() && adj[v as int].contains(#[trigger] order[j] as int)
                        && a.contains_key(order[j]) && a[order[j]] == c;
                assert(b.contains_key(order[j]) && b[order[j]] == c);
            }
            if taken(adj, order, b, k, c) {
                let j = choose|j: int|
                    k < j < order.len() && adj[v as int].contains(#[trigger] order[j] as int)
                        && b.contains_key(order[j]) && b[order[j]] == c;
                assert(a.contains_key(order[j]) && a[order[j]] == c);
            }
        }
        assert(greedily_colored(adj, order, a, k));
        assert(greedily_colored(adj, order, b, k));
        if a.contains_key(v) {
            assert(!taken(adj, order, a, k, a[v] as int));
            assert(!taken(adj, order, b, k, a[v] as int));
        }
        if b.contains_key(v) {
            assert(!taken(adj, order, b, k, b[v] as int));
            assert(!taken(adj, order, a, k, b[v] as int));
        }
    }
}

/// There is one colouring for a removal order.
pub proof fn lemma_one_coloring(
    adj: Seq<Set<int>>,
    order: Seq<usize>,
    a: Map<usize, u8>,
    b: Map<usize, u8>,
)
    requires
        is_greedy(adj, order, a),
        is_greedy(adj, order, b),
    ensures
        a == b,
{
    lemma_same_colors(adj, order, a, b, 0);
    assert forall|v: usize| a.contains_key(v) == b.contains_key(v) && (a.contains_key(v) ==> a[v]
        == b[v]) by {
        if a.contains_key(v) || b.contains_key(v) {
            assert(before(order, order.len() as int).contains(v as int));
            let j = choose|j: int| 0 <= j < order.len() && order[j] == v as int;
            assert(order[j] == v);
        }
    }
    assert(a =~= b);
}

/// Neighbours that have a colour have different colours.
pub proof fn lemma_neighbours_differ(
    adj: Seq<Set<int>>,
    present: Set<int>,
    order: Seq<usize>,
    colors: Map<usize, u8>,
    u: usize,
    v: usize,
)
    requires
        is_graph(adj, present),
        is_greedy(adj, order, colors),
        colors.contains_key(u),
        colors.contains_key(v),
        u < adj.len(),
        v < adj.len(),
        adj[u as int].contains(v as int),
    ensures
        colors[u] != colors[v],
{
    let i = choose|i: int| 0 <= i < order.len() && order[i] == u as int;
    let j = choose|j: int| 0 <= j < order.len() && order[j] == v as int;
    assert(adj[v as int].contains(u as int));
    assert(order[i] == u && order[j] == v);
    if colors[u] == colors[v] {
        if i < j {
            assert(greedily_colored(adj, order, colors, i));
            assert(taken(adj, order, colors, i, colors[u] as int));
        } else if j < i {
            assert(greedily_colored(adj, order, colors, j));
            assert(taken(adj, order, colors, j, colors[v] as int));
        }
    }
}

/// A set that is covered by the values of a function on another set is not
/// larger than that.
proof fn lemma_covered_len(a: Set<int>, s: Set<int>, f: spec_fn(int) -> int)
    requires
        a.finite(),
        s.finite(),
        forall|c: int| s.contains(c) ==> exists|x: int| #[trigger] a.contains(x) && f(x) == c,
    ensures
        s.len() <= a.len(),
    decreases a.len(),
{
    if s.len() > 0 {
        let c = s.choose();
        let x = choose|x: int| #[trigger] a.contains(x) && f(x) == c;
        let a1 = a.remove(x);
        let s1 = s.remove(c);
        assert forall|d: int| s1.contains(d) implies exists|y: int|
            #[trigger] a1.contains(y) && f(y) == d by {
            let y = choose|y: int| #[trigger] a.contains(y) && f(y) == d;
            assert(a1.contains(y));
        }
        lemma_covered_len(a1, s1, f);
    }
}

/// A node that had few neighbours left when it was removed gets a colour.
pub proof fn lemma_few_neighbours_get_color(
    adj: Seq<Set<int>>,
    present: Set<int>,
    order: Seq<usize>,
    spills: Set<int>,
    colors: Map<usize, u8>,
    v: usize,
)
    requires
        is_graph(adj, present),
        is_removal_order(adj, present, order, spills),
        is_greedy(adj, order, colors),
        present.contains(v as int),
        !spills.contains(v as int),
    ensures
        colors.contains_key(v),
{
    let k = choose|k: int| 0 <= k < order.len() && order[k] == v as int;
    assert(before(order, order.len() as int).contains(v as int));
    assert(well_picked(adj, present, order, spills, k));
    assert(greedily_colored(adj, order, colors, k));
    if !colors.contains_key(v) {
        let a = left(adj, order, k, v as int);
        let s = vstd::set_lib::set_int_range(FIRST_COLOR as int, COLORS_END as int);
        vstd::set_lib::lemma_int_range(FIRST_COLOR as int, COLORS_END as int);
        let f = |x: int| colors[x as usize] as int;
        assert forall|c: int| s.contains(c) implies exists|x: int|
            #[trigger] a.contains(x) && f(x) == c by {
            assert(taken(adj, order, colors, k, c));
            let j = choose|j: int|
                k < j < order.len() && adj[order[k] as int].contains(#[trigger] order[j] as int)
                    && colors.contains_key(order[j]) && colors[order[j]] == c;
            let x = order[j] as int;
            assert(!before(order, k).contains(x)) by {
                if before(order, k).contains(x) {
                    let i = choose|i: int| 0 <= i < k && i < order.len() && order[i] == x;
                    assert(order[i] == order[j] && i != j);
                }
            }
            assert(a.contains(x) && f(x) == c);
        }
        lemma_covered_len(a, s, f);
    }
}

/// The outcome of colouring: the colours, and the nodes without one.
pub struct Coloring {
    pub colors: HashMap<usize, u8>,
    /// The nodes without a colour: those that had too many neighbours left
    /// first, each group in ascending order.
    pub spilled: Vec<usize>,
}

/// The nodes without a colour.
pub open spec fn uncolored(present: Set<int>, colors: Map<usize, u8>) -> Set<int> {
    Set::new(
        |x: int| present.contains(x) && 0 <= x <= usize::MAX && !colors.contains_key(x as usize),
    )
}

/// An interference graph.
pub struct InterferenceGraph {
    /// The nodes.
    pub present: Bitset,
    /// The neighbours of each node.
    pub adjacency: Vec<Bitset>,
}

/// All sets are well formed, with the same capacity.
pub open spec fn even(list: Seq<Bitset>, cap: nat) -> bool {
    forall|i: int| 0 <= i < list.len() ==> (#[trigger] list[i]).wf() && list[i].cap() == cap
}

proof fn lemma_before_push(order: Seq<usize>, v: usize, k: int)
    requires
        0 <= k <= order.len(),
    ensures
        before(order.push(v), k) == before(order, k),
        before(order.push(v), order.len() as int + 1) == before(order, order.len() as int).insert(
            v as int,
        ),
{
    assert forall|x: int| before(order.push(v), k).contains(x) == before(order, k).contains(x) by {
        if before(order.push(v), k).contains(x) {
            let j = choose|j: int| 0 <= j < k && j < order.push(v).len() && order.push(v)[j] == x;
            assert(order[j] == x);
        }
        if before(order, k).contains(x) {
            let j = choose|j: int| 0 <= j < k && j < order.len() && order[j] == x;
            assert(order.push(v)[j] == x);
        }
    }
    assert(before(order.push(v), k) =~= before(order, k));
    let n = order.len() as int;
    let b = before(order.push(v), n + 1);
    assert forall|x: int| b.contains(x) == before(order, n).insert(v as int).contains(x) by {
        if b.contains(x) {
            let j = choose|j: int|
                0 <= j < n + 1 && j < order.push(v).len() && order.push(v)[j] == x;
            if j < n {
                assert(order[j] == x);
            }
        }
        if before(order, n).contains(x) {
            let j = choose|j: int| 0 <= j < n && j < order.len() && order[j] == x;
            assert(order.push(v)[j] == x);
        }
        if x == v {
            assert(order.push(v)[n] == x);
        }
    }
    assert(b =~= before(order, n).insert(v as int));
}

/// The removal so far: who is gone, how many neighbours each node has left,
/// and that every node with few is waiting in the queue.
spec fn removing(
    adj: Seq<Set<int>>,
    present: Set<int>,
    order: Seq<usize>,
    spills: Set<int>,
    degree: Seq<usize>,
    removed: Set<int>,
    waiting: Set<int>,
    queue: Seq<usize>,
) -> bool {
    &&& is_graph(adj, present)
    &&& order.no_duplicates()
    &&& removed == before(order, order.len() as int)
    &&& removed.subset_of(present)
    &&& degree.len() == adj.len()
    &&& forall|v: int|
        #![trigger degree[v]]
        present.contains(v) && !removed.contains(v) ==> degree[v] == left(
            adj,
            order,
            order.len() as int,
            v,
        ).len()
    &&& queue.no_duplicates()
    &&& waiting == before(queue, queue.len() as int)
    &&& forall|i: int|
        0 <= i < queue.len() ==> present.contains(#[trigger] queue[i] as int) && !removed.contains(
            queue[i] as int,
        ) && degree[queue[i] as int] < NUM_COLORS
    &&& forall|v: int|
        #![trigger degree[v]]
        present.contains(v) && !removed.contains(v) && degree[v] < NUM_COLORS ==> waiting.contains(
            v,
        )
    &&& spills.subset_of(removed)
    &&& forall|k: int|
        0 <= k < order.len() ==> #[trigger] well_picked(adj, present, order, spills, k)
    &&& forall|k: int|
        0 <= k < order.len() ==> #[trigger] picked(adj, present, order, spills, k)
    &&& queue == self::waiting(adj, present, order)
}

proof fn lemma_queue_pop(queue: Seq<usize>)
    requires
        queue.len() > 0,
        queue.no_duplicates(),
    ensures
        ({
            let rest = queue.subrange(1, queue.len() as int);
            &&& rest.no_duplicates()
            &&& before(rest, rest.len() as int) == before(queue, queue.len() as int).remove(
                queue[0] as int,
            )
            &&& forall|i: int| 0 <= i < rest.len() ==> rest[i] == queue[i + 1]
        }),
{
    let rest = queue.subrange(1, queue.len() as int);
    let a = before(rest, rest.len() as int);
    let b = before(queue, queue.len() as int).remove(queue[0] as int);
    assert forall|x: int| a.contains(x) == b.contains(x) by {
        if a.contains(x) {
            let j = choose|j: int| 0 <= j < rest.len() && rest[j] == x;
            assert(queue[j + 1] == x);
            assert(queue[j + 1] != queue[0]);
        }
        if b.contains(x) {
            let j = choose|j: int| 0 <= j < queue.len() && queue[j] == x;
            assert(j > 0);
            assert(rest[j - 1] == x);
        }
    }
    assert(a =~= b);
}

proof fn lemma_queue_push(queue: Seq<usize>, v: usize)
    requires
        queue.no_duplicates(),
        !before(queue, queue.len() as int).contains(v as int),
    ensures
        queue.push(v).no_duplicates(),
        before(queue.push(v), queue.len() as int + 1) == before(queue, queue.len() as int).insert(
            v as int,
        ),
{
    lemma_before_push(queue, v, 0);
    let q = queue.push(v);
    assert forall|i: int, j: int| 0 <= i < q.len() && 0 <= j < q.len() && i != j implies q[i]
        != q[j] by {
        if i == queue.len() {
            if q[j] == v {
                assert(queue[j] == v as int);
            }
        } else if j == queue.len() {
            if q[i] == v {
                assert(queue[i] == v as int);
            }
        }
    }
}

proof fn lemma_well_picked_kept(
    adj: Seq<Set<int>>,
    present: Set<int>,
    order: Seq<usize>,
    spills: Set<int>,
    v: usize,
    more: Set<int>,
    k: int,
)
    requires
        0 <= k < order.len(),
        well_picked(adj, present, order, spills, k),
        spills.subset_of(more),
        more.subset_of(spills.insert(v as int)),
        order[k] != v,
    ensures
        well_picked(adj, present, order.push(v), more, k),
        picked(adj, present, order, spills, k) ==> picked(adj, present, order.push(v), more, k),
{
    lemma_before_push(order, v, k);
    assert(order.push(v).take(k) =~= order.take(k));
    assert(order.push(v)[k] == order[k]);
    assert forall|u: int| left(adj, order.push(v), k, u) == left(adj, order, k, u) by {}
}

impl InterferenceGraph {
    /// The neighbours of each node.
    pub open spec fn adj(&self) -> Seq<Set<int>> {
        member_sets(self.adjacency@)
    }

    /// The sets have one capacity, and form a graph.
    pub open spec fn wf(&self) -> bool {
        &&& self.present.wf()
        &&& self.present.cap() == self.adjacency@.len()
        &&& even(self.adjacency@, self.adjacency@.len())
        &&& is_graph(self.adj(), self.present@)
    }

    /// The number of neighbours of a node.
    pub fn degree(&self, v: usize) -> (n: usize)
        requires
            self.wf(),
            v < self.adjacency@.len(),
        ensures
            n == self.adj()[v as int].len(),
    {
        self.adjacency[v].len()
    }

    /// Colours the graph.
    pub fn color(&self) -> (result: Coloring)
        requires
            self.wf(),
        ensures
            exists|order: Seq<usize>, spills: Set<int>| #[trigger]
                is_removal_order(self.adj(), self.present@, order, spills) && is_greedy(
                    self.adj(),
                    order,
                    result.colors@,
                ) && result.spilled@ == spill_order(
                    uncolored(self.present@, result.colors@),
                    spills,
                    self.adjacency@.len(),
                ),
    {
        let (stack, potential_spills) = self.simplify();
        self.select(stack, potential_spills)
    }

    fn initial_queue(&self, degree: &Vec<usize>) -> (r: (VecDeque<usize>, Bitset))
        requires
            self.wf(),
            degree.len() == self.adjacency@.len(),
            forall|v: int|
                0 <= v < degree.len() ==> #[trigger] degree@[v] == self.adj()[v].len(),
        ensures
            r.1.wf(),
            r.1.cap() == self.adjacency@.len(),
            r.0@.no_duplicates(),
            r.1@ == before(r.0@, r.0@.len() as int),
            forall|i: int|
                0 <= i < r.0@.len() ==> self.present@.contains(#[trigger] r.0@[i] as int)
                    && degree@[r.0@[i] as int] < NUM_COLORS,
            forall|v: int|
                #![trigger degree@[v]]
                self.present@.contains(v) && degree@[v] < NUM_COLORS ==> r.1@.contains(v),
            r.0@ == waiting(self.adj(), self.present@, Seq::empty()),
    {
        let mut queue: VecDeque<usize> = VecDeque::new();
        let mut in_low = Bitset::new(self.adjacency.len());
        let nodes = members(&self.present);
        let mut i: usize = 0;
        let ghost low = few(self.adj());
        assert(before(queue@, 0) =~= Set::empty());
        proof {
            lemma_ascending_gap(self.present@, low, true, nodes@, 0);
        }
        while i < nodes.len()
            invariant
                i <= nodes.len(),
                self.wf(),
                lists(nodes@, self.present@),
                degree.len() == self.adjacency@.len(),
                forall|v: int|
                    0 <= v < degree.len() ==> #[trigger] degree@[v] == self.adj()[v].len(),
                low == few(self.adj()),
                queue@ == ascending(self.present@, low, true, if i < nodes.len() {
                    nodes@[i as int] as nat
                } else {
                    bound_of(nodes@)
                }),
                in_low.wf(),
                in_low.cap() == self.adjacency@.len(),
                queue@.no_duplicates(),
                in_low@ == before(queue@, queue@.len() as int),
                forall|k: int|
                    0 <= k < queue@.len() ==> self.present@.contains(#[trigger] queue@[k] as int)
                        && degree@[queue@[k] as int] < NUM_COLORS,
                forall|x: int|
                    #[trigger] in_low@.contains(x) ==> exists|k: int| 0 <= k < i && nodes@[k] == x,
                forall|k: int|
                    0 <= k < i && degree@[#[trigger] nodes@[k] as int] < NUM_COLORS
                        ==> in_low@.contains(nodes@[k] as int),
            decreases nodes.len() - i,
        {
            let v: usize = nodes[i];
            assert(self.present@.contains(nodes@[i as int] as int));
            assert(degree@[v as int] == self.adj()[v as int].len());
            proof {
                lemma_ascending_gap(self.present@, low, true, nodes@, i + 1);
            }
            if degree[v] < NUM_COLORS {
                proof {
                    if in_low@.contains(v as int) {
                        let k = choose|k: int| 0 <= k < i && nodes@[k] == v as int;
                        assert(nodes@[k] < nodes@[i as int]);
                    }
                    lemma_queue_push(queue@, v);
                }
                let ghost old_low = in_low@;
                queue.push_back(v);
                in_low.insert(v);
                assert forall|x: int| #[trigger] in_low@.contains(x) implies exists|k: int|
                    0 <= k < i + 1 && nodes@[k] == x by {
                    if x == v {
                        assert(nodes@[i as int] == x);
                    } else {
                        assert(old_low.contains(x));
                        let k = choose|k: int| 0 <= k < i && nodes@[k] == x;
                        assert(nodes@[k] == x);
                    }
                }
            }
            i = i + 1;
        }
        assert forall|v: int|
            #![trigger degree@[v]]
            self.present@.contains(v) && degree@[v] < NUM_COLORS implies in_low@.contains(v) by {
            let k = choose|k: int| 0 <= k < nodes@.len() && nodes@[k] == v;
            assert(nodes@[k] == v);
        }
        proof {
            lemma_ascending_end(
                self.present@,
                low,
                true,
                bound_of(nodes@),
                self.adjacency@.len(),
                nodes@,
            );
        }
        (queue, in_low)
    }

    /// Removes the nodes one by one.
    fn simplify(&self) -> (r: (Vec<usize>, Bitset))
        requires
            self.wf(),
        ensures
            is_removal_order(self.adj(), self.present@, r.0@, r.1@),
            r.1.wf(),
            r.1.cap() == self.adjacency@.len(),
    {
        let n: usize = self.adjacency.len();
        let total_nodes: usize = self.present.len();
        let mut degree: Vec<usize> = Vec::new();
        let mut d: usize = 0;
        while d < n
            invariant
                d <= n,
                n == self.adjacency@.len(),
                self.wf(),
                degree.len() == d,
                forall|v: int| 0 <= v < d ==> #[trigger] degree@[v] == self.adj()[v].len(),
            decreases n - d,
        {
            degree.push(self.degree(d));
            d = d + 1;
        }
        let mut removed = Bitset::new(n);
        let (mut low_degree, mut in_low) = self.initial_queue(&degree);
        let mut stack: Vec<usize> = Vec::new();
        let mut potential_spills = Bitset::new(n);
        let ghost adj = self.adj();
        let ghost present = self.present@;
        proof {
            assert(before(stack@, 0) =~= Set::empty());
            assert(stack@ =~= Seq::empty());
            assert forall|v: int|
                #![trigger degree@[v]]
                present.contains(v) && !removed@.contains(v) implies degree@[v] == left(
                adj,
                stack@,
                0,
                v,
            ).len() by {
                assert(left(adj, stack@, 0, v) =~= adj[v]);
            }
            self.present.lemma_members_below_cap();
            assert(removed@.len() == 0);
        }
        while stack.len() < total_nodes
            invariant
                self.wf(),
                n == self.adjacency@.len(),
                adj == self.adj(),
                present == self.present@,
                present.finite(),
                total_nodes == present.len(),
                removed.wf(),
                removed.cap() == n,
                in_low.wf(),
                in_low.cap() == n,
                potential_spills.wf(),
                potential_spills.cap() == n,
                removed@.len() == stack.len(),
                removing(
                    adj,
                    present,
                    stack@,
                    potential_spills@,
                    degree@,
                    removed@,
                    in_low@,
                    low_degree@,
                ),
            decreases total_nodes - stack.len(),
        {
            let ghost spills_before = potential_spills@;
            proof {
                removed.lemma_members_below_cap();
                if forall|v: int| present.contains(v) ==> removed@.contains(v) {
                    assert(removed@ =~= present);
                }
            }
            let pick = self.pick_node(
                &mut low_degree,
                &mut in_low,
                &removed,
                &degree,
                &mut potential_spills,
                Ghost(stack@),
            );
            let ghost order = stack@;
            proof {
                lemma_before_push(order, pick, order.len() as int);
                assert forall|k: int| 0 <= k < order.len() implies order[k] != pick by {
                    if order[k] == pick {
                        assert(removed@.contains(pick as int)) by {
                            assert(order[k] == pick as int);
                        }
                    }
                }
                assert forall|k: int| 0 <= k < order.push(pick).len() implies #[trigger] well_picked(
                    adj,
                    present,
                    order.push(pick),
                    potential_spills@,
                    k,
                ) by {
                    if k < order.len() {
                        lemma_well_picked_kept(
                            adj,
                            present,
                            order,
                            spills_before,
                            pick,
                            potential_spills@,
                            k,
                        );
                    } else {
                        assert(order.push(pick)[k] == pick);
                        assert(degree@[pick as int] == left(adj, order, k, pick as int).len());
                        assert forall|u: int|
                            #![trigger present.contains(u)]
                            present.contains(u) && !before(order, k).contains(u)
                                && potential_spills@.contains(pick as int) implies NUM_COLORS
                            <= left(adj, order.push(pick), k, u).len() <= left(
                            adj,
                            order.push(pick),
                            k,
                            pick as int,
                        ).len() by {
                            assert(degree@[u] == left(adj, order, k, u).len());
                        }
                    }
                }
                assert forall|k: int| 0 <= k < order.push(pick).len() implies #[trigger] picked(
                    adj,
                    present,
                    order.push(pick),
                    potential_spills@,
                    k,
                ) by {
                    if k < order.len() {
                        assert(picked(adj, present, order, spills_before, k));
                        lemma_well_picked_kept(
                            adj,
                            present,
                            order,
                            spills_before,
                            pick,
                            potential_spills@,
                            k,
                        );
                    } else {
                        assert(order.push(pick)[k] == pick);
                        assert(order.push(pick).take(k) =~= order);
                        assert(!spills_before.contains(pick as int));
                    }
                }
                assert(order.push(pick).drop_last() =~= order);
                assert(removed@.insert(pick as int).subset_of(present));
            }
            removed.insert(pick);
            stack.push(pick);
            self.lower_degrees(
                pick,
                &mut degree,
                &removed,
                &mut low_degree,
                &mut in_low,
                Ghost(order),
                Ghost(potential_spills@),
            );
        }
        proof {
            removed.lemma_members_below_cap();
            vstd::set_lib::lemma_len_subset(removed@, present);
            vstd::set_lib::lemma_subset_equality(removed@, present);
        }
        (stack, potential_spills)
    }

    /// A node that is the removed one's neighbour has one neighbour less left.
    fn lower_degrees(
        &self,
        pick: usize,
        degree: &mut Vec<usize>,
        removed: &Bitset,
        low_degree: &mut VecDeque<usize>,
        in_low: &mut Bitset,
        Ghost(order): Ghost<Seq<usize>>,
        Ghost(spills): Ghost<Set<int>>,
    )
        requires
            self.wf(),
            removed.wf(),
            removed.cap() == self.adjacency@.len(),
            old(in_low).wf(),
            old(in_low).cap() == self.adjacency@.len(),
            self.present@.contains(pick as int),
            !before(order, order.len() as int).contains(pick as int),
            order.no_duplicates(),
            removed@ == before(order.push(pick), order.len() as int + 1),
            removed@.subset_of(self.present@),
            old(degree)@.len() == self.adjacency@.len(),
            forall|v: int|
                #![trigger old(degree)@[v]]
                self.present@.contains(v) && !before(order, order.len() as int).contains(v)
                    ==> old(degree)@[v] == left(self.adj(), order, order.len() as int, v).len(),
            old(low_degree)@.no_duplicates(),
            old(in_low)@ == before(old(low_degree)@, old(low_degree)@.len() as int),
            forall|i: int|
                0 <= i < old(low_degree)@.len() ==> self.present@.contains(
                    #[trigger] old(low_degree)@[i] as int,
                ) && !removed@.contains(old(low_degree)@[i] as int)
                    && old(degree)@[old(low_degree)@[i] as int] < NUM_COLORS,
            forall|v: int|
                #![trigger old(degree)@[v]]
                self.present@.contains(v) && !removed@.contains(v) && old(degree)@[v] < NUM_COLORS
                    ==> old(in_low)@.contains(v),
            spills.subset_of(removed@),
            forall|k: int|
                0 <= k < order.push(pick).len() ==> #[trigger] well_picked(
                    self.adj(),
                    self.present@,
                    order.push(pick),
                    spills,
                    k,
                ),
            forall|k: int|
                0 <= k < order.push(pick).len() ==> #[trigger] picked(
                    self.adj(),
                    self.present@,
                    order.push(pick),
                    spills,
                    k,
                ),
            old(low_degree)@ == popped(waiting(self.adj(), self.present@, order)),
        ensures
            final(in_low).wf(),
            final(in_low).cap() == self.adjacency@.len(),
            removing(
                self.adj(),
                self.present@,
                order.push(pick),
                spills,
                final(degree)@,
                removed@,
                final(in_low)@,
                final(low_degree)@,
            ),
    {
        let ghost adj = self.adj();
        let ghost present = self.present@;
        let ghost start = degree@;
        let ghost n = order.len() as int;
        let nodes = members(&self.adjacency[pick]);
        let ghost queue = low_degree@;
        let ghost low = newly_few(adj, order.push(pick), queue);
        proof {
            lemma_before_push(order, pick, n);
            lemma_ascending_gap(adj[pick as int], low, true, nodes@, 0);
            assert(queue + ascending(adj[pick as int], low, true, 0) =~= queue);
            assert(adj[pick as int] == self.adjacency@[pick as int]@);
            assert forall|v: int| present.contains(v) && !removed@.contains(v) implies #[trigger] left(
                adj,
                order.push(pick),
                n + 1,
                v,
            ).len() == start[v] - if adj[pick as int].contains(v) {
                1int
            } else {
                0
            } by {
                let a = left(adj, order, n, v);
                let b = left(adj, order.push(pick), n + 1, v);
                assert(start[v] == a.len());
                if adj[pick as int].contains(v) {
                    assert(adj[v].contains(pick as int));
                    assert(b =~= a.remove(pick as int));
                } else {
                    assert(!adj[v].contains(pick as int));
                    assert(b =~= a);
                }
            }
        }
        let mut i: usize = 0;
        while i < nodes.len()
            invariant
                i <= nodes.len(),
                self.wf(),
                adj == self.adj(),
                present == self.present@,
                n == order.len(),
                pick < adj.len(),
                lists(nodes@, adj[pick as int]),
                removed.wf(),
                removed.cap() == adj.len(),
                in_low.wf(),
                in_low.cap() == adj.len(),
                degree@.len() == adj.len(),
                start.len() == adj.len(),
                forall|v: int|
                    present.contains(v) && !removed@.contains(v) ==> #[trigger] left(
                        adj,
                        order.push(pick),
                        n + 1,
                        v,
                    ).len() == start[v] - if adj[pick as int].contains(v) {
                        1int
                    } else {
                        0
                    },
                forall|k: int|
                    0 <= k < i && !removed@.contains(nodes@[k] as int) ==> degree@[#[trigger] nodes@[k] as int]
                        == start[nodes@[k] as int] - 1,
                forall|v: int|
                    #![trigger degree@[v]]
                    0 <= v < adj.len() && (removed@.contains(v) || forall|k: int|
                        0 <= k < i ==> nodes@[k] != v) ==> degree@[v] == start[v],
                low == newly_few(adj, order.push(pick), queue),
                removed@ == before(order.push(pick), n + 1),
                low_degree@ == queue + ascending(adj[pick as int], low, true, if i < nodes.len() {
                    nodes@[i as int] as nat
                } else {
                    bound_of(nodes@)
                }),
                forall|x: int|
                    before(queue, queue.len() as int).contains(x) ==> #[trigger] in_low@.contains(
                        x,
                    ),
                forall|x: int| #[trigger]
                    in_low@.contains(x) ==> before(queue, queue.len() as int).contains(x)
                        || exists|k: int| 0 <= k < i && nodes@[k] == x,
                low_degree@.no_duplicates(),
                in_low@ == before(low_degree@, low_degree@.len() as int),
                forall|k: int|
                    0 <= k < low_degree@.len() ==> present.contains(
                        #[trigger] low_degree@[k] as int,
                    ) && !removed@.contains(low_degree@[k] as int)
                        && degree@[low_degree@[k] as int] < NUM_COLORS,
                forall|v: int|
                    #![trigger degree@[v]]
                    present.contains(v) && !removed@.contains(v) && degree@[v] < NUM_COLORS
                        ==> in_low@.contains(v),
            decreases nodes.len() - i,
        {
            let u: usize = nodes[i];
            assert(adj[pick as int].contains(nodes@[i as int] as int));
            assert(present.contains(u as int));
            let ghost low_before = in_low@;
            let ghost queue_before = low_degree@;
            proof {
                lemma_ascending_gap(adj[pick as int], low, true, nodes@, i + 1);
            }
            if !removed.contains(u) {
                assert(forall|k: int| 0 <= k < i ==> nodes@[k] != u);
                assert(degree@[u as int] == start[u as int]);
                assert(left(adj, order.push(pick), n + 1, u as int).len() == start[u as int] - 1);
                let ghost mid = degree@;
                let lower: usize = degree[u] - 1;
                degree.set(u, lower);
                if lower < NUM_COLORS && !in_low.contains(u) {
                    proof {
                        lemma_queue_push(low_degree@, u);
                    }
                    low_degree.push_back(u);
                    in_low.insert(u);
                }
                assert forall|v: int|
                    #![trigger degree@[v]]
                    present.contains(v) && !removed@.contains(v) && degree@[v]
                        < NUM_COLORS implies in_low@.contains(v) by {
                    if v != u {
                        assert(degree@[v] == mid[v]);
                    }
                }
                assert forall|k: int| 0 <= k < low_degree@.len() implies present.contains(
                    #[trigger] low_degree@[k] as int,
                ) && !removed@.contains(low_degree@[k] as int) && degree@[low_degree@[k] as int]
                    < NUM_COLORS by {
                    if low_degree@[k] != u {
                        assert(degree@[low_degree@[k] as int] == mid[low_degree@[k] as int]);
                    }
                }
                assert forall|k: int|
                    0 <= k < i + 1 && !removed@.contains(nodes@[k] as int) implies degree@[#[trigger] nodes@[k] as int]
                    == start[nodes@[k] as int] - 1 by {
                    if k < i {
                        assert(nodes@[k] < nodes@[i as int]);
                    }
                }
                assert forall|v: int|
                    #![trigger degree@[v]]
                    0 <= v < adj.len() && (removed@.contains(v) || forall|k: int|
                        0 <= k < i + 1 ==> nodes@[k] != v) implies degree@[v] == start[v] by {
                    if !removed@.contains(v) {
                        assert(nodes@[i as int] != v);
                    }
                    assert(v != u);
                    assert(degree@[v] == mid[v]);
                }
            }
            proof {
                assert(low_before.contains(u as int) == before(queue, queue.len() as int).contains(
                    u as int,
                )) by {
                    assert(forall|k: int| 0 <= k < i ==> nodes@[k] != u);
                }
                if low.contains(u as int) {
                    assert(low_degree@ == queue_before.push(u));
                } else {
                    assert(low_degree@ == queue_before);
                }
                assert(low_degree@ =~= queue + ascending(
                    adj[pick as int],
                    low,
                    true,
                    (u + 1) as nat,
                ));
                assert forall|x: int| #[trigger] in_low@.contains(x) implies before(
                    queue,
                    queue.len() as int,
                ).contains(x) || exists|k: int| 0 <= k < i + 1 && nodes@[k] == x by {
                    if x == u {
                        assert(nodes@[i as int] == x);
                    } else {
                        assert(low_before.contains(x));
                        if !before(queue, queue.len() as int).contains(x) {
                            let k = choose|k: int| 0 <= k < i && nodes@[k] == x;
                            assert(nodes@[k] == x);
                        }
                    }
                }
            }
            i = i + 1;
        }
        proof {
            assert forall|v: int|
                #![trigger degree@[v]]
                present.contains(v) && !removed@.contains(v) implies degree@[v] == left(
                adj,
                order.push(pick),
                n + 1,
                v,
            ).len() by {
                assert(left(adj, order.push(pick), n + 1, v).len() == start[v] - if adj[pick as int].contains(
                    v,
                ) {
                    1int
                } else {
                    0
                });
                if adj[pick as int].contains(v) {
                    let k = choose|k: int| 0 <= k < nodes@.len() && nodes@[k] == v;
                    assert(degree@[nodes@[k] as int] == start[nodes@[k] as int] - 1);
                } else {
                    assert forall|k: int| 0 <= k < i implies nodes@[k] != v by {
                        assert(adj[pick as int].contains(nodes@[k] as int));
                    }
                }
            }
            let q = order.push(pick);
            lemma_ascending_end(
                adj[pick as int],
                low,
                true,
                bound_of(nodes@),
                adj.len(),
                nodes@,
            );
            assert(q.drop_last() =~= order && q.last() == pick);
            assert(low_degree@ == waiting(adj, present, q));
            assert(q.no_duplicates()) by {
                assert forall|a: int, b: int|
                    0 <= a < q.len() && 0 <= b < q.len() && a != b implies q[a] != q[b] by {
                    if a == n {
                        if q[b] == pick {
                            assert(order[b] == pick as int);
                        }
                    } else if b == n {
                        if q[a] == pick {
                            assert(order[a] == pick as int);
                        }
                    }
                }
            }
        }
    }

    /// The node to remove next.
    fn pick_node(
        &self,
        low_degree: &mut VecDeque<usize>,
        in_low: &mut Bitset,
        removed: &Bitset,
        degree: &Vec<usize>,
        potential_spills: &mut Bitset,
        Ghost(order): Ghost<Seq<usize>>,
    ) -> (v: usize)
        requires
            self.wf(),
            removed.wf(),
            removed.cap() == self.adjacency@.len(),
            old(in_low).wf(),
            old(in_low).cap() == self.adjacency@.len(),
            old(potential_spills).wf(),
            old(potential_spills).cap() == self.adjacency@.len(),
            removing(
                self.adj(),
                self.present@,
                order,
                old(potential_spills)@,
                degree@,
                removed@,
                old(in_low)@,
                old(low_degree)@,
            ),
            exists|u: int| self.present@.contains(u) && !removed@.contains(u),
        ensures
            self.present@.contains(v as int),
            !removed@.contains(v as int),
            v < self.adjacency@.len(),
            final(in_low).wf(),
            final(in_low).cap() == self.adjacency@.len(),
            final(potential_spills).wf(),
            final(potential_spills).cap() == self.adjacency@.len(),
            final(low_degree)@.no_duplicates(),
            final(in_low)@ == before(final(low_degree)@, final(low_degree)@.len() as int),
            forall|i: int|
                0 <= i < final(low_degree)@.len() ==> self.present@.contains(
                    #[trigger] final(low_degree)@[i] as int,
                ) && !removed@.contains(final(low_degree)@[i] as int)
                    && final(low_degree)@[i] != v && degree@[final(low_degree)@[i] as int]
                    < NUM_COLORS,
            forall|u: int|
                #![trigger degree@[u]]
                self.present@.contains(u) && !removed@.contains(u) && u != v && degree@[u]
                    < NUM_COLORS ==> final(in_low)@.contains(u),
            if degree@[v as int] < NUM_COLORS {
                final(potential_spills)@ == old(potential_spills)@
            } else {
                &&& final(potential_spills)@ == old(potential_spills)@.insert(v as int)
                &&& forall|u: int|
                    #![trigger degree@[u]]
                    self.present@.contains(u) && !removed@.contains(u) ==> NUM_COLORS <= degree@[u]
                        <= degree@[v as int]
            },
            final(low_degree)@ == popped(old(low_degree)@),
            if old(low_degree)@.len() > 0 {
                v == old(low_degree)@[0] && final(potential_spills)@ == old(potential_spills)@
            } else {
                &&& busiest(self.adj(), self.present@, order, order.len() as int, v as int)
                &&& final(potential_spills)@ == old(potential_spills)@.insert(v as int)
            },
    {
        match low_degree.pop_front() {
            Some(v) => {
                proof {
                    lemma_queue_pop(old(low_degree)@);
                    let queue = old(low_degree)@;
                    assert(queue[0] == v);
                    assert(old(in_low)@.contains(v as int)) by {
                        assert(queue[0] == v as int);
                    }
                    assert forall|i: int| 0 <= i < low_degree@.len() implies self.present@.contains(
                        #[trigger] low_degree@[i] as int,
                    ) && !removed@.contains(low_degree@[i] as int) && low_degree@[i] != v
                        && degree@[low_degree@[i] as int] < NUM_COLORS by {
                        assert(low_degree@[i] == queue[i + 1]);
                        assert(queue[i + 1] != queue[0]);
                    }
                }
                in_low.remove(v);
                return v;
            },
            None => {},
        }
        let nodes = members(&self.present);
        let mut best: Option<usize> = None;
        let mut i: usize = 0;
        while i < nodes.len()
            invariant
                i <= nodes.len(),
                self.wf(),
                removed.wf(),
                removed.cap() == self.adjacency@.len(),
                degree.len() == self.adjacency@.len(),
                lists(nodes@, self.present@),
                match best {
                    None => forall|k: int|
                        0 <= k < i ==> removed@.contains(#[trigger] nodes@[k] as int),
                    Some(b) => self.present@.contains(b as int) && !removed@.contains(b as int)
                        && forall|k: int|
                        0 <= k < i && !removed@.contains(nodes@[k] as int)
                            ==> degree@[#[trigger] nodes@[k] as int] < degree@[b as int] || (
                        degree@[nodes@[k] as int] == degree@[b as int] && nodes@[k] <= b),
                },
            decreases nodes.len() - i,
        {
            let u: usize = nodes[i];
            assert(self.present@.contains(nodes@[i as int] as int));
            if !removed.contains(u) {
                match best {
                    None => {
                        best = Some(u);
                    },
                    Some(b) => {
                        assert(self.present@.contains(b as int));
                        if degree[u] >= degree[b] {
                            proof {
                                assert forall|k: int|
                                    0 <= k < i + 1 && !removed@.contains(
                                        nodes@[k] as int,
                                    ) implies degree@[#[trigger] nodes@[k] as int]
                                    < degree@[u as int] || (degree@[nodes@[k] as int]
                                    == degree@[u as int] && nodes@[k] <= u) by {
                                    if k < i {
                                        assert(nodes@[k] < nodes@[i as int]);
                                    }
                                }
                            }
                            best = Some(u);
                        }
                    },
                }
            }
            i = i + 1;
        }
        proof {
            let u = choose|u: int| self.present@.contains(u) && !removed@.contains(u);
            let k = choose|k: int| 0 <= k < nodes@.len() && nodes@[k] == u;
            assert(!removed@.contains(nodes@[k] as int));
        }
        let v: usize = best.unwrap();
        potential_spills.insert(v);
        proof {
            assert forall|u: int|
                #![trigger degree@[u]]
                self.present@.contains(u) && !removed@.contains(u) implies NUM_COLORS <= degree@[u]
                <= degree@[v as int] by {
                let k = choose|k: int| 0 <= k < nodes@.len() && nodes@[k] == u;
                assert(degree@[nodes@[k] as int] <= degree@[v as int]);
                if degree@[u] < NUM_COLORS {
                    assert(in_low@.contains(u));
                }
            }
            assert(degree@[v as int] >= NUM_COLORS);
            let n = order.len() as int;
            assert forall|u: int|
                #![trigger self.present@.contains(u)]
                self.present@.contains(u) && !before(order, n).contains(u) implies left(
                self.adj(),
                order,
                n,
                u,
            ).len() < left(self.adj(), order, n, v as int).len() || (left(
                self.adj(),
                order,
                n,
                u,
            ).len() == left(self.adj(), order, n, v as int).len() && u <= v) by {
                let k = choose|k: int| 0 <= k < nodes@.len() && nodes@[k] == u;
                assert(!removed@.contains(nodes@[k] as int));
                assert(degree@[u] == left(self.adj(), order, n, u).len());
                assert(degree@[v as int] == left(self.adj(), order, n, v as int).len());
            }
        }
        v
    }

    /// Gives the nodes their colours, in reverse order of removal.
    fn select(&self, stack: Vec<usize>, potential_spills: Bitset) -> (result: Coloring)
        requires
            self.wf(),
            potential_spills.wf(),
            is_removal_order(self.adj(), self.present@, stack@, potential_spills@),
        ensures
            is_greedy(self.adj(), stack@, result.colors@),
            result.spilled@ == spill_order(
                uncolored(self.present@, result.colors@),
                potential_spills@,
                self.adjacency@.len(),
            ),
    {
        let ghost adj = self.adj();
        let ghost order = stack@;
        let n: usize = stack.len();
        let mut colors: HashMap<usize, u8> = HashMap::new();
        let mut spilled = Bitset::new(self.adjacency.len());
        let mut k: usize = n;
        while k > 0
            invariant
                k <= n,
                n == order.len(),
                order == stack@,
                adj == self.adj(),
                self.wf(),
                is_removal_order(self.adj(), self.present@, order, potential_spills@),
                spilled.wf(),
                spilled.cap() == adj.len(),
                forall|v: usize|
                    #[trigger] colors@.contains_key(v) ==> exists|j: int|
                        k <= j < n && order[j] == v,
                forall|x: int|
                    #[trigger] spilled@.contains(x) <==> exists|j: int|
                        k <= j < n && order[j] == x && !colors@.contains_key(order[j]),
                forall|j: int| k <= j < n ==> #[trigger] greedily_colored(adj, order, colors@, j),
            decreases k,
        {
            k = k - 1;
            let v: usize = stack[k];
            assert(self.present@.contains(v as int)) by {
                assert(before(order, n as int).contains(v as int)) by {
                    assert(order[k as int] == v as int);
                }
            }
            let used = self.used_colors(v, &colors, Ghost(order), Ghost(k as int));
            let mut c: u8 = FIRST_COLOR;
            while c < COLORS_END && used[(c - FIRST_COLOR) as usize]
                invariant
                    FIRST_COLOR <= c <= COLORS_END,
                    used.len() == NUM_COLORS,
                    forall|d: int|
                        FIRST_COLOR <= d < c ==> used@[#[trigger] (d - FIRST_COLOR)],
                decreases COLORS_END - c,
            {
                c = c + 1;
            }
            let ghost prior = colors@;
            let ghost prior_spilled = spilled@;
            proof {
                assert forall|d: int| FIRST_COLOR <= d < c implies #[trigger] taken(
                    adj,
                    order,
                    prior,
                    k as int,
                    d,
                ) by {
                    assert(used@[d - FIRST_COLOR]);
                }
                if prior.contains_key(v) {
                    let j = choose|j: int| k + 1 <= j < n && order[j] == v;
                    assert(order[j] == order[k as int]);
                }
            }
            if c < COLORS_END {
                colors.insert(v, c);
            } else {
                spilled.insert(v);
            }
            proof {
                assert(!prior.contains_key(v));
                lemma_taken_kept(adj, order, prior, colors@, k as int, v);
                assert(greedily_colored(adj, order, colors@, k as int)) by {
                    if c < COLORS_END {
                        assert(!used@[c - FIRST_COLOR]);
                        assert(!taken(adj, order, prior, k as int, c as int));
                    }
                }
                assert forall|j: int| k <= j < n implies #[trigger] greedily_colored(
                    adj,
                    order,
                    colors@,
                    j,
                ) by {
                    if j > k {
                        assert(greedily_colored(adj, order, prior, j));
                        assert(order[j] != v);
                        lemma_taken_kept(adj, order, prior, colors@, j, v);
                    }
                }
                assert forall|w: usize| #[trigger] colors@.contains_key(w) implies exists|j: int|
                    k <= j < n && order[j] == w by {
                    if w == v {
                        assert(order[k as int] == w);
                    } else {
                        let j = choose|j: int| k + 1 <= j < n && order[j] == w;
                        assert(order[j] == w);
                    }
                }
                assert forall|x: int| #[trigger] spilled@.contains(x) <==> exists|j: int|
                    k <= j < n && order[j] == x && !colors@.contains_key(order[j]) by {
                    if x == v {
                        assert(order[k as int] == x);
                        if exists|j: int|
                            k <= j < n && order[j] == x && !colors@.contains_key(order[j]) {
                            assert(!colors@.contains_key(v));
                        }
                        if prior_spilled.contains(x) {
                            let j = choose|j: int|
                                k + 1 <= j < n && order[j] == x && !prior.contains_key(order[j]);
                            assert(order[j] == order[k as int]);
                        }
                    } else {
                        if prior_spilled.contains(x) {
                            let j = choose|j: int|
                                k + 1 <= j < n && order[j] == x && !prior.contains_key(order[j]);
                            assert(!colors@.contains_key(order[j]));
                        }
                        if exists|j: int|
                            k <= j < n && order[j] == x && !colors@.contains_key(order[j]) {
                            let j = choose|j: int|
                                k <= j < n && order[j] == x && !colors@.contains_key(order[j]);
                            assert(j != k);
                            assert(!prior.contains_key(order[j]));
                        }
                    }
                }
            }
        }
        proof {
            assert forall|v: usize| #[trigger] colors@.contains_key(v) implies before(
                order,
                n as int,
            ).contains(v as int) by {
                let j = choose|j: int| 0 <= j < n && order[j] == v;
                assert(order[j] == v as int);
            }
            let present = self.present@;
            let un = uncolored(present, colors@);
            assert forall|x: int| spilled@.contains(x) == un.contains(x) by {
                if spilled@.contains(x) {
                    let j = choose|j: int|
                        0 <= j < n && order[j] == x && !colors@.contains_key(order[j]);
                    assert(before(order, n as int).contains(x));
                }
                if un.contains(x) {
                    assert(before(order, n as int).contains(x));
                    let j = choose|j: int| 0 <= j < n && j < order.len() && order[j] == x;
                    assert(order[j] == x && !colors@.contains_key(order[j]));
                }
            }
            assert(spilled@ =~= un);
        }
        let spilled = sorted_spills(&spilled, &potential_spills);
        Coloring { colors, spilled }
    }

    fn used_colors(
        &self,
        v: usize,
        colors: &HashMap<usize, u8>,
        Ghost(order): Ghost<Seq<usize>>,
        Ghost(k): Ghost<int>,
    ) -> (used: Vec<bool>)
        requires
            self.wf(),
            0 <= k < order.len(),
            order[k] == v,
            v < self.adjacency@.len(),
            order.no_duplicates(),
            forall|w: usize|
                #[trigger] colors@.contains_key(w) ==> exists|j: int|
                    k < j < order.len() && order[j] == w,
            forall|j: int|
                k < j < order.len() ==> #[trigger] greedily_colored(
                    self.adj(),
                    order,
                    colors@,
                    j,
                ),
        ensures
            used.len() == NUM_COLORS,
            forall|c: int|
                0 <= c < NUM_COLORS ==> #[trigger] used@[c] == taken(
                    self.adj(),
                    order,
                    colors@,
                    k,
                    c + FIRST_COLOR,
                ),
    {
        let ghost adj = self.adj();
        let mut used: Vec<bool> = vec![false; NUM_COLORS];
        let nodes = members(&self.adjacency[v]);
        let mut i: usize = 0;
        while i < nodes.len()
            invariant
                i <= nodes.len(),
                adj == self.adj(),
                lists(nodes@, adj[v as int]),
                used.len() == NUM_COLORS,
                0 <= k < order.len(),
                order[k] == v,
                forall|w: usize|
                    #[trigger] colors@.contains_key(w) ==> exists|j: int|
                        k < j < order.len() && order[j] == w,
                forall|j: int|
                    k < j < order.len() ==> #[trigger] greedily_colored(adj, order, colors@, j),
                forall|c: int|
                    0 <= c < NUM_COLORS ==> #[trigger] used@[c] == exists|e: int|
                        0 <= e < i && colors@.contains_key(nodes@[e]) && colors@[nodes@[e]] == c
                            + FIRST_COLOR,
            decreases nodes.len() - i,
        {
            let ghost prior = used@;
            if let Some(c) = colors.get(&nodes[i]) {
                proof {
                    let w = nodes@[i as int];
                    let j = choose|j: int| k < j < order.len() && order[j] == w;
                    assert(greedily_colored(adj, order, colors@, j));
                }
                used.set((*c - FIRST_COLOR) as usize, true);
            }
            assert forall|c: int| 0 <= c < NUM_COLORS implies #[trigger] used@[c] == exists|e: int|
                0 <= e < i + 1 && colors@.contains_key(nodes@[e]) && colors@[nodes@[e]] == c
                    + FIRST_COLOR by {
                if used@[c] {
                    if prior[c] {
                        let e = choose|e: int|
                            0 <= e < i && colors@.contains_key(nodes@[e]) && colors@[nodes@[e]] == c
                                + FIRST_COLOR;
                        assert(0 <= e < i + 1 && colors@.contains_key(nodes@[e]));
                    } else {
                        assert(colors@.contains_key(nodes@[i as int]) && colors@[nodes@[i as int]]
                            == c + FIRST_COLOR);
                    }
                }
                if exists|e: int|
                    0 <= e < i + 1 && colors@.contains_key(nodes@[e]) && colors@[nodes@[e]] == c
                        + FIRST_COLOR {
                    let e = choose|e: int|
                        0 <= e < i + 1 && colors@.contains_key(nodes@[e]) && colors@[nodes@[e]] == c
                            + FIRST_COLOR;
                    if e < i {
                        assert(prior[c]);
                    }
                }
            }
            i = i + 1;
        }
        proof {
            assert(adj[v as int] == self.adjacency@[v as int]@);
            assert forall|c: int| 0 <= c < NUM_COLORS implies #[trigger] used@[c] == taken(
                adj,
                order,
                colors@,
                k,
                c + FIRST_COLOR,
            ) by {
                if used@[c] {
                    let e = choose|e: int|
                        0 <= e < i && colors@.contains_key(nodes@[e]) && colors@[nodes@[e]] == c
                            + FIRST_COLOR;
                    let w = nodes@[e];
                    let j = choose|j: int| k < j < order.len() && order[j] == w;
                    assert(adj[order[k] as int].contains(order[j] as int));
                }
                if taken(adj, order, colors@, k, c + FIRST_COLOR) {
                    let j = choose|j: int|
                        k < j < order.len() && adj[order[k] as int].contains(
                            #[trigger] order[j] as int,
                        ) && colors@.contains_key(order[j]) && colors@[order[j]] == c + FIRST_COLOR;
                    let e = choose|e: int| 0 <= e < nodes@.len() && nodes@[e] == order[j] as int;
                    assert(colors@.contains_key(nodes@[e]));
                }
            }
        }
        used
    }
}

proof fn lemma_taken_kept(
    adj: Seq<Set<int>>,
    order: Seq<usize>,
    a: Map<usize, u8>,
    b: Map<usize, u8>,
    k: int,
    v: usize,
)
    requires
        0 <= k < order.len(),
        forall|j: int| k < j < order.len() ==> #[trigger] order[j] != v,
        forall|w: usize|
            w != v ==> #[trigger] a.contains_key(w) == b.contains_key(w) && a[w] == b[w],
    ensures
        forall|c: int|
            #![trigger taken(adj, order, a, k, c)]
            #![trigger taken(adj, order, b, k, c)]
            taken(adj, order, a, k, c) == taken(adj, order, b, k, c),
{
    assert forall|c: int|
        #![trigger taken(adj, order, a, k, c)]
        #![trigger taken(adj, order, b, k, c)]
        taken(adj, order, a, k, c) == taken(adj, order, b, k, c) by {
        if taken(adj, order, a, k, c) {
            let j = choose|j: int|
                k < j < order.len() && adj[order[k] as int].contains(#[trigger] order[j] as int)
                    && a.contains_key(order[j]) && a[order[j]] == c;
            assert(b.contains_key(order[j]) && b[order[j]] == c);
        }
        if taken(adj, order, b, k, c) {
            let j = choose|j: int|
                k < j < order.len() && adj[order[k] as int].contains(#[trigger] order[j] as int)
                    && b.contains_key(order[j]) && b[order[j]] == c;
            assert(a.contains_key(order[j]) && a[order[j]] == c);
        }
    }
}

/// The members of `s`, all of which are below `n`: those in `first` before
/// the others.
pub open spec fn spill_order(s: Set<int>, first: Set<int>, n: nat) -> Seq<usize> {
    ascending(s, first, true, n) + ascending(s, first, false, n)
}

fn sorted_spills(spilled: &Bitset, first: &Bitset) -> (v: Vec<usize>)
    requires
        spilled.wf(),
        first.wf(),
    ensures
        v@ == spill_order(spilled@, first@, spilled.cap()),
{
    let nodes = members(spilled);
    let mut out: Vec<usize> = Vec::new();
    let ghost s = spilled@;
    let ghost f = first@;
    let mut i: usize = 0;
    proof {
        lemma_ascending_gap(s, f, true, nodes@, 0);
    }
    while i < nodes.len()
        invariant
            i <= nodes.len(),
            first.wf(),
            f == first@,
            lists(nodes@, s),
            out@ == ascending(s, f, true, if i < nodes.len() {
                nodes@[i as int] as nat
            } else {
                bound_of(nodes@)
            }),
        decreases nodes.len() - i,
    {
        let ghost x = nodes@[i as int];
        assert(s.contains(nodes@[i as int] as int));
        if first.contains(nodes[i]) {
            out.push(nodes[i]);
        }
        assert(out@ == ascending(s, f, true, (x + 1) as nat));
        proof {
            lemma_ascending_gap(s, f, true, nodes@, i + 1);
        }
        i = i + 1;
    }
    let ghost firsts = out@;
    let mut j: usize = 0;
    proof {
        lemma_ascending_gap(s, f, false, nodes@, 0);
        assert(firsts + Seq::<usize>::empty() =~= firsts);
    }
    while j < nodes.len()
        invariant
            j <= nodes.len(),
            first.wf(),
            f == first@,
            lists(nodes@, s),
            out@ == firsts + ascending(s, f, false, if j < nodes.len() {
                nodes@[j as int] as nat
            } else {
                bound_of(nodes@)
            }),
        decreases nodes.len() - j,
    {
        let ghost x = nodes@[j as int];
        assert(s.contains(nodes@[j as int] as int));
        let ghost prior = out@;
        if !first.contains(nodes[j]) {
            out.push(nodes[j]);
        }
        assert(out@ =~= firsts + ascending(s, f, false, (x + 1) as nat));
        proof {
            lemma_ascending_gap(s, f, false, nodes@, j + 1);
        }
        j = j + 1;
    }
    proof {
        spilled.lemma_members_below_cap();
        lemma_ascending_end(s, f, true, bound_of(nodes@), spilled.cap(), nodes@);
        lemma_ascending_end(s, f, false, bound_of(nodes@), spilled.cap(), nodes@);
    }
    out
}

/// The number behind the last of a list.
spec fn bound_of(nodes: Seq<usize>) -> nat {
    if nodes.len() == 0 {
        0
    } else {
        (nodes.last() + 1) as nat
    }
}

/// Between two neighbours in the list no number is listed.
proof fn lemma_ascending_gap(
    s: Set<int>,
    first: Set<int>,
    wanted: bool,
    nodes: Seq<usize>,
    i: int,
)
    requires
        lists(nodes, s),
        0 <= i <= nodes.len(),
    ensures
        ascending(
            s,
            first,
            wanted,
            if i == 0 {
                0
            } else {
                (nodes[i - 1] + 1) as nat
            },
        ) == ascending(
            s,
            first,
            wanted,
            if i < nodes.len() {
                nodes[i] as nat
            } else {
                bound_of(nodes)
            },
        ),
{
    if i < nodes.len() {
        let a: nat = if i == 0 {
            0
        } else {
            (nodes[i - 1] + 1) as nat
        };
        let b = nodes[i] as nat;
        assert forall|x: int| a <= x < b implies !s.contains(x) by {
            if s.contains(x) {
                let k = choose|k: int| 0 <= k < nodes.len() && nodes[k] == x;
                if k < i {
                    if k < i - 1 {
                        assert(nodes[k] < nodes[i - 1]);
                    }
                } else if k > i {
                    assert(nodes[i] < nodes[k]);
                }
            }
        }
        if i > 0 {
            assert(nodes[i - 1] < nodes[i]);
        }
        lemma_ascending_skip(s, first, wanted, a, b);
    }
}

proof fn lemma_ascending_skip(s: Set<int>, first: Set<int>, wanted: bool, a: nat, b: nat)
    requires
        a <= b,
        forall|x: int| a <= x < b ==> !s.contains(x),
    ensures
        ascending(s, first, wanted, a) == ascending(s, first, wanted, b),
    decreases b,
{
    if a < b {
        lemma_ascending_skip(s, first, wanted, a, (b - 1) as nat);
    }
}

proof fn lemma_ascending_end(
    s: Set<int>,
    first: Set<int>,
    wanted: bool,
    a: nat,
    b: nat,
    nodes: Seq<usize>,
)
    requires
        lists(nodes, s),
        a == bound_of(nodes),
        forall|x: int| s.contains(x) ==> 0 <= x < b,
    ensures
        ascending(s, first, wanted, a) == ascending(s, first, wanted, b),
{
    if nodes.len() > 0 {
        assert(s.contains(nodes.last() as int));
    }
    assert forall|x: int| a <= x < b implies !s.contains(x) by {
        if s.contains(x) {
            let k = choose|k: int| 0 <= k < nodes.len() && nodes[k] == x;
            if k < nodes.len() - 1 {
                assert(nodes[k] < nodes[nodes.len() - 1]);
            }
        }
    }
    lemma_ascending_skip(s, first, wanted, a, b);
}

} // verus!
