//! Which value of a promoted variable is seen where: the phis make it the
//! same on all paths.

use super::alloca_analysis::{occurs, stores};
use super::dominator::{
    above, depth, dominates_node, has_edge, in_frontier, is_idom, is_idom_table, is_walk,
    lemma_depth, lemma_dominance_antisymmetric, lemma_dominance_transitive,
    lemma_dominates_preds, lemma_dominator_reachable, lemma_entry_reachable, lemma_extend_walk,
    lemma_prefix_walk, reachable, strictly_dominates, walks_to,
};
use super::phi_placement::{
    gen_sets, kill_sets, lemma_phis_suffice, live_at, meets, needs_phi, phi_set,
};
use crate::common::graph::reaches_use;
use crate::ir::function::BlockModel;
use crate::ir::stmt::OperandRole;
use vstd::prelude::*;

verus! {

/// Where a value of a variable comes from.
pub enum Version {
    /// Nothing was stored.
    Undefined,
    /// The phi of the block.
    Phi(int),
    /// The last store of the block.
    Stored(int),
}

/// The version of `v` at the start of block `b`: that of its phi, else that
/// at the end of its immediate dominator.
pub open spec fn on_entry(
    blocks: Seq<BlockModel>,
    succ: Seq<Seq<usize>>,
    idom: Seq<Option<usize>>,
    v: nat,
    b: int,
) -> Version
    decreases depth(succ, b), 0nat,
{
    if needs_phi(blocks, succ, v, b) {
        Version::Phi(b)
    } else {
        match idom[b] {
            Some(d) => if depth(succ, d as int) < depth(succ, b) {
                on_exit(blocks, succ, idom, v, d as int)
            } else {
                Version::Undefined
            },
            None => Version::Undefined,
        }
    }
}

/// The version of `v` at the end of block `b`.
pub open spec fn on_exit(
    blocks: Seq<BlockModel>,
    succ: Seq<Seq<usize>>,
    idom: Seq<Option<usize>>,
    v: nat,
    b: int,
) -> Version
    decreases depth(succ, b), 1nat,
{
    if stores(blocks[b], v) {
        Version::Stored(b)
    } else {
        on_entry(blocks, succ, idom, v, b)
    }
}

/// The version of `v` that a walk has seen last when it comes to its block at
/// position `k`.
pub open spec fn seen(
    blocks: Seq<BlockModel>,
    succ: Seq<Seq<usize>>,
    v: nat,
    path: Seq<int>,
    k: nat,
) -> Version
    decreases k,
{
    if needs_phi(blocks, succ, v, path[k as int]) {
        Version::Phi(path[k as int])
    } else if k == 0 {
        Version::Undefined
    } else if stores(blocks[path[k - 1]], v) {
        Version::Stored(path[k - 1])
    } else {
        seen(blocks, succ, v, path, (k - 1) as nat)
    }
}

/// The version at the end of the immediate dominator of `b`.
spec fn ends_with(
    blocks: Seq<BlockModel>,
    succ: Seq<Seq<usize>>,
    idom: Seq<Option<usize>>,
    v: nat,
    b: int,
) -> Version {
    match idom[b] {
        Some(d) => on_exit(blocks, succ, idom, v, d as int),
        None => Version::Undefined,
    }
}

/// The entry is dominated by itself alone.
proof fn lemma_above_entry(succ: Seq<Seq<usize>>, x: int)
    requires
        succ.len() > 0,
        dominates_node(succ, x, 0),
    ensures
        x == 0,
{
    lemma_entry_reachable(succ);
    let path = seq![0int];
    assert(path.contains(x));
    let i = choose|i: int| 0 <= i < path.len() && path[i] == x;
    assert(path[i] == 0);
}

/// A block between a predecessor and the immediate dominator of `b` has `b`
/// in its frontier.
proof fn lemma_between(
    succ: Seq<Seq<usize>>,
    idom: Seq<Option<usize>>,
    q: int,
    b: int,
    x: int,
)
    requires
        is_idom_table(succ, idom),
        0 <= q < succ.len(),
        0 <= b < succ.len(),
        reachable(succ, q),
        reachable(succ, b),
        has_edge(succ, q, b),
        dominates_node(succ, x, q),
        match idom[b] {
            Some(d) => dominates_node(succ, d as int, x) && d as int != x,
            None => true,
        },
    ensures
        in_frontier(succ, x, b),
{
    lemma_dominator_reachable(succ, x, q);
    if strictly_dominates(succ, x, b) {
        match idom[b] {
            Some(d) => {
                assert(is_idom(succ, d as int, b));
                lemma_dominator_reachable(succ, d as int, b);
                lemma_dominance_antisymmetric(succ, d as int, x);
            },
            None => {
                assert(b == 0);
                lemma_above_entry(succ, x);
            },
        }
    }
    assert(above(succ, x, q));
}

/// Such a block neither stores the variable nor has a phi for it, where `b`
/// needs the variable and has no phi.
proof fn lemma_nothing_between(
    blocks: Seq<BlockModel>,
    succ: Seq<Seq<usize>>,
    v: nat,
    b: int,
    x: int,
)
    requires
        occurs(blocks, v, OperandRole::LoadPtr),
        0 <= x < blocks.len(),
        0 <= b < blocks.len(),
        live_at(blocks, succ, v, b),
        !needs_phi(blocks, succ, v, b),
        in_frontier(succ, x, b),
    ensures
        !stores(blocks[x], v),
        !needs_phi(blocks, succ, v, x),
{
    let s = phi_set(blocks, succ, v);
    lemma_phis_suffice(blocks, succ, v);
    if stores(blocks[x], v) || needs_phi(blocks, succ, v, x) {
        assert(s.contains(x) == needs_phi(blocks, succ, v, x));
        assert(meets(blocks, succ, v, s, x, b));
        assert(s.contains(b));
    }
}

/// Going up from a predecessor `q` of a block without phi, no version changes
/// below the block's immediate dominator.
proof fn lemma_going_up(
    blocks: Seq<BlockModel>,
    succ: Seq<Seq<usize>>,
    idom: Seq<Option<usize>>,
    v: nat,
    q: int,
    b: int,
    x: int,
)
    requires
        blocks.len() == succ.len(),
        is_idom_table(succ, idom),
        occurs(blocks, v, OperandRole::LoadPtr),
        0 <= q < succ.len(),
        0 <= b < succ.len(),
        reachable(succ, q),
        reachable(succ, b),
        has_edge(succ, q, b),
        live_at(blocks, succ, v, b),
        !needs_phi(blocks, succ, v, b),
        dominates_node(succ, x, q),
        idom[b] matches Some(d) ==> dominates_node(succ, d as int, x),
    ensures
        on_exit(blocks, succ, idom, v, x) == ends_with(blocks, succ, idom, v, b),
    decreases depth(succ, x),
{
    lemma_dominator_reachable(succ, x, q);
    let at_top = match idom[b] {
        Some(d) => d as int == x,
        None => false,
    };
    if !at_top {
        lemma_between(succ, idom, q, b, x);
        lemma_nothing_between(blocks, succ, v, b, x);
        lemma_depth(succ, idom, x);
        match idom[x] {
            Some(y) => {
                assert(is_idom(succ, y as int, x));
                lemma_dominance_transitive(succ, y as int, x, q);
                match idom[b] {
                    Some(d) => {
                        assert(strictly_dominates(succ, d as int, x));
                    },
                    None => {},
                }
                lemma_going_up(blocks, succ, idom, v, q, b, y as int);
            },
            None => {
                match idom[b] {
                    Some(d) => {
                        lemma_above_entry(succ, d as int);
                    },
                    None => {},
                }
            },
        }
    }
}

/// Along every edge to a block without phi where the variable is needed, the
/// version stays the same.
pub proof fn lemma_edges_agree(
    blocks: Seq<BlockModel>,
    succ: Seq<Seq<usize>>,
    idom: Seq<Option<usize>>,
    v: nat,
    q: int,
    b: int,
)
    requires
        blocks.len() == succ.len(),
        is_idom_table(succ, idom),
        occurs(blocks, v, OperandRole::LoadPtr),
        0 <= q < succ.len(),
        0 <= b < succ.len(),
        reachable(succ, q),
        has_edge(succ, q, b),
        live_at(blocks, succ, v, b),
        !needs_phi(blocks, succ, v, b),
    ensures
        on_exit(blocks, succ, idom, v, q) == on_entry(blocks, succ, idom, v, b),
{
    let path = choose|path: Seq<int>| walks_to(succ, path, q);
    lemma_extend_walk(succ, path, q, b);
    assert(walks_to(succ, path.push(b), b));
    lemma_depth(succ, idom, b);
    match idom[b] {
        Some(d) => {
            assert(is_idom(succ, d as int, b));
            lemma_dominates_preds(succ, d as int, q, b);
        },
        None => {},
    }
    assert(dominates_node(succ, q, q)) by {
        assert forall|w: Seq<int>| #[trigger] walks_to(succ, w, q) implies w.contains(q) by {
            assert(w[w.len() - 1] == q);
        }
    }
    lemma_going_up(blocks, succ, idom, v, q, b, q);
}

/// A variable that is needed at the end of a block is needed at its start,
/// unless the block stores it.
proof fn lemma_live_before(
    blocks: Seq<BlockModel>,
    succ: Seq<Seq<usize>>,
    v: nat,
    a: int,
    b: int,
)
    requires
        blocks.len() == succ.len(),
        0 <= a < succ.len(),
        has_edge(succ, a, b),
        live_at(blocks, succ, v, b),
        !stores(blocks[a], v),
    ensures
        live_at(blocks, succ, v, a),
{
    let gen = gen_sets(blocks, v);
    let kill = kill_sets(blocks, v);
    let path = choose|path: Seq<int>| reaches_use(succ, gen, kill, b, 0, path);
    let longer = seq![a] + path;
    assert(longer.drop_first() =~= path);
    let k = choose|k: int| 0 <= k < succ[a].len() && #[trigger] succ[a][k] == b;
    assert(succ[a][k] == b as usize);
    assert(reaches_use(succ, gen, kill, a, 0, longer));
}

/// On every walk from the entry, a block where the variable is needed sees
/// the version that it has at the start of the block.
pub proof fn lemma_walks_agree(
    blocks: Seq<BlockModel>,
    succ: Seq<Seq<usize>>,
    idom: Seq<Option<usize>>,
    v: nat,
    path: Seq<int>,
    k: nat,
)
    requires
        blocks.len() == succ.len(),
        is_idom_table(succ, idom),
        occurs(blocks, v, OperandRole::LoadPtr),
        is_walk(succ, path),
        path[0] == 0,
        k < path.len(),
        live_at(blocks, succ, v, path[k as int]),
    ensures
        seen(blocks, succ, v, path, k) == on_entry(blocks, succ, idom, v, path[k as int]),
    decreases k,
{
    let b = path[k as int];
    if !needs_phi(blocks, succ, v, b) && k > 0 {
        let a = path[k - 1];
        assert(has_edge(succ, path[k - 1], path[k - 1 + 1]));
        assert(walks_to(succ, path, path.last()));
        lemma_prefix_walk(succ, path, path.last(), k - 1);
        assert(reachable(succ, a));
        lemma_edges_agree(blocks, succ, idom, v, a, b);
        if !stores(blocks[a], v) {
            lemma_live_before(blocks, succ, v, a, b);
            lemma_walks_agree(blocks, succ, idom, v, path, (k - 1) as nat);
        }
    }
}

} // verus!
