//! What renaming makes of every block: the values that reach it come from its
//! immediate dominator, and its own reach every phi behind its edges.

use super::dominator::{
    children_below, depth, is_idom, is_idom_table, lemma_children, lemma_depth,
    lemma_dominator_reachable, lemma_roots, reachable, roots_below,
};
use super::mem2reg::{
    block_done, block_step, cleared, enter, feed, phi_stmts, promoted_blocks, rename_block,
    rename_children, rename_roots, rename_stmts, slot, unrenamed, value_at, without, Plan, Renaming,
    Step,
};
use crate::common::graph::rows_in_range;
use crate::ir::function::LabelModel;
use crate::ir::stmt::StmtModel;
use crate::ir::value::OperandModel;
use vstd::prelude::*;

verus! {

/// The values of the promoted variables, and what the results of removed
/// loads stand for.
pub struct Values {
    pub current: Seq<Option<OperandModel>>,
    pub alias: Map<usize, OperandModel>,
}

/// Block `b` renamed, when the given values reach it.
pub open spec fn step_at(p: Plan, w: Values, b: int) -> Step {
    rename_stmts(
        p.vars,
        Step {
            current: enter(p.vars, w.current, p.phis[b], p.phis[b].len()),
            alias: w.alias,
            added: Seq::empty(),
            out: Seq::empty(),
        },
        p.blocks[b].stmts,
    )
}

/// The values that reach block `b`: those at the end of its immediate
/// dominator; none at a block that has none.
pub open spec fn before(p: Plan, b: int) -> Values
    decreases depth(p.succ, b), 0nat,
{
    match p.idom[b] {
        Some(d) => if depth(p.succ, d as int) < depth(p.succ, b) {
            after(p, d as int)
        } else {
            Values { current: Seq::new(p.vars.len(), |i: int| None), alias: Map::empty() }
        },
        None => Values { current: Seq::new(p.vars.len(), |i: int| None), alias: Map::empty() },
    }
}

/// The values at the end of block `b`.
pub open spec fn after(p: Plan, b: int) -> Values
    decreases depth(p.succ, b), 1nat,
{
    let s = step_at(p, before(p, b), b);
    Values { current: s.current, alias: s.alias }
}

/// The result of a load that promotion removes.
pub open spec fn load_target(vars: Seq<usize>, s: StmtModel) -> Option<usize> {
    match s {
        StmtModel::Load { dst: OperandModel::Local(l), ptr } => if slot(vars, ptr) is Some {
            Some(l.id as usize)
        } else {
            None
        },
        _ => None,
    }
}

/// No two blocks load to the same value.
pub open spec fn separate_loads(p: Plan) -> bool {
    forall|b: int, i: int, c: int, j: int|
        0 <= b < p.blocks.len() && 0 <= c < p.blocks.len() && b != c && 0 <= i
            < p.blocks[b].stmts.len() && 0 <= j < p.blocks[c].stmts.len() && (load_target(
            p.vars,
            #[trigger] p.blocks[b].stmts[i],
        ) is Some) ==> load_target(p.vars, p.blocks[b].stmts[i]) != load_target(
            p.vars,
            #[trigger] p.blocks[c].stmts[j],
        )
}

/// The parts of a plan fit together.
pub open spec fn coherent(p: Plan) -> bool {
    &&& p.blocks.len() <= usize::MAX
    &&& p.succ.len() == p.blocks.len()
    &&& p.phis.len() == p.blocks.len()
    &&& rows_in_range(p.succ, p.blocks.len())
    &&& is_idom_table(p.succ, p.idom)
    &&& separate_loads(p)
}

/// A load among the statements gives the value `key`.
spec fn loaded_in(vars: Seq<usize>, stmts: Seq<StmtModel>, key: usize) -> bool {
    exists|i: int| 0 <= i < stmts.len() && load_target(vars, #[trigger] stmts[i]) == Some(key)
}

proof fn lemma_added(vars: Seq<usize>, st: Step, stmts: Seq<StmtModel>)
    requires
        st.added.len() == 0,
    ensures
        forall|key: usize| #[trigger]
            rename_stmts(vars, st, stmts).added.contains(key) ==> loaded_in(vars, stmts, key),
        forall|key: usize|
            !rename_stmts(vars, st, stmts).added.contains(key) ==> #[trigger] rename_stmts(
                vars,
                st,
                stmts,
            ).alias.contains_key(key) == st.alias.contains_key(key),
        forall|key: usize|
            !rename_stmts(vars, st, stmts).added.contains(key) && st.alias.contains_key(key)
                ==> #[trigger] rename_stmts(vars, st, stmts).alias[key] == st.alias[key],
    decreases stmts.len(),
{
    if stmts.len() > 0 {
        let front = stmts.drop_last();
        lemma_added(vars, st, front);
        let a = rename_stmts(vars, st, front);
        let b = rename_stmts(vars, st, stmts);
        assert forall|key: usize| #[trigger] b.added.contains(key) implies loaded_in(
            vars,
            stmts,
            key,
        ) by {
            if a.added.contains(key) {
                let i = choose|i: int|
                    0 <= i < front.len() && load_target(vars, #[trigger] front[i]) == Some(key);
                assert(stmts[i] == front[i]);
            } else {
                let s = stmts[stmts.len() - 1];
                let k = choose|k: int| 0 <= k < b.added.len() && b.added[k] == key;
                assert(load_target(vars, s) == Some(key)) by {
                    if k < a.added.len() {
                        assert(a.added[k] == key);
                    }
                }
            }
        }
        assert forall|key: usize| !b.added.contains(key) implies !a.added.contains(key) by {
            if a.added.contains(key) {
                let k = choose|k: int| 0 <= k < a.added.len() && a.added[k] == key;
                assert(b.added[k] == key);
            }
        }
        assert forall|key: usize| !b.added.contains(key) implies (#[trigger] b.alias.contains_key(
            key,
        ) == st.alias.contains_key(key)) && (st.alias.contains_key(key) ==> b.alias[key]
            == st.alias[key]) by {
            assert(!a.added.contains(key));
            match stmts.last() {
                StmtModel::Load { dst: OperandModel::Local(l), ptr } => {
                    if slot(vars, ptr) is Some {
                        assert(b.added[b.added.len() - 1] == l.id as usize);
                    }
                },
                _ => {},
            }
        }
        assert forall|key: usize|
            !b.added.contains(key) && st.alias.contains_key(key) implies #[trigger] b.alias[key]
            == st.alias[key] by {
            assert(b.alias.contains_key(key) == st.alias.contains_key(key));
        }
    }
}

proof fn lemma_without(alias: Map<usize, OperandModel>, added: Seq<usize>, k: nat)
    requires
        k <= added.len(),
    ensures
        forall|key: usize| #[trigger]
            without(alias, added, k).contains_key(key) == (alias.contains_key(key) && !added.take(
                k as int,
            ).contains(key)),
        forall|key: usize|
            without(alias, added, k).contains_key(key) ==> #[trigger] without(alias, added, k)[key]
                == alias[key],
    decreases k,
{
    assert(added.take(0) =~= Seq::empty());
    if k > 0 {
        lemma_without(alias, added, (k - 1) as nat);
        let shorter = added.take(k - 1);
        let longer = added.take(k as int);
        assert forall|key: usize| #[trigger] longer.contains(key) == (shorter.contains(key) || key
            == added[k - 1]) by {
            if shorter.contains(key) {
                let i = choose|i: int| 0 <= i < shorter.len() && shorter[i] == key;
                assert(longer[i] == key);
            }
            if key == added[k - 1] {
                assert(longer[k - 1] == key);
            }
            if longer.contains(key) {
                let i = choose|i: int| 0 <= i < longer.len() && longer[i] == key;
                if i < k - 1 {
                    assert(shorter[i] == key);
                }
            }
        }
        let a = without(alias, added, (k - 1) as nat);
        let b = without(alias, added, k);
        assert forall|key: usize| #[trigger] b.contains_key(key) == (alias.contains_key(key)
            && !longer.contains(key)) by {
            assert(a.contains_key(key) == (alias.contains_key(key) && !shorter.contains(key)));
            assert(longer.contains(key) == (shorter.contains(key) || key == added[k - 1]));
        }
        assert forall|key: usize| b.contains_key(key) implies #[trigger] b[key] == alias[key] by {
            assert(a.contains_key(key));
            assert(a[key] == alias[key]);
        }
    }
}

/// The aliases that reach a block come from loads in blocks above it.
proof fn lemma_alias_above(p: Plan, b: int, key: usize)
    requires
        coherent(p),
        0 <= b < p.blocks.len(),
        before(p, b).alias.contains_key(key),
    ensures
        exists|c: int|
            0 <= c < p.blocks.len() && depth(p.succ, c) < depth(p.succ, b) && #[trigger] loaded_in(
                p.vars,
                p.blocks[c].stmts,
                key,
            ),
    decreases depth(p.succ, b),
{
    lemma_depth(p.succ, p.idom, b);
    match p.idom[b] {
        Some(d) => {
            let d = d as int;
            assert(is_idom(p.succ, d, b));
            lemma_dominator_reachable(p.succ, d, b);
            let w = before(p, d);
            let start = Step {
                current: enter(p.vars, w.current, p.phis[d], p.phis[d].len()),
                alias: w.alias,
                added: Seq::empty(),
                out: Seq::empty(),
            };
            lemma_added(p.vars, start, p.blocks[d].stmts);
            if step_at(p, w, d).added.contains(key) {
                assert(loaded_in(p.vars, p.blocks[d].stmts, key));
            } else {
                lemma_alias_above(p, d, key);
            }
        },
        None => {},
    }
}

/// Removing what a block added restores the aliases that reached it.
proof fn lemma_restored(p: Plan, b: int)
    requires
        coherent(p),
        0 <= b < p.blocks.len(),
    ensures
        without(
            after(p, b).alias,
            step_at(p, before(p, b), b).added,
            step_at(p, before(p, b), b).added.len(),
        ) == before(p, b).alias,
{
    let w = before(p, b);
    let s = step_at(p, w, b);
    let start = Step {
        current: enter(p.vars, w.current, p.phis[b], p.phis[b].len()),
        alias: w.alias,
        added: Seq::empty(),
        out: Seq::empty(),
    };
    lemma_added(p.vars, start, p.blocks[b].stmts);
    lemma_without(s.alias, s.added, s.added.len());
    assert(s.added.take(s.added.len() as int) =~= s.added);
    assert forall|key: usize| s.added.contains(key) implies !w.alias.contains_key(key) by {
        if w.alias.contains_key(key) {
            lemma_alias_above(p, b, key);
            let c = choose|c: int|
                0 <= c < p.blocks.len() && depth(p.succ, c) < depth(p.succ, b)
                    && #[trigger] loaded_in(p.vars, p.blocks[c].stmts, key);
            assert(loaded_in(p.vars, p.blocks[b].stmts, key));
            let i = choose|i: int|
                0 <= i < p.blocks[b].stmts.len() && load_target(
                    p.vars,
                    #[trigger] p.blocks[b].stmts[i],
                ) == Some(key);
            let j = choose|j: int|
                0 <= j < p.blocks[c].stmts.len() && load_target(
                    p.vars,
                    #[trigger] p.blocks[c].stmts[j],
                ) == Some(key);
            assert(p.blocks[b].stmts[i] == p.blocks[b].stmts[i]);
            assert(p.blocks[c].stmts[j] == p.blocks[c].stmts[j]);
        }
    }
    let r = without(s.alias, s.added, s.added.len());
    assert forall|key: usize| #[trigger] r.contains_key(key) == w.alias.contains_key(key) by {
        if !s.added.contains(key) {
            assert(s.alias.contains_key(key) == w.alias.contains_key(key));
        }
    }
    assert forall|key: usize| r.contains_key(key) implies #[trigger] r[key] == w.alias[key] by {
        assert(!s.added.contains(key));
        assert(s.alias[key] == w.alias[key]);
    }
    assert(r =~= w.alias);
}

/// What is found `n` steps above `x` in the dominator tree.
pub open spec fn up(idom: Seq<Option<usize>>, x: int, n: nat) -> Option<int>
    decreases n,
{
    if n == 0 {
        Some(x)
    } else {
        match up(idom, x, (n - 1) as nat) {
            Some(y) => match idom[y] {
                Some(d) => Some(d as int),
                None => None,
            },
            None => None,
        }
    }
}

/// `x` is `b` or below it in the dominator tree.
pub open spec fn under(p: Plan, b: int, x: int) -> bool {
    depth(p.succ, b) <= depth(p.succ, x) && up(
        p.idom,
        x,
        (depth(p.succ, x) - depth(p.succ, b)) as nat,
    ) == Some(b)
}

proof fn lemma_up_depth(p: Plan, x: int, n: nat)
    requires
        coherent(p),
        0 <= x < p.blocks.len(),
    ensures
        up(p.idom, x, n) matches Some(y) ==> 0 <= y < p.blocks.len() && depth(p.succ, y) + n
            == depth(p.succ, x) && (reachable(p.succ, x) ==> reachable(p.succ, y)),
    decreases n,
{
    if n > 0 {
        lemma_up_depth(p, x, (n - 1) as nat);
        match up(p.idom, x, (n - 1) as nat) {
            Some(y) => {
                lemma_depth(p.succ, p.idom, y);
                match p.idom[y] {
                    Some(d) => {
                        assert(is_idom(p.succ, d as int, y));
                        lemma_dominator_reachable(p.succ, d as int, y);
                    },
                    None => {},
                }
            },
            None => {},
        }
    }
}

/// What is below a block is below one of its children.
proof fn lemma_under_child(p: Plan, b: int, x: int) -> (c: int)
    requires
        coherent(p),
        0 <= x < p.blocks.len(),
        0 <= b < p.blocks.len(),
        under(p, b, x),
        x != b,
    ensures
        0 <= c < p.blocks.len(),
        p.idom[c] == Some(b as usize),
        under(p, c, x),
{
    let n = (depth(p.succ, x) - depth(p.succ, b)) as nat;
    assert(n > 0);
    lemma_up_depth(p, x, (n - 1) as nat);
    let c = up(p.idom, x, (n - 1) as nat)->0;
    lemma_depth(p.succ, p.idom, c);
    c
}

proof fn lemma_child_under(p: Plan, b: int, c: int, x: int)
    requires
        coherent(p),
        0 <= x < p.blocks.len(),
        0 <= b < p.blocks.len(),
        0 <= c < p.blocks.len(),
        p.idom[c] == Some(b as usize),
        under(p, c, x),
    ensures
        under(p, b, x),
        x != b,
        depth(p.succ, c) == depth(p.succ, b) + 1,
{
    lemma_depth(p.succ, p.idom, c);
    let n = (depth(p.succ, x) - depth(p.succ, c)) as nat;
    assert(up(p.idom, x, n + 1) == Some(b));
}

proof fn lemma_children_complete(idom: Seq<Option<usize>>, b: usize, n: nat, c: int)
    requires
        n <= idom.len(),
        n <= usize::MAX,
        0 <= c < n,
        idom[c] == Some(b),
    ensures
        children_below(idom, b, n).contains(c as usize),
    decreases n,
{
    let list = children_below(idom, b, n);
    if c == n - 1 {
        assert(list[list.len() - 1] == c as usize);
    } else {
        lemma_children_complete(idom, b, (n - 1) as nat, c);
        let front = children_below(idom, b, (n - 1) as nat);
        let i = choose|i: int| 0 <= i < front.len() && front[i] == c as usize;
        assert(list[i] == c as usize);
    }
}

proof fn lemma_children_ascend(idom: Seq<Option<usize>>, b: usize, n: nat)
    requires
        n <= idom.len(),
        n <= usize::MAX,
    ensures
        forall|i: int, j: int|
            0 <= i < j < children_below(idom, b, n).len() ==> #[trigger] children_below(
                idom,
                b,
                n,
            )[i] < #[trigger] children_below(idom, b, n)[j],
    decreases n,
{
    if n > 0 {
        lemma_children_ascend(idom, b, (n - 1) as nat);
        lemma_children(idom, b, (n - 1) as nat);
    }
}

proof fn lemma_roots_complete(idom: Seq<Option<usize>>, n: nat, c: int)
    requires
        n <= idom.len(),
        n <= usize::MAX,
        0 <= c < n,
        idom[c] is None,
    ensures
        roots_below(idom, n).contains(c as usize),
    decreases n,
{
    let list = roots_below(idom, n);
    if c == n - 1 {
        assert(list[list.len() - 1] == c as usize);
    } else {
        lemma_roots_complete(idom, (n - 1) as nat, c);
        let front = roots_below(idom, (n - 1) as nat);
        let i = choose|i: int| 0 <= i < front.len() && front[i] == c as usize;
        assert(list[i] == c as usize);
    }
}

proof fn lemma_roots_ascend(idom: Seq<Option<usize>>, n: nat)
    requires
        n <= idom.len(),
        n <= usize::MAX,
    ensures
        forall|i: int, j: int|
            0 <= i < j < roots_below(idom, n).len() ==> #[trigger] roots_below(idom, n)[i]
                < #[trigger] roots_below(idom, n)[j],
    decreases n,
{
    if n > 0 {
        lemma_roots_ascend(idom, (n - 1) as nat);
        lemma_roots(idom, (n - 1) as nat);
    }
}

/// Incoming values are only added.
pub open spec fn extends(
    a: Seq<Seq<Seq<(LabelModel, OperandModel)>>>,
    b: Seq<Seq<Seq<(LabelModel, OperandModel)>>>,
) -> bool {
    &&& a.len() == b.len()
    &&& forall|s: int| 0 <= s < a.len() ==> (#[trigger] a[s]).len() == b[s].len()
    &&& forall|s: int, k: int|
        0 <= s < a.len() && 0 <= k < a[s].len() ==> (#[trigger] a[s][k]).is_prefix_of(b[s][k])
}

proof fn lemma_extends_trans(
    a: Seq<Seq<Seq<(LabelModel, OperandModel)>>>,
    b: Seq<Seq<Seq<(LabelModel, OperandModel)>>>,
    c: Seq<Seq<Seq<(LabelModel, OperandModel)>>>,
)
    requires
        extends(a, b),
        extends(b, c),
    ensures
        extends(a, c),
{
    assert forall|s: int| 0 <= s < a.len() implies (#[trigger] a[s]).len() == c[s].len() by {
        assert(b[s].len() == c[s].len());
    }
    assert forall|s: int, k: int| 0 <= s < a.len() && 0 <= k < a[s].len() implies (
    #[trigger] a[s][k]).is_prefix_of(c[s][k]) by {
        assert(a[s][k].is_prefix_of(b[s][k]));
        assert(b[s][k].is_prefix_of(c[s][k]));
        let x = a[s][k];
        let y = b[s][k];
        let z = c[s][k];
        assert forall|i: int| 0 <= i < x.len() implies x[i] == z[i] by {
            assert(x[i] == y[i]);
        }
        assert(x =~= z.subrange(0, x.len() as int));
    }
}

/// The phi `k` of block `s` takes the value that its variable has at the end
/// of block `x`, from there.
pub open spec fn feeds(
    p: Plan,
    inc: Seq<Seq<Seq<(LabelModel, OperandModel)>>>,
    x: int,
    s: int,
    k: int,
) -> bool {
    inc[s][k].contains(
        (
            p.blocks[x].label,
            value_at(after(p, x).current, after(p, x).alias, p.vars.index_of(p.phis[s][k].var)),
        ),
    )
}

/// All phis behind the first `n` edges of block `x` take their values from it.
pub open spec fn fed(
    p: Plan,
    inc: Seq<Seq<Seq<(LabelModel, OperandModel)>>>,
    x: int,
    n: int,
) -> bool {
    forall|e: int, k: int|
        0 <= e < n && 0 <= k < p.phis[p.succ[x][e] as int].len() ==> #[trigger] feeds(
            p,
            inc,
            x,
            p.succ[x][e] as int,
            k,
        )
}

proof fn lemma_fed_stays(
    p: Plan,
    a: Seq<Seq<Seq<(LabelModel, OperandModel)>>>,
    b: Seq<Seq<Seq<(LabelModel, OperandModel)>>>,
    x: int,
    n: int,
)
    requires
        coherent(p),
        0 <= x < p.blocks.len(),
        n <= p.succ[x].len(),
        a.len() == p.blocks.len(),
        forall|s: int| 0 <= s < a.len() ==> (#[trigger] a[s]).len() == p.phis[s].len(),
        extends(a, b),
        fed(p, a, x, n),
    ensures
        fed(p, b, x, n),
{
    assert forall|e: int, k: int|
        0 <= e < n && 0 <= k < p.phis[p.succ[x][e] as int].len() implies #[trigger] feeds(
        p,
        b,
        x,
        p.succ[x][e] as int,
        k,
    ) by {
        let s = p.succ[x][e] as int;
        assert(s < p.blocks.len());
        assert(feeds(p, a, x, s, k));
        let v = (
            p.blocks[x].label,
            value_at(after(p, x).current, after(p, x).alias, p.vars.index_of(p.phis[s][k].var)),
        );
        let i = choose|i: int| 0 <= i < a[s][k].len() && a[s][k][i] == v;
        assert(a[s][k].is_prefix_of(b[s][k]));
        assert(b[s][k][i] == v);
    }
}

/// The incoming values have one row for each phi.
spec fn rows_match(p: Plan, inc: Seq<Seq<Seq<(LabelModel, OperandModel)>>>) -> bool {
    &&& inc.len() == p.blocks.len()
    &&& forall|s: int| 0 <= s < inc.len() ==> (#[trigger] inc[s]).len() == p.phis[s].len()
}

proof fn lemma_feed(
    p: Plan,
    st: Step,
    inc: Seq<Seq<Seq<(LabelModel, OperandModel)>>>,
    b: int,
    n: nat,
)
    requires
        coherent(p),
        0 <= b < p.blocks.len(),
        n <= p.succ[b].len(),
        rows_match(p, inc),
        st.current == after(p, b).current,
        st.alias == after(p, b).alias,
    ensures
        rows_match(p, feed(p, st, inc, b, n)),
        extends(inc, feed(p, st, inc, b, n)),
        fed(p, feed(p, st, inc, b, n), b, n as int),
    decreases n,
{
    if n == 0 {
        assert forall|s: int, k: int| 0 <= s < inc.len() && 0 <= k < inc[s].len() implies (
        #[trigger] inc[s][k]).is_prefix_of(inc[s][k]) by {
            assert(inc[s][k].subrange(0, inc[s][k].len() as int) =~= inc[s][k]);
        }
    } else {
        let prev = feed(p, st, inc, b, (n - 1) as nat);
        lemma_feed(p, st, inc, b, (n - 1) as nat);
        let next = feed(p, st, inc, b, n);
        let t = p.succ[b][n - 1] as int;
        assert(t < p.blocks.len());
        assert forall|s: int| 0 <= s < prev.len() implies (#[trigger] prev[s]).len()
            == next[s].len() by {}
        assert forall|s: int, k: int| 0 <= s < prev.len() && 0 <= k < prev[s].len() implies (
        #[trigger] prev[s][k]).is_prefix_of(next[s][k]) by {
            let x = prev[s][k];
            let y = next[s][k];
            assert(y == x || y == x.push(y.last()));
            assert(x =~= y.subrange(0, x.len() as int));
        }
        assert(extends(prev, next));
        lemma_extends_trans(inc, prev, next);
        lemma_fed_stays(p, prev, next, b, n - 1);
        assert forall|e: int, k: int|
            0 <= e < n && 0 <= k < p.phis[p.succ[b][e] as int].len() implies #[trigger] feeds(
            p,
            next,
            b,
            p.succ[b][e] as int,
            k,
        ) by {
            if e == n - 1 {
                let row = next[t][k];
                assert(row[row.len() - 1] == (
                    p.blocks[b].label,
                    value_at(st.current, st.alias, p.vars.index_of(p.phis[t][k].var)),
                ));
            } else {
                assert(feeds(p, next, b, p.succ[b][e] as int, k));
            }
        }
    }
}

/// Neither `b` nor a block below it has been renamed.
spec fn untouched(p: Plan, st: Renaming, b: int) -> bool {
    &&& st.out.len() == p.blocks.len()
    &&& rows_match(p, st.incomings)
    &&& forall|x: int|
        0 <= x < p.blocks.len() && #[trigger] under(p, b, x) ==> st.out[x] == Seq::<
            StmtModel,
        >::empty()
}

/// Renaming `b` and what is below it turned `st` into `r`.
spec fn renamed(p: Plan, st: Renaming, b: int, r: Renaming) -> bool {
    &&& r.current == st.current
    &&& r.alias == st.alias
    &&& r.out.len() == p.blocks.len()
    &&& rows_match(p, r.incomings)
    &&& extends(st.incomings, r.incomings)
    &&& forall|x: int|
        #![trigger r.out[x]]
        0 <= x < p.blocks.len() ==> r.out[x] == if under(p, b, x) {
            step_at(p, before(p, x), x).out
        } else {
            st.out[x]
        }
    &&& forall|x: int|
        0 <= x < p.blocks.len() && #[trigger] under(p, b, x) ==> fed(
            p,
            r.incomings,
            x,
            p.succ[x].len() as int,
        )
}

proof fn lemma_rename_block(p: Plan, st: Renaming, b: int, height: nat)
    requires
        coherent(p),
        0 <= b < p.blocks.len(),
        st.current == before(p, b).current,
        st.alias == before(p, b).alias,
        height + depth(p.succ, b) >= p.blocks.len() + 1,
        untouched(p, st, b),
    ensures
        renamed(p, st, b, rename_block(p, st, b, height)),
    decreases height, 0nat,
{
    let n = p.blocks.len();
    lemma_depth(p.succ, p.idom, b);
    let kids = children_below(p.idom, b as usize, n);
    let d = block_done(p, st, b);
    let w = before(p, b);
    assert(under(p, b, b)) by {
        assert(up(p.idom, b, 0) == Some(b));
    }
    assert(st.out[b] == Seq::<StmtModel>::empty());
    let s = block_step(p, st, b);
    assert(s == step_at(p, w, b));
    lemma_feed(p, s, st.incomings, b, p.succ[b].len());
    assert forall|x: int| 0 <= x < n && #[trigger] under(p, b, x) && x != b implies d.out[x]
        == Seq::<StmtModel>::empty() by {}
    lemma_rename_children(p, d, b, kids.len(), (height - 1) as nat);
    let r0 = rename_children(p, d, kids, kids.len(), (height - 1) as nat);
    lemma_restored(p, b);
    let r = rename_block(p, st, b, height);
    lemma_extends_trans(st.incomings, d.incomings, r0.incomings);
    lemma_children(p.idom, b as usize, n);
    assert forall|x: int| 0 <= x < n implies #[trigger] r.out[x] == if under(p, b, x) {
        step_at(p, before(p, x), x).out
    } else {
        st.out[x]
    } by {
        assert(r.out[x] == r0.out[x]);
        if under(p, b, x) && x != b {
            let c = lemma_under_child(p, b, x);
            lemma_children_complete(p.idom, b as usize, n, c);
            let j = choose|j: int| 0 <= j < kids.len() && kids[j] == c as usize;
            assert(below_some(p, kids, kids.len(), x)) by {
                assert(under(p, kids[j] as int, x));
            }
        } else if below_some(p, kids, kids.len(), x) {
            let j = choose|j: int| 0 <= j < kids.len() && #[trigger] under(p, kids[j] as int, x);
            lemma_child_under(p, b, kids[j] as int, x);
        }
    }
    assert forall|x: int| 0 <= x < n && #[trigger] under(p, b, x) implies fed(
        p,
        r.incomings,
        x,
        p.succ[x].len() as int,
    ) by {
        if x == b {
            lemma_fed_stays(p, d.incomings, r0.incomings, b, p.succ[b].len() as int);
        } else {
            let c = lemma_under_child(p, b, x);
            lemma_children_complete(p.idom, b as usize, n, c);
            let j = choose|j: int| 0 <= j < kids.len() && kids[j] == c as usize;
            assert(below_some(p, kids, kids.len(), x)) by {
                assert(under(p, kids[j] as int, x));
            }
        }
    }
}

/// `x` is below one of the first `k` blocks of a list.
spec fn below_some(p: Plan, kids: Seq<usize>, k: nat, x: int) -> bool {
    exists|j: int| 0 <= j < k && #[trigger] under(p, kids[j] as int, x)
}

proof fn lemma_rename_children(p: Plan, st: Renaming, b: int, k: nat, height: nat)
    requires
        coherent(p),
        0 <= b < p.blocks.len(),
        k <= children_below(p.idom, b as usize, p.blocks.len()).len(),
        st.current == after(p, b).current,
        st.alias == after(p, b).alias,
        height + depth(p.succ, b) >= p.blocks.len(),
        st.out.len() == p.blocks.len(),
        rows_match(p, st.incomings),
        forall|x: int|
            0 <= x < p.blocks.len() && #[trigger] under(p, b, x) && x != b ==> st.out[x] == Seq::<
                StmtModel,
            >::empty(),
    ensures
        ({
            let kids = children_below(p.idom, b as usize, p.blocks.len());
            let r = rename_children(p, st, kids, k, height);
            &&& r.current == st.current
            &&& r.alias == st.alias
            &&& r.out.len() == p.blocks.len()
            &&& rows_match(p, r.incomings)
            &&& extends(st.incomings, r.incomings)
            &&& forall|x: int|
                #![trigger r.out[x]]
                0 <= x < p.blocks.len() ==> r.out[x] == if below_some(p, kids, k, x) {
                    step_at(p, before(p, x), x).out
                } else {
                    st.out[x]
                }
            &&& forall|x: int|
                0 <= x < p.blocks.len() && #[trigger] below_some(p, kids, k, x) ==> fed(
                    p,
                    r.incomings,
                    x,
                    p.succ[x].len() as int,
                )
        }),
    decreases height, k + 1,
{
    let n = p.blocks.len();
    let kids = children_below(p.idom, b as usize, n);
    if k == 0 {
        let inc = st.incomings;
        assert forall|s: int, j: int| 0 <= s < inc.len() && 0 <= j < inc[s].len() implies (
        #[trigger] inc[s][j]).is_prefix_of(inc[s][j]) by {
            assert(inc[s][j].subrange(0, inc[s][j].len() as int) =~= inc[s][j]);
        }
    } else {
        let q = rename_children(p, st, kids, (k - 1) as nat, height);
        lemma_rename_children(p, st, b, (k - 1) as nat, height);
        lemma_children(p.idom, b as usize, n);
        lemma_children_ascend(p.idom, b as usize, n);
        let c = kids[k - 1] as int;
        lemma_depth(p.succ, p.idom, c);
        assert(before(p, c) == after(p, b));
        assert forall|x: int| 0 <= x < n && #[trigger] under(p, c, x) implies q.out[x] == Seq::<
            StmtModel,
        >::empty() by {
            lemma_child_under(p, b, c, x);
            if below_some(p, kids, (k - 1) as nat, x) {
                let j = choose|j: int|
                    0 <= j < k - 1 && #[trigger] under(p, kids[j] as int, x);
                lemma_child_under(p, b, kids[j] as int, x);
                assert(kids[j] < kids[k - 1]);
            }
            assert(q.out[x] == st.out[x]);
        }
        lemma_rename_block(p, q, c, height);
        let r = rename_children(p, st, kids, k, height);
        lemma_extends_trans(st.incomings, q.incomings, r.incomings);
        assert forall|x: int| 0 <= x < n implies (#[trigger] below_some(p, kids, k, x) == (
        below_some(p, kids, (k - 1) as nat, x) || under(p, c, x))) by {
            if below_some(p, kids, (k - 1) as nat, x) {
                let j = choose|j: int| 0 <= j < k - 1 && #[trigger] under(p, kids[j] as int, x);
                assert(under(p, kids[j] as int, x));
            }
            if under(p, c, x) {
                assert(under(p, kids[k - 1] as int, x));
            }
        }
        assert forall|x: int| 0 <= x < n implies #[trigger] r.out[x] == if below_some(
            p,
            kids,
            k,
            x,
        ) {
            step_at(p, before(p, x), x).out
        } else {
            st.out[x]
        } by {
            assert(below_some(p, kids, k, x) == (below_some(p, kids, (k - 1) as nat, x) || under(
                p,
                c,
                x,
            )));
            assert(q.out[x] == if below_some(p, kids, (k - 1) as nat, x) {
                step_at(p, before(p, x), x).out
            } else {
                st.out[x]
            });
        }
        assert forall|x: int| 0 <= x < n && #[trigger] below_some(p, kids, k, x) implies fed(
            p,
            r.incomings,
            x,
            p.succ[x].len() as int,
        ) by {
            if !under(p, c, x) {
                lemma_fed_stays(p, q.incomings, r.incomings, x, p.succ[x].len() as int);
            }
        }
    }
}

/// Nothing is above a root.
proof fn lemma_top(p: Plan, x: int, m: nat, n: nat)
    requires
        m < n,
        up(p.idom, x, m) matches Some(y) && p.idom[y] is None,
    ensures
        up(p.idom, x, n) is None,
    decreases n,
{
    if m < n - 1 {
        lemma_top(p, x, m, (n - 1) as nat);
    }
}

proof fn lemma_one_root(p: Plan, r: int, q: int, x: int)
    requires
        under(p, r, x),
        under(p, q, x),
        p.idom[r] is None,
        p.idom[q] is None,
    ensures
        r == q,
{
    let a = (depth(p.succ, x) - depth(p.succ, r)) as nat;
    let b = (depth(p.succ, x) - depth(p.succ, q)) as nat;
    if a < b {
        lemma_top(p, x, a, b);
    } else if b < a {
        lemma_top(p, x, b, a);
    }
}

/// Every block is below a root.
proof fn lemma_some_root(p: Plan, x: int) -> (r: int)
    requires
        coherent(p),
        0 <= x < p.blocks.len(),
    ensures
        0 <= r < p.blocks.len(),
        p.idom[r] is None,
        under(p, r, x),
    decreases depth(p.succ, x),
{
    match p.idom[x] {
        None => {
            assert(up(p.idom, x, 0) == Some(x));
            x
        },
        Some(d) => {
            lemma_depth(p.succ, p.idom, x);
            assert(is_idom(p.succ, d as int, x));
            lemma_dominator_reachable(p.succ, d as int, x);
            let r = lemma_some_root(p, d as int);
            lemma_up_shift(p.idom, x, d as int, (depth(p.succ, d as int) - depth(p.succ, r)) as nat);
            r
        },
    }
}

proof fn lemma_up_shift(idom: Seq<Option<usize>>, x: int, d: int, n: nat)
    requires
        idom[x] matches Some(y) && y as int == d,
    ensures
        up(idom, x, n + 1) == up(idom, d, n),
    decreases n,
{
    if n > 0 {
        lemma_up_shift(idom, x, d, (n - 1) as nat);
    } else {
        assert(up(idom, x, 0) == Some(x));
        assert(up(idom, x, 1) == Some(d));
    }
}

/// The depth of a root leaves room for all levels.
proof fn lemma_root_depth(p: Plan, r: int)
    requires
        coherent(p),
        0 <= r < p.blocks.len(),
    ensures
        p.blocks.len() + depth(p.succ, r) >= p.blocks.len() + 1,
{
    lemma_depth(p.succ, p.idom, r);
}

proof fn lemma_rename_roots(p: Plan, k: nat)
    requires
        coherent(p),
        k <= roots_below(p.idom, p.blocks.len()).len(),
    ensures
        ({
            let roots = roots_below(p.idom, p.blocks.len());
            let r = rename_roots(p, unrenamed(p), roots, k);
            &&& r.out.len() == p.blocks.len()
            &&& rows_match(p, r.incomings)
            &&& forall|x: int|
                #![trigger r.out[x]]
                0 <= x < p.blocks.len() ==> r.out[x] == if below_some(p, roots, k, x) {
                    step_at(p, before(p, x), x).out
                } else {
                    Seq::<StmtModel>::empty()
                }
            &&& forall|x: int|
                0 <= x < p.blocks.len() && #[trigger] below_some(p, roots, k, x) ==> fed(
                    p,
                    r.incomings,
                    x,
                    p.succ[x].len() as int,
                )
        }),
    decreases k,
{
    let n = p.blocks.len();
    let roots = roots_below(p.idom, n);
    if k > 0 {
        lemma_rename_roots(p, (k - 1) as nat);
        lemma_roots(p.idom, n);
        lemma_roots_ascend(p.idom, n);
        let q = rename_roots(p, unrenamed(p), roots, (k - 1) as nat);
        let c = roots[k - 1] as int;
        let st = cleared(p, q);
        lemma_root_depth(p, c);
        assert forall|x: int| 0 <= x < n && #[trigger] under(p, c, x) implies st.out[x] == Seq::<
            StmtModel,
        >::empty() by {
            if below_some(p, roots, (k - 1) as nat, x) {
                let j = choose|j: int| 0 <= j < k - 1 && #[trigger] under(p, roots[j] as int, x);
                lemma_one_root(p, roots[j] as int, c, x);
                assert(roots[j] < roots[k - 1]);
            }
            assert(st.out[x] == q.out[x]);
        }
        lemma_rename_block(p, st, c, n);
        let r = rename_roots(p, unrenamed(p), roots, k);
        assert forall|x: int| 0 <= x < n implies (#[trigger] below_some(p, roots, k, x) == (
        below_some(p, roots, (k - 1) as nat, x) || under(p, c, x))) by {
            if below_some(p, roots, (k - 1) as nat, x) {
                let j = choose|j: int| 0 <= j < k - 1 && #[trigger] under(p, roots[j] as int, x);
                assert(under(p, roots[j] as int, x));
            }
            if under(p, c, x) {
                assert(under(p, roots[k - 1] as int, x));
            }
        }
        assert forall|x: int| 0 <= x < n implies #[trigger] r.out[x] == if below_some(
            p,
            roots,
            k,
            x,
        ) {
            step_at(p, before(p, x), x).out
        } else {
            Seq::<StmtModel>::empty()
        } by {
            assert(below_some(p, roots, k, x) == (below_some(p, roots, (k - 1) as nat, x) || under(
                p,
                c,
                x,
            )));
            assert(q.out[x] == if below_some(p, roots, (k - 1) as nat, x) {
                step_at(p, before(p, x), x).out
            } else {
                Seq::<StmtModel>::empty()
            });
        }
        assert forall|x: int| 0 <= x < n && #[trigger] below_some(p, roots, k, x) implies fed(
            p,
            r.incomings,
            x,
            p.succ[x].len() as int,
        ) by {
            if !under(p, c, x) {
                lemma_fed_stays(p, q.incomings, r.incomings, x, p.succ[x].len() as int);
            }
        }
    }
}

/// After promotion a block holds its phis and its statements renamed with the
/// values at the end of its immediate dominator, and every phi takes the
/// values that its variable has at the end of the predecessors.
pub proof fn lemma_promoted_block(p: Plan, b: int)
    requires
        coherent(p),
        0 <= b < p.blocks.len(),
    ensures
        ({
            let roots = roots_below(p.idom, p.blocks.len());
            let inc = rename_roots(p, unrenamed(p), roots, roots.len()).incomings;
            &&& promoted_blocks(p)[b].label == p.blocks[b].label
            &&& promoted_blocks(p)[b].stmts == phi_stmts(p.phis[b], inc[b]) + step_at(
                p,
                before(p, b),
                b,
            ).out
            &&& fed(p, inc, b, p.succ[b].len() as int)
        }),
{
    let n = p.blocks.len();
    let roots = roots_below(p.idom, n);
    lemma_rename_roots(p, roots.len());
    let r = lemma_some_root(p, b);
    lemma_roots_complete(p.idom, n, r);
    let j = choose|j: int| 0 <= j < roots.len() && roots[j] == r as usize;
    assert(below_some(p, roots, roots.len(), b)) by {
        assert(under(p, roots[j] as int, b));
    }
}

} // verus!
