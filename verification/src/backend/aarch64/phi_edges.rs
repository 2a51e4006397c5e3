//! What becomes of phis: on every edge the copies give them the values that
//! they have there.

use super::phi_lowering::{
    all_placed, block_labels, edge_copies, incoming_from, next_block_id, nothing_placed,
    parsed_blocks, place_blocks, place_edge, place_edges, retargeted, same, CopyModel, ParsedModel,
    PhiModel, Placed,
};
use crate::common::cfg::block_succ;
use crate::common::graph::{predecessors_of, sources};
use crate::ir::execution::{Machine, Meaning};
use crate::ir::function::{BlockModel, LabelModel};
use crate::ir::stmt::StmtModel;
use vstd::prelude::*;

verus! {

/// The state after copies that are made at once: all values are read before
/// any is written.
pub open spec fn assigned(m: Meaning, w: Machine, copies: Seq<CopyModel>) -> Machine
    decreases copies.len(),
{
    if copies.len() == 0 {
        w
    } else {
        assigned(m, w, copies.drop_last()).with(copies.last().dst, w.value(m, copies.last().src))
    }
}

/// The phis define values of their own.
pub open spec fn phis_differ(phis: Seq<PhiModel>) -> bool {
    &&& forall|i: int| 0 <= i < phis.len() ==> (#[trigger] phis[i]).dst is Local
    &&& forall|i: int, j: int|
        0 <= i < j < phis.len() ==> (#[trigger] phis[i]).dst->Local_0.id != (
        #[trigger] phis[j]).dst->Local_0.id
}

/// The phi says at position `q` what it is behind the block with the label,
/// and nowhere else.
pub open spec fn says_at(phi: PhiModel, label: Seq<char>, q: int) -> bool {
    &&& 0 <= q < phi.incomings.len()
    &&& phi.incomings[q].0.text() == label
    &&& forall|j: int|
        0 <= j < phi.incomings.len() && (#[trigger] phi.incomings[j]).0.text() == label ==> j == q
}

proof fn lemma_said(phi: PhiModel, label: Seq<char>, q: int, i: nat)
    requires
        says_at(phi, label, q),
        i <= q,
    ensures
        incoming_from(phi.incomings, label, i) == phi.incomings[q].1,
    decreases q - i,
{
    if i < q {
        assert(phi.incomings[i as int].0.text() != label);
        lemma_said(phi, label, q, i + 1);
    }
}

proof fn lemma_others_untouched(
    m: Meaning,
    w: Machine,
    phis: Seq<PhiModel>,
    label: Seq<char>,
    id: nat,
)
    requires
        phis_differ(phis),
        forall|i: int| 0 <= i < phis.len() ==> (#[trigger] phis[i]).dst->Local_0.id != id,
    ensures
        assigned(m, w, edge_copies(phis, label)).locals[id] == w.locals[id],
    decreases phis.len(),
{
    if phis.len() > 0 {
        let front = phis.drop_last();
        assert forall|i: int| 0 <= i < front.len() implies (#[trigger] front[i]).dst is Local
            && front[i].dst->Local_0.id != id by {
            assert(front[i] == phis[i]);
        }
        assert(phis_differ(front));
        lemma_others_untouched(m, w, front, label, id);
        let copies = edge_copies(phis, label);
        assert(phis.last() == phis[phis.len() - 1]);
        if copies.len() > edge_copies(front, label).len() {
            assert(copies.drop_last() =~= edge_copies(front, label));
        }
    }
}

/// Along an edge from the block with the label, each phi gets the value that
/// it names for that block, as it is before any phi changes, and nothing else
/// changes.
pub proof fn lemma_edge_gives_values(
    m: Meaning,
    w: Machine,
    phis: Seq<PhiModel>,
    label: Seq<char>,
    i: int,
    q: int,
)
    requires
        phis_differ(phis),
        0 <= i < phis.len(),
        says_at(phis[i], label, q),
    ensures
        assigned(m, w, edge_copies(phis, label)).value(m, phis[i].dst) == w.value(
            m,
            phis[i].incomings[q].1,
        ),
    decreases phis.len(),
{
    let front = phis.drop_last();
    let copies = edge_copies(phis, label);
    assert forall|k: int| 0 <= k < front.len() implies (#[trigger] front[k]) == phis[k] by {}
    assert(phis_differ(front)) by {
        assert forall|a: int, b: int| 0 <= a < b < front.len() implies (
        #[trigger] front[a]).dst->Local_0.id != (#[trigger] front[b]).dst->Local_0.id by {
            assert(phis[a].dst->Local_0.id != phis[b].dst->Local_0.id);
        }
    }
    if copies.len() > edge_copies(front, label).len() {
        assert(copies.drop_last() =~= edge_copies(front, label));
    }
    assert(phis.last() == phis[phis.len() - 1]);
    if i == phis.len() - 1 {
        lemma_said(phis[i], label, q, 0);
        let src = phis[i].incomings[q].1;
        if same(phis[i].dst, src) {
            assert forall|k: int| 0 <= k < front.len() implies (#[trigger] front[k]).dst->Local_0.id
                != phis[i].dst->Local_0.id by {
                assert(phis[k].dst->Local_0.id != phis[i].dst->Local_0.id);
            }
            lemma_others_untouched(m, w, front, label, phis[i].dst->Local_0.id);
        }
    } else {
        assert(front[i] == phis[i]);
        lemma_edge_gives_values(m, w, front, label, i, q);
        assert(phis[i].dst->Local_0.id != phis[phis.len() - 1].dst->Local_0.id);
    }
}

/// Along an edge no value changes but those of the phis.
pub proof fn lemma_edge_changes_nothing_else(
    m: Meaning,
    w: Machine,
    phis: Seq<PhiModel>,
    label: Seq<char>,
    id: nat,
)
    requires
        phis_differ(phis),
        forall|i: int| 0 <= i < phis.len() ==> (#[trigger] phis[i]).dst->Local_0.id != id,
    ensures
        assigned(m, w, edge_copies(phis, label)).locals[id] == w.locals[id],
        assigned(m, w, edge_copies(phis, label)).cells == w.cells,
{
    lemma_others_untouched(m, w, phis, label, id);
    lemma_cells_kept(m, w, edge_copies(phis, label));
}

proof fn lemma_cells_kept(m: Meaning, w: Machine, copies: Seq<CopyModel>)
    ensures
        assigned(m, w, copies).cells == w.cells,
    decreases copies.len(),
{
    if copies.len() > 0 {
        lemma_cells_kept(m, w, copies.drop_last());
    }
}

/// Where a branch goes, with its condition true or false.
pub open spec fn destination(s: StmtModel, holds: bool) -> Option<LabelModel> {
    match s {
        StmtModel::Jump { target } => Some(target),
        StmtModel::CJump { true_label, false_label, .. } => Some(
            if holds {
                true_label
            } else {
                false_label
            },
        ),
        _ => None,
    }
}

/// A retargeted branch goes to the new block exactly where it went to the old
/// one, and elsewhere to where it went; its condition is the same, and what is
/// no branch stays as it is.
pub proof fn lemma_retargeted(s: StmtModel, key: Seq<char>, label: LabelModel, holds: bool)
    ensures
        destination(retargeted(s, key, label), holds) == match destination(s, holds) {
            Some(t) => Some(
                if t.text() == key {
                    label
                } else {
                    t
                },
            ),
            None => None,
        },
        retargeted(s, key, label).reads() == s.reads(),
        destination(s, holds) is None ==> retargeted(s, key, label) == s,
{
    assert(retargeted(s, key, label).reads() =~= s.reads());
}

/// The copies of an edge stand together among others.
pub open spec fn among(all: Seq<CopyModel>, copies: Seq<CopyModel>) -> bool {
    exists|k: int|
        0 <= k <= all.len() - copies.len() && #[trigger] all.subrange(k, k + copies.len())
            == copies
}

/// The copies of the edge have a place: at the end of the block that they come
/// from, where control goes nowhere else, or in a block on the edge.
pub open spec fn placed_on(
    p: Placed,
    succ: Seq<Seq<usize>>,
    labels: Seq<LabelModel>,
    pred: usize,
    block: int,
    copies: Seq<CopyModel>,
) -> bool {
    if succ[pred as int].len() == 1 {
        among(p.pending[pred as int], copies)
    } else {
        exists|j: int|
            0 <= j < p.splits.len() && (#[trigger] p.splits[j]).pred == pred
                && p.splits[j].succ_label == labels[block] && p.splits[j].copies == copies
    }
}

/// What has a place keeps it.
pub open spec fn grown(p: Placed, q: Placed) -> bool {
    &&& p.pending.len() == q.pending.len()
    &&& forall|i: int|
        0 <= i < p.pending.len() ==> p.pending[i].len() <= (#[trigger] q.pending[i]).len()
            && q.pending[i].subrange(0, p.pending[i].len() as int) == p.pending[i]
    &&& p.splits.len() <= q.splits.len()
    &&& forall|j: int| 0 <= j < p.splits.len() ==> #[trigger] q.splits[j] == p.splits[j]
}

proof fn lemma_grown_keeps(
    p: Placed,
    q: Placed,
    succ: Seq<Seq<usize>>,
    labels: Seq<LabelModel>,
    pred: usize,
    block: int,
    copies: Seq<CopyModel>,
)
    requires
        grown(p, q),
        pred < p.pending.len(),
        placed_on(p, succ, labels, pred, block, copies),
    ensures
        placed_on(q, succ, labels, pred, block, copies),
{
    if succ[pred as int].len() == 1 {
        let a = p.pending[pred as int];
        let b = q.pending[pred as int];
        let k = choose|k: int|
            0 <= k <= a.len() - copies.len() && #[trigger] a.subrange(k, k + copies.len())
                == copies;
        assert(b.subrange(0, a.len() as int) == a);
        assert(b.subrange(k, k + copies.len()) =~= a.subrange(k, k + copies.len())) by {
            assert forall|i: int| k <= i < k + copies.len() implies b[i] == a[i] by {
                assert(b.subrange(0, a.len() as int)[i] == a[i]);
            }
        }
    } else {
        let j = choose|j: int|
            0 <= j < p.splits.len() && (#[trigger] p.splits[j]).pred == pred
                && p.splits[j].succ_label == labels[block] && p.splits[j].copies == copies;
        assert(q.splits[j] == p.splits[j]);
    }
}

proof fn lemma_grown_twice(p: Placed, q: Placed, r: Placed)
    requires
        grown(p, q),
        grown(q, r),
    ensures
        grown(p, r),
{
    assert forall|i: int| 0 <= i < p.pending.len() implies p.pending[i].len() <= (
    #[trigger] r.pending[i]).len() && r.pending[i].subrange(0, p.pending[i].len() as int)
        == p.pending[i] by {
        assert(q.pending[i].len() >= p.pending[i].len());
        assert(r.pending[i].subrange(0, p.pending[i].len() as int) =~= q.pending[i].subrange(
            0,
            p.pending[i].len() as int,
        )) by {
            assert forall|x: int| 0 <= x < p.pending[i].len() implies r.pending[i][x]
                == q.pending[i][x] by {
                assert(r.pending[i].subrange(0, q.pending[i].len() as int)[x] == q.pending[i][x]);
            }
        }
    }
    assert forall|j: int| 0 <= j < p.splits.len() implies #[trigger] r.splits[j] == p.splits[j] by {
        assert(q.splits[j] == p.splits[j]);
    }
}

proof fn lemma_place_edge(
    p: Placed,
    succ: Seq<Seq<usize>>,
    labels: Seq<LabelModel>,
    phis: Seq<PhiModel>,
    block: int,
    pred: usize,
)
    requires
        pred < p.pending.len(),
    ensures
        ({
            let q = place_edge(p, succ, labels, phis, block, pred);
            let copies = edge_copies(phis, labels[pred as int].text());
            grown(p, q) && (copies.len() > 0 ==> placed_on(q, succ, labels, pred, block, copies))
        }),
{
    let q = place_edge(p, succ, labels, phis, block, pred);
    let copies = edge_copies(phis, labels[pred as int].text());
    assert forall|i: int| 0 <= i < p.pending.len() implies p.pending[i].len() <= (
    #[trigger] q.pending[i]).len() && q.pending[i].subrange(0, p.pending[i].len() as int)
        == p.pending[i] by {
        assert(q.pending[i].subrange(0, p.pending[i].len() as int) =~= p.pending[i]);
    }
    if copies.len() > 0 {
        if succ[pred as int].len() == 1 {
            let k = p.pending[pred as int].len() as int;
            assert(q.pending[pred as int].subrange(k, k + copies.len()) =~= copies);
        } else {
            assert(q.splits[p.splits.len() as int].pred == pred);
        }
    }
}

proof fn lemma_place_edges(
    p: Placed,
    succ: Seq<Seq<usize>>,
    labels: Seq<LabelModel>,
    phis: Seq<PhiModel>,
    block: int,
    preds: Seq<usize>,
)
    requires
        forall|i: int| 0 <= i < preds.len() ==> #[trigger] preds[i] < p.pending.len(),
    ensures
        grown(p, place_edges(p, succ, labels, phis, block, preds)),
        forall|i: int|
            0 <= i < preds.len() ==> {
                let copies = edge_copies(phis, labels[#[trigger] preds[i] as int].text());
                copies.len() > 0 ==> placed_on(
                    place_edges(p, succ, labels, phis, block, preds),
                    succ,
                    labels,
                    preds[i],
                    block,
                    copies,
                )
            },
    decreases preds.len(),
{
    if preds.len() == 0 {
        assert forall|i: int| 0 <= i < p.pending.len() implies (
        #[trigger] p.pending[i]).subrange(0, p.pending[i].len() as int) == p.pending[i] by {
            assert(p.pending[i].subrange(0, p.pending[i].len() as int) =~= p.pending[i]);
        }
    } else {
        let front = preds.drop_last();
        lemma_place_edges(p, succ, labels, phis, block, front);
        let q = place_edges(p, succ, labels, phis, block, front);
        let r = place_edge(q, succ, labels, phis, block, preds.last());
        lemma_place_edge(q, succ, labels, phis, block, preds.last());
        lemma_grown_twice(p, q, r);
        assert forall|i: int| 0 <= i < preds.len() && edge_copies(
            phis,
            labels[#[trigger] preds[i] as int].text(),
        ).len() > 0 implies placed_on(
            r,
            succ,
            labels,
            preds[i],
            block,
            edge_copies(phis, labels[preds[i] as int].text()),
        ) by {
            if i < front.len() {
                assert(front[i] == preds[i]);
                lemma_grown_keeps(
                    q,
                    r,
                    succ,
                    labels,
                    preds[i],
                    block,
                    edge_copies(phis, labels[preds[i] as int].text()),
                );
            }
        }
    }
}

/// Every predecessor is the position of a block.
pub open spec fn preds_in_range(succ: Seq<Seq<usize>>) -> bool {
    forall|b: int, i: int|
        0 <= b < succ.len() && 0 <= i < predecessors_of(succ, b).len()
            ==> #[trigger] predecessors_of(succ, b)[i] < succ.len()
}

proof fn lemma_place_blocks(
    p: Placed,
    succ: Seq<Seq<usize>>,
    labels: Seq<LabelModel>,
    blocks: Seq<ParsedModel>,
    k: nat,
    b: int,
    i: int,
)
    requires
        preds_in_range(succ),
        k <= succ.len(),
        succ.len() == p.pending.len(),
        0 <= b < succ.len(),
        0 <= i < predecessors_of(succ, b).len(),
    ensures
        grown(p, place_blocks(p, succ, labels, blocks, k)),
        ({
            let pred = predecessors_of(succ, b)[i];
            let copies = edge_copies(blocks[b].phis, labels[pred as int].text());
            b < k && copies.len() > 0 ==> placed_on(
                place_blocks(p, succ, labels, blocks, k),
                succ,
                labels,
                pred,
                b,
                copies,
            )
        }),
    decreases k,
{
    if k == 0 {
        lemma_place_edges(p, succ, labels, Seq::empty(), 0, Seq::empty());
    } else {
        let pred = predecessors_of(succ, b)[i];
        let copies = edge_copies(blocks[b].phis, labels[pred as int].text());
        lemma_place_blocks(p, succ, labels, blocks, (k - 1) as nat, b, i);
        let front = place_blocks(p, succ, labels, blocks, (k - 1) as nat);
        if blocks[k - 1].phis.len() > 0 {
            let preds = predecessors_of(succ, k - 1);
            assert forall|x: int| 0 <= x < preds.len() implies #[trigger] preds[x]
                < front.pending.len() by {
                assert(predecessors_of(succ, k - 1)[x] < succ.len());
            }
            lemma_place_edges(front, succ, labels, blocks[k - 1].phis, k - 1, preds);
            let r = place_blocks(p, succ, labels, blocks, k);
            lemma_grown_twice(p, front, r);
            if b < k - 1 && copies.len() > 0 {
                lemma_grown_keeps(front, r, succ, labels, pred, b, copies);
            }
        }
    }
}

proof fn lemma_sources_in_range(succ: Seq<Seq<usize>>, j: int, i: nat, k: nat, x: int)
    requires
        succ.len() <= usize::MAX,
        i < succ.len() || i == succ.len() && k == 0,
        0 <= x < sources(succ, j, i, k).len(),
    ensures
        sources(succ, j, i, k)[x] < succ.len(),
    decreases i, k,
{
    if k > 0 {
        let rest = sources(succ, j, i, (k - 1) as nat);
        if x < rest.len() {
            lemma_sources_in_range(succ, j, i, (k - 1) as nat, x);
        }
    } else if i > 0 {
        lemma_sources_in_range(succ, j, (i - 1) as nat, succ[i - 1].len(), x);
    }
}

/// The copies of every edge have a place: at the end of the block that the
/// edge leaves, where control goes nowhere else, or in a block of their own on
/// the edge.
pub proof fn lemma_edges_have_copies(blocks: Seq<BlockModel>, b: int, i: int)
    requires
        blocks.len() <= usize::MAX,
        0 <= b < blocks.len(),
        0 <= i < predecessors_of(block_succ(blocks), b).len(),
    ensures
        ({
            let pred = predecessors_of(block_succ(blocks), b)[i];
            let copies = edge_copies(
                parsed_blocks(blocks)[b].phis,
                block_labels(blocks)[pred as int].text(),
            );
            copies.len() > 0 ==> placed_on(
                all_placed(blocks),
                block_succ(blocks),
                block_labels(blocks),
                pred,
                b,
                copies,
            )
        }),
{
    let succ = block_succ(blocks);
    assert(preds_in_range(succ)) by {
        assert forall|c: int, x: int|
            0 <= c < succ.len() && 0 <= x < predecessors_of(succ, c).len() implies
            #[trigger] predecessors_of(succ, c)[x] < succ.len() by {
            lemma_sources_in_range(succ, c, succ.len(), 0, x);
        }
    }
    lemma_place_blocks(
        nothing_placed(blocks),
        block_succ(blocks),
        block_labels(blocks),
        parsed_blocks(blocks),
        blocks.len(),
        b,
        i,
    );
}

/// The blocks on edges have numbers from `first` on, each its own.
pub open spec fn splits_numbered(p: Placed, first: nat) -> bool {
    &&& first <= p.next
    &&& forall|j: int|
        0 <= j < p.splits.len() ==> ((#[trigger] p.splits[j]).label matches LabelModel::BasicBlock(
            n,
        ) && first <= n < p.next)
    &&& forall|i: int, j: int|
        0 <= i < j < p.splits.len() ==> (#[trigger] p.splits[i]).label != (
        #[trigger] p.splits[j]).label
}

proof fn lemma_edges_numbered(
    p: Placed,
    succ: Seq<Seq<usize>>,
    labels: Seq<LabelModel>,
    phis: Seq<PhiModel>,
    block: int,
    preds: Seq<usize>,
    first: nat,
)
    requires
        splits_numbered(p, first),
    ensures
        splits_numbered(place_edges(p, succ, labels, phis, block, preds), first),
    decreases preds.len(),
{
    if preds.len() > 0 {
        lemma_edges_numbered(p, succ, labels, phis, block, preds.drop_last(), first);
    }
}

proof fn lemma_blocks_numbered(
    p: Placed,
    succ: Seq<Seq<usize>>,
    labels: Seq<LabelModel>,
    blocks: Seq<ParsedModel>,
    k: nat,
    first: nat,
)
    requires
        splits_numbered(p, first),
    ensures
        splits_numbered(place_blocks(p, succ, labels, blocks, k), first),
    decreases k,
{
    if k > 0 {
        lemma_blocks_numbered(p, succ, labels, blocks, (k - 1) as nat, first);
        lemma_edges_numbered(
            place_blocks(p, succ, labels, blocks, (k - 1) as nat),
            succ,
            labels,
            blocks[k - 1].phis,
            k - 1,
            predecessors_of(succ, k - 1),
            first,
        );
    }
}

proof fn lemma_number_unused(labels: Seq<LabelModel>, i: int)
    requires
        0 <= i < labels.len(),
    ensures
        labels[i] matches LabelModel::BasicBlock(n) ==> n < next_block_id(labels),
    decreases labels.len(),
{
    if i < labels.len() - 1 {
        assert(labels.drop_last()[i] == labels[i]);
        lemma_number_unused(labels.drop_last(), i);
    }
}

/// The labels of the blocks on edges are new: they differ from those of all
/// blocks and from each other.
pub proof fn lemma_split_labels_new(blocks: Seq<BlockModel>, i: int, j: int, b: int)
    requires
        0 <= i < all_placed(blocks).splits.len(),
        0 <= j < all_placed(blocks).splits.len(),
    ensures
        i != j ==> all_placed(blocks).splits[i].label != all_placed(blocks).splits[j].label,
        0 <= b < blocks.len() ==> all_placed(blocks).splits[i].label != blocks[b].label,
{
    let labels = block_labels(blocks);
    let first = next_block_id(labels);
    lemma_blocks_numbered(
        nothing_placed(blocks),
        block_succ(blocks),
        labels,
        parsed_blocks(blocks),
        blocks.len(),
        first,
    );
    let p = all_placed(blocks);
    assert(i < j ==> p.splits[i].label != p.splits[j].label);
    assert(j < i ==> p.splits[j].label != p.splits[i].label);
    if 0 <= b < blocks.len() {
        lemma_number_unused(labels, b);
        assert(labels[b] == blocks[b].label);
    }
}

} // verus!
