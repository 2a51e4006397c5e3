//! Control only follows the edges of the control-flow graph.

use crate::common::cfg::{block_positions, block_succ, branch_targets, branches_resolve, targets_in};
use crate::ir::execution::{Machine, Meaning};
use crate::ir::function::BlockModel;
use crate::ir::stmt::StmtModel;
use crate::opt::dominator::has_edge;
use vstd::prelude::*;

verus! {

/// No two blocks have the same label.
pub open spec fn labels_differ(blocks: Seq<BlockModel>) -> bool {
    forall|i: int, j: int|
        0 <= i < j < blocks.len() ==> (#[trigger] blocks[i]).label.text() != (
        #[trigger] blocks[j]).label.text()
}

/// Control is in block `c` behind block `b` where the condition at the end of
/// `b`, if there is one, holds or does not.
pub open spec fn hands_on(blocks: Seq<BlockModel>, b: int, holds: bool, c: int) -> bool {
    let stmts = blocks[b].stmts;
    let end = if stmts.len() > 0 {
        Some(stmts[stmts.len() - 1])
    } else {
        None
    };
    match end {
        Some(StmtModel::Jump { target }) => blocks[c].label.text() == target.text(),
        Some(StmtModel::CJump { true_label, false_label, .. }) => blocks[c].label.text() == if holds {
            true_label.text()
        } else {
            false_label.text()
        },
        Some(StmtModel::Return { .. }) => false,
        _ => c == b + 1,
    }
}

/// Whether the condition at the end of a block holds.
pub open spec fn decided(m: Meaning, w: Machine, b: BlockModel) -> bool {
    b.stmts.len() > 0 && (b.stmts[b.stmts.len() - 1] matches StmtModel::CJump { cond, .. }
        && w.value(m, cond) != 0)
}

proof fn lemma_position(blocks: Seq<BlockModel>, k: nat, c: int)
    requires
        labels_differ(blocks),
        k <= blocks.len() <= usize::MAX,
        0 <= c < k,
    ensures
        block_positions(blocks, k).contains_key(blocks[c].label.text()),
        block_positions(blocks, k)[blocks[c].label.text()] == c,
    decreases k,
{
    if c < k - 1 {
        lemma_position(blocks, (k - 1) as nat, c);
        assert(blocks[c].label.text() != blocks[k - 1].label.text());
    }
}

proof fn lemma_positions(blocks: Seq<BlockModel>, k: nat, text: Seq<char>)
    requires
        k <= blocks.len() <= usize::MAX,
        block_positions(blocks, k).contains_key(text),
    ensures
        block_positions(blocks, k)[text] < k,
        blocks[block_positions(blocks, k)[text] as int].label.text() == text,
    decreases k,
{
    if k > 0 && text != blocks[k - 1].label.text() {
        lemma_positions(blocks, (k - 1) as nat, text);
    }
}

/// From one block to another there is an edge exactly where control can go on
/// to the other, with the condition true or with the condition false.
pub proof fn lemma_edges_taken(blocks: Seq<BlockModel>, b: int, c: int)
    requires
        labels_differ(blocks),
        branches_resolve(blocks),
        blocks.len() <= usize::MAX,
        0 <= b < blocks.len(),
        0 <= c < blocks.len(),
    ensures
        has_edge(block_succ(blocks), b, c) <==> hands_on(blocks, b, true, c) || hands_on(
            blocks,
            b,
            false,
            c,
        ),
{
    let succ = block_succ(blocks);
    let t = branch_targets(blocks[b]);
    let labels = block_positions(blocks, blocks.len());
    lemma_position(blocks, blocks.len(), c);
    assert(targets_in(blocks[b], labels));
    if hands_on(blocks, b, true, c) {
        assert(succ[b][0] == c);
    }
    if hands_on(blocks, b, false, c) {
        if t.len() == 2 {
            assert(t[1].text() == blocks[c].label.text());
            assert(succ[b][1] == c);
        } else {
            assert(succ[b][0] == c);
        }
    }
    if has_edge(succ, b, c) {
        let k = choose|k: int| 0 <= k < succ[b].len() && #[trigger] succ[b][k] == c;
        if t.len() > 0 {
            assert(labels.contains_key(t[k].text()));
            lemma_positions(blocks, blocks.len(), t[k].text());
            assert(blocks[c].label.text() == t[k].text());
        }
    }
}

/// Whatever the values are when a block ends: the block where control goes on
/// is one of its successors.
pub proof fn lemma_control_follows_edges(
    m: Meaning,
    w: Machine,
    blocks: Seq<BlockModel>,
    b: int,
    c: int,
)
    requires
        labels_differ(blocks),
        branches_resolve(blocks),
        blocks.len() <= usize::MAX,
        0 <= b < blocks.len(),
        0 <= c < blocks.len(),
        hands_on(blocks, b, decided(m, w, blocks[b]), c),
    ensures
        has_edge(block_succ(blocks), b, c),
{
    lemma_edges_taken(blocks, b, c);
}

} // verus!
