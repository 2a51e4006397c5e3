//! Control-flow graphs of basic blocks.

use super::graph::{label_positions, CfgNode, Graph};
use super::names::NameMap;
use crate::ir::function::{block_models, BasicBlock, BlockLabel, BlockModel, LabelModel};
use crate::ir::stmt::{StmtInner, StmtModel};
use vstd::prelude::*;

verus! {

/// The labels that the last statement of a block branches to.
pub open spec fn branch_targets(b: BlockModel) -> Seq<LabelModel> {
    if b.stmts.len() == 0 {
        Seq::empty()
    } else {
        match b.stmts.last() {
            StmtModel::Jump { target } => seq![target],
            StmtModel::CJump { true_label, false_label, .. } => seq![true_label, false_label],
            _ => Seq::empty(),
        }
    }
}

/// Control goes on to the next block: the last statement is neither a branch
/// nor a return.
pub open spec fn falls_through(b: BlockModel) -> bool {
    b.stmts.len() == 0 || !(b.stmts.last() is Jump || b.stmts.last() is CJump
        || b.stmts.last() is Return)
}

/// The positions of the first `k` labels; where a label occurs more than
/// once, its last position.
pub open spec fn block_positions(blocks: Seq<BlockModel>, k: nat) -> Map<Seq<char>, usize>
    decreases k,
{
    if k == 0 {
        Map::empty()
    } else {
        block_positions(blocks, (k - 1) as nat).insert(
            blocks[k - 1].label.text(),
            (k - 1) as usize,
        )
    }
}

/// Every branch target of the block is among the labels.
pub open spec fn targets_in(b: BlockModel, labels: Map<Seq<char>, usize>) -> bool {
    forall|i: int|
        0 <= i < branch_targets(b).len() ==> labels.contains_key(
            (#[trigger] branch_targets(b)[i]).text(),
        )
}

/// The positions of the blocks that may follow the block at position `idx`.
pub open spec fn followers(
    b: BlockModel,
    idx: nat,
    num_nodes: nat,
    labels: Map<Seq<char>, usize>,
) -> Seq<usize> {
    if falls_through(b) {
        if idx + 1 < num_nodes {
            seq![(idx + 1) as usize]
        } else {
            Seq::empty()
        }
    } else {
        Seq::new(branch_targets(b).len(), |i: int| labels[branch_targets(b)[i].text()])
    }
}

/// The successors of every block.
pub open spec fn block_succ(blocks: Seq<BlockModel>) -> Seq<Seq<usize>> {
    Seq::new(
        blocks.len(),
        |i: int|
            followers(
                blocks[i],
                i as nat,
                blocks.len(),
                block_positions(blocks, blocks.len()),
            ),
    )
}

/// Every branch target is the label of a block.
pub open spec fn branches_resolve(blocks: Seq<BlockModel>) -> bool {
    forall|i: int|
        0 <= i < blocks.len() ==> targets_in(
            #[trigger] blocks[i],
            block_positions(blocks, blocks.len()),
        )
}

proof fn lemma_block_positions(blocks: Seq<BasicBlock>, k: nat)
    requires
        k <= blocks.len(),
    ensures
        label_positions(blocks, k) == block_positions(block_models(blocks), k),
    decreases k,
{
    if k > 0 {
        lemma_block_positions(blocks, (k - 1) as nat);
    }
}

/// The branch targets of blocks exist exactly when those of their models do.
pub proof fn lemma_targets_exist(blocks: Seq<BasicBlock>)
    ensures
        targets_exist(blocks) == branches_resolve(block_models(blocks)),
{
    lemma_block_positions(blocks, blocks.len());
    let bs = block_models(blocks);
    let labels = block_positions(bs, bs.len());
    if targets_exist(blocks) {
        assert forall|i: int| 0 <= i < bs.len() implies targets_in(#[trigger] bs[i], labels) by {
            assert(blocks[i].resolvable(labels));
        }
    }
    if branches_resolve(bs) {
        assert forall|i: int| 0 <= i < blocks.len() implies (#[trigger] blocks[i]).resolvable(
            labels,
        ) by {
            assert(targets_in(bs[i], labels));
        }
    }
}

impl CfgNode for BasicBlock {
    open spec fn label_of(&self) -> Option<Seq<char>> {
        Some(self.label@.text())
    }

    open spec fn resolvable(&self, labels: Map<Seq<char>, usize>) -> bool {
        targets_in(self@, labels)
    }

    open spec fn successors_of(
        &self,
        idx: nat,
        num_nodes: nat,
        labels: Map<Seq<char>, usize>,
    ) -> Seq<usize> {
        followers(self@, idx, num_nodes, labels)
    }

    proof fn lemma_successors_in_range(
        &self,
        idx: nat,
        num_nodes: nat,
        labels: Map<Seq<char>, usize>,
    ) {
        assert forall|j: int| 0 <= j < self.successors_of(idx, num_nodes, labels).len() implies (
        #[trigger] self.successors_of(idx, num_nodes, labels)[j]) < num_nodes by {
            if !falls_through(self@) {
                assert(labels.contains_key(branch_targets(self@)[j].text()));
            }
        }
    }

    fn label(&self) -> (label: Option<String>) {
        Some(self.label.key())
    }

    fn successors(&self, idx: usize, num_nodes: usize, label_map: &NameMap<usize>) -> (succs: Vec<
        usize,
    >) {
        let mut succs: Vec<usize> = Vec::new();
        let n: usize = self.stmts.len();
        let ghost targets = branch_targets(self@);
        let falls = if n == 0 {
            true
        } else {
            assert(self@.stmts.last() == self.stmts@[n - 1]@);
            match &self.stmts[n - 1].inner {
                StmtInner::Jump(j) => {
                    assert(targets[0] == j.target@);
                    succs.push(label_map.number_of(j.target.key().as_str()).unwrap());
                    false
                },
                StmtInner::CJump(j) => {
                    assert(targets[0] == j.true_label@ && targets[1] == j.false_label@);
                    succs.push(label_map.number_of(j.true_label.key().as_str()).unwrap());
                    succs.push(label_map.number_of(j.false_label.key().as_str()).unwrap());
                    false
                },
                StmtInner::Return(_) => false,
                _ => true,
            }
        };
        if falls && idx + 1 < num_nodes {
            succs.push(idx + 1);
        }
        assert(succs@ =~= self.successors_of(idx as nat, num_nodes as nat, label_map@));
        succs
    }
}

/// The control-flow graph of a list of blocks, with their labels.
pub struct Cfg {
    labels: Vec<BlockLabel>,
    graph: Graph,
}

/// Every branch target is the label of a block.
pub open spec fn targets_exist(blocks: Seq<BasicBlock>) -> bool {
    forall|i: int|
        0 <= i < blocks.len() ==> (#[trigger] blocks[i]).resolvable(
            label_positions(blocks, blocks.len()),
        )
}

/// A label has a position exactly when it is that of a block.
proof fn lemma_positioned(blocks: Seq<BlockModel>, k: nat, label: Seq<char>)
    requires
        k <= blocks.len(),
    ensures
        block_positions(blocks, k).contains_key(label) <==> exists|j: int|
            0 <= j < k && (#[trigger] blocks[j]).label.text() == label,
    decreases k,
{
    if k > 0 {
        lemma_positioned(blocks, (k - 1) as nat, label);
        if blocks[k - 1].label.text() == label {
            assert(0 <= k - 1 < k);
        }
    }
}

/// Whether a label is that of a block.
fn is_block(blocks: &[BasicBlock], label: &BlockLabel) -> (b: bool)
    ensures
        b == label_positions(blocks@, blocks@.len()).contains_key(label@.text()),
{
    let key = label.key();
    let ghost models = block_models(blocks@);
    proof {
        lemma_block_positions(blocks@, blocks@.len());
        lemma_positioned(models, models.len(), key@);
    }
    let mut i: usize = 0;
    while i < blocks.len()
        invariant
            i <= blocks.len(),
            models == block_models(blocks@),
            key@ == label@.text(),
            label_positions(blocks@, blocks@.len()).contains_key(key@) <==> exists|j: int|
                0 <= j < models.len() && (#[trigger] models[j]).label.text() == key@,
            forall|j: int| 0 <= j < i ==> (#[trigger] models[j]).label.text() != key@,
        decreases blocks.len() - i,
    {
        assert(models[i as int].label == blocks@[i as int].label@);
        if blocks[i].label.key() == key {
            return true;
        }
        i = i + 1;
    }
    false
}

/// Whether every branch target is the label of a block.
pub fn branches_have_targets(blocks: &[BasicBlock]) -> (b: bool)
    ensures
        b == targets_exist(blocks@),
{
    let ghost labels = label_positions(blocks@, blocks@.len());
    let mut i: usize = 0;
    while i < blocks.len()
        invariant
            i <= blocks.len(),
            labels == label_positions(blocks@, blocks@.len()),
            forall|j: int| 0 <= j < i ==> (#[trigger] blocks@[j]).resolvable(labels),
        decreases blocks.len() - i,
    {
        let n: usize = blocks[i].stmts.len();
        let ghost targets = branch_targets(blocks@[i as int]@);
        let known = if n == 0 {
            true
        } else {
            assert(blocks@[i as int]@.stmts.last() == blocks@[i as int].stmts@[n - 1]@);
            match &blocks[i].stmts[n - 1].inner {
                StmtInner::Jump(j) => {
                    assert(targets[0] == j.target@);
                    is_block(blocks, &j.target)
                },
                StmtInner::CJump(j) => {
                    assert(targets[0] == j.true_label@ && targets[1] == j.false_label@);
                    is_block(blocks, &j.true_label) && is_block(blocks, &j.false_label)
                },
                _ => true,
            }
        };
        if !known {
            assert(!blocks@[i as int].resolvable(labels));
            return false;
        }
        i = i + 1;
    }
    true
}

impl Cfg {
    /// The graph.
    pub closed spec fn model(&self) -> Graph {
        self.graph
    }

    /// The labels of the blocks.
    pub closed spec fn label_seq(&self) -> Seq<LabelModel> {
        Seq::new(self.labels@.len(), |i: int| self.labels@[i]@)
    }

    /// One label per node, and a well-formed graph.
    pub open spec fn wf(&self) -> bool {
        self.model().wf() && self.label_seq().len() == self.model().succ().len()
    }

    /// Builds the control-flow graph of `blocks`.
    pub fn from_blocks(blocks: &[BasicBlock]) -> (cfg: Self)
        requires
            targets_exist(blocks@),
        ensures
            cfg.wf(),
            cfg.model().succ().len() == blocks.len(),
            forall|i: int|
                0 <= i < blocks.len() ==> #[trigger] cfg.label_seq()[i] == blocks@[i].label@,
            cfg.model().succ() == block_succ(block_models(blocks@)),
    {
        let mut labels: Vec<BlockLabel> = Vec::new();
        let mut i: usize = 0;
        while i < blocks.len()
            invariant
                i <= blocks.len(),
                labels.len() == i,
                forall|j: int| 0 <= j < i ==> #[trigger] labels@[j]@ == blocks@[j].label@,
            decreases blocks.len() - i,
        {
            labels.push(blocks[i].label.clone());
            i = i + 1;
        }
        let graph = Graph::from_nodes(blocks);
        proof {
            lemma_block_positions(blocks@, blocks@.len());
            assert(graph.succ() =~= block_succ(block_models(blocks@)));
        }
        Cfg { labels, graph }
    }

    /// The graph of the blocks.
    pub fn graph(&self) -> (g: &Graph)
        ensures
            *g == self.model(),
    {
        &self.graph
    }

    /// The number of blocks.
    pub fn num_blocks(&self) -> (n: usize)
        ensures
            n == self.model().succ().len(),
    {
        self.graph.num_nodes()
    }

    /// The blocks that may follow `block`.
    pub fn successors(&self, block: usize) -> (list: &[usize])
        requires
            self.wf(),
            block < self.model().succ().len(),
        ensures
            list@ == self.model().succ()[block as int],
    {
        self.graph.successors(block)
    }

    /// The blocks that may precede `block`.
    pub fn predecessors(&self, block: usize) -> (list: &[usize])
        requires
            self.wf(),
            block < self.model().succ().len(),
        ensures
            list@ == self.model().pred()[block as int],
    {
        self.graph.predecessors(block)
    }

    /// The label of `block`.
    pub fn label(&self, block: usize) -> (l: &BlockLabel)
        requires
            block < self.label_seq().len(),
        ensures
            l@ == self.label_seq()[block as int],
    {
        &self.labels[block]
    }

    /// The labels of all blocks.
    pub fn labels(&self) -> (ls: &[BlockLabel])
        ensures
            Seq::new(ls@.len(), |i: int| ls@[i]@) == self.label_seq(),
    {
        self.labels.as_slice()
    }
}

} // verus!
