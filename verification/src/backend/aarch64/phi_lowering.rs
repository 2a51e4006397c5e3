//! The end of SSA form: phis become copies on the edges into their blocks.
//!
//! The copies of an edge run in parallel.  They stand before the branch of
//! the predecessor when the edge is its only one; otherwise the edge is split
//! by a new block.

use crate::common::cfg::{
    block_succ, branches_have_targets, branches_resolve, lemma_targets_exist, Cfg,
};
use crate::common::graph::predecessors_of;
use crate::ir::function::{
    block_models, stmt_models, BasicBlock, BlockLabel, BlockModel, LabelModel,
};
use crate::ir::stmt::{copy_incomings, incoming_models, PhiStmt, Stmt, StmtInner, StmtModel};
use crate::ir::value::{Operand, OperandModel};
use vstd::prelude::*;

verus! {

/// One of the copies that run in parallel.
#[derive(Debug)]
pub struct ParallelCopy {
    pub dst: Operand,
    pub src: Operand,
}

/// The mathematical model of a [`ParallelCopy`].
pub struct CopyModel {
    pub dst: OperandModel,
    pub src: OperandModel,
}

impl View for ParallelCopy {
    type V = CopyModel;

    open spec fn view(&self) -> CopyModel {
        CopyModel { dst: self.dst@, src: self.src@ }
    }
}

impl Clone for ParallelCopy {
    fn clone(&self) -> (copy: Self)
        ensures
            copy == *self,
    {
        ParallelCopy { dst: self.dst.clone(), src: self.src.clone() }
    }
}

/// The models of a list of copies.
pub open spec fn copy_models(copies: Seq<ParallelCopy>) -> Seq<CopyModel> {
    Seq::new(copies.len(), |i: int| copies[i]@)
}

/// The two operands are the same value.
pub open spec fn same(a: OperandModel, b: OperandModel) -> bool {
    match (a, b) {
        (OperandModel::Const { val: x, .. }, OperandModel::Const { val: y, .. }) => x == y,
        (OperandModel::Local(x), OperandModel::Local(y)) => x.id == y.id,
        (OperandModel::Global { name: x, .. }, OperandModel::Global { name: y, .. }) => x == y,
        _ => false,
    }
}

/// Whether the two operands are the same value.
pub fn same_operand(lhs: &Operand, rhs: &Operand) -> (b: bool)
    ensures
        b == same(lhs@, rhs@),
{
    match (lhs, rhs) {
        (Operand::Const(l), Operand::Const(r)) => l.val == r.val,
        (Operand::Local(l), Operand::Local(r)) => l.id.0 == r.id.0,
        (Operand::Global(l), Operand::Global(r)) => l.name == r.name,
        _ => false,
    }
}

/// No pending copy reads what copy `i` writes.
pub open spec fn is_ready(copies: Seq<CopyModel>, i: int) -> bool {
    forall|j: int| 0 <= j < copies.len() ==> !same(copies[i].dst, (#[trigger] copies[j]).src)
}

/// The first copy from position `i` on that no pending copy waits for.
pub open spec fn first_ready(copies: Seq<CopyModel>, i: nat) -> Option<nat>
    decreases copies.len() - i,
{
    if i >= copies.len() {
        None
    } else if is_ready(copies, i as int) {
        Some(i)
    } else {
        first_ready(copies, i + 1)
    }
}

/// The first copy that can go ahead, if there is one.
pub fn find_ready_copy(copies: &Vec<ParallelCopy>) -> (r: Option<usize>)
    ensures
        match r {
            Some(i) => first_ready(copy_models(copies@), 0) == Some(i as nat) && i < copies.len(),
            None => first_ready(copy_models(copies@), 0) is None,
        },
{
    let ghost models = copy_models(copies@);
    let mut i: usize = 0;
    while i < copies.len()
        invariant
            i <= copies.len(),
            models == copy_models(copies@),
            first_ready(models, 0) == first_ready(models, i as nat),
        decreases copies.len() - i,
    {
        let mut ready = true;
        let mut j: usize = 0;
        while j < copies.len() && ready
            invariant
                i < copies.len(),
                j <= copies.len(),
                models == copy_models(copies@),
                ready ==> forall|k: int|
                    0 <= k < j ==> !same(models[i as int].dst, (#[trigger] models[k]).src),
                !ready ==> !is_ready(models, i as int),
            decreases copies.len() - j,
        {
            if same_operand(&copies[i].dst, &copies[j].src) {
                assert(same(models[i as int].dst, models[j as int].src));
                ready = false;
            }
            j = j + 1;
        }
        if ready {
            return Some(i);
        }
        i = i + 1;
    }
    None
}

/// A phi: what it writes, and where its values come from.
pub struct PhiModel {
    pub dst: OperandModel,
    pub incomings: Seq<(LabelModel, OperandModel)>,
}

/// The models of a list of phis.
pub open spec fn phi_models(phis: Seq<PhiStmt>) -> Seq<PhiModel> {
    Seq::new(
        phis.len(),
        |i: int| PhiModel { dst: phis[i].dst@, incomings: incoming_models(phis[i].incomings@) },
    )
}

/// The phis among some statements.
pub open spec fn phis_of(stmts: Seq<StmtModel>) -> Seq<PhiModel>
    decreases stmts.len(),
{
    if stmts.len() == 0 {
        Seq::empty()
    } else {
        let front = phis_of(stmts.drop_last());
        match stmts.last() {
            StmtModel::Phi { dst, incomings } => front.push(PhiModel { dst, incomings }),
            _ => front,
        }
    }
}

/// The statements that are not phis.
pub open spec fn body_of(stmts: Seq<StmtModel>) -> Seq<StmtModel>
    decreases stmts.len(),
{
    if stmts.len() == 0 {
        Seq::empty()
    } else {
        let front = body_of(stmts.drop_last());
        match stmts.last() {
            StmtModel::Phi { .. } => front,
            s => front.push(s),
        }
    }
}

/// A block without its phis.
pub struct ParsedBlock {
    pub label: BlockLabel,
    pub phis: Vec<PhiStmt>,
    pub body: Vec<Stmt>,
}

/// The mathematical model of a [`ParsedBlock`].
pub struct ParsedModel {
    pub label: LabelModel,
    pub phis: Seq<PhiModel>,
    pub body: Seq<StmtModel>,
}

impl View for ParsedBlock {
    type V = ParsedModel;

    open spec fn view(&self) -> ParsedModel {
        ParsedModel {
            label: self.label@,
            phis: phi_models(self.phis@),
            body: stmt_models(self.body@),
        }
    }
}

/// The models of a list of parsed blocks.
pub open spec fn parsed_models(blocks: Seq<ParsedBlock>) -> Seq<ParsedModel> {
    Seq::new(blocks.len(), |i: int| blocks[i]@)
}

/// A block taken apart.
pub open spec fn parsed(b: BlockModel) -> ParsedModel {
    ParsedModel { label: b.label, phis: phis_of(b.stmts), body: body_of(b.stmts) }
}

impl ParsedBlock {
    fn from_block(block: &BasicBlock) -> (p: Self)
        ensures
            p@ == parsed(block@),
    {
        let mut phis: Vec<PhiStmt> = Vec::new();
        let mut body: Vec<Stmt> = Vec::new();
        let ghost stmts = stmt_models(block.stmts@);
        let mut i: usize = 0;
        assert(stmts.take(0) =~= Seq::empty());
        assert(phi_models(phis@) =~= Seq::empty());
        assert(stmt_models(body@) =~= Seq::empty());
        while i < block.stmts.len()
            invariant
                i <= block.stmts.len(),
                stmts == stmt_models(block.stmts@),
                phi_models(phis@) == phis_of(stmts.take(i as int)),
                stmt_models(body@) == body_of(stmts.take(i as int)),
            decreases block.stmts.len() - i,
        {
            assert(stmts.take(i + 1).drop_last() =~= stmts.take(i as int));
            assert(stmts.take(i + 1).last() == block.stmts@[i as int]@);
            let ghost phis_before = phi_models(phis@);
            let ghost body_before = stmt_models(body@);
            match &block.stmts[i].inner {
                StmtInner::Phi(phi) => {
                    phis.push(
                        PhiStmt {
                            dst: phi.dst.clone(),
                            incomings: copy_incomings(&phi.incomings),
                        },
                    );
                    assert(phi_models(phis@) =~= phis_before.push(
                        PhiModel {
                            dst: phi.dst@,
                            incomings: incoming_models(phi.incomings@),
                        },
                    ));
                },
                _ => {
                    body.push(block.stmts[i].clone());
                    assert(stmt_models(body@) =~= body_before.push(stmts[i as int]));
                },
            }
            i = i + 1;
        }
        assert(stmts.take(i as int) =~= stmts);
        ParsedBlock { label: block.label.clone(), phis, body }
    }
}

/// The value that comes from the block with the given label: the first that
/// is listed, or zero.
pub open spec fn incoming_from(
    incomings: Seq<(LabelModel, OperandModel)>,
    label: Seq<char>,
    i: nat,
) -> OperandModel
    decreases incomings.len() - i,
{
    if i >= incomings.len() {
        OperandModel::i32_const(0)
    } else if incomings[i as int].0.text() == label {
        incomings[i as int].1
    } else {
        incoming_from(incomings, label, i + 1)
    }
}

/// The copies for an edge from the block with the given label; copies of a
/// value to itself are left out.
pub open spec fn edge_copies(phis: Seq<PhiModel>, label: Seq<char>) -> Seq<CopyModel>
    decreases phis.len(),
{
    if phis.len() == 0 {
        Seq::empty()
    } else {
        let front = edge_copies(phis.drop_last(), label);
        let copy = CopyModel {
            dst: phis.last().dst,
            src: incoming_from(phis.last().incomings, label, 0),
        };
        if same(copy.dst, copy.src) {
            front
        } else {
            front.push(copy)
        }
    }
}

fn find_incoming(incomings: &Vec<(BlockLabel, Operand)>, label: &String) -> (op: Operand)
    ensures
        op@ == incoming_from(incoming_models(incomings@), label@, 0),
{
    let ghost models = incoming_models(incomings@);
    let mut i: usize = 0;
    while i < incomings.len()
        invariant
            i <= incomings.len(),
            models == incoming_models(incomings@),
            incoming_from(models, label@, 0) == incoming_from(models, label@, i as nat),
        decreases incomings.len() - i,
    {
        if incomings[i].0.key() == *label {
            return incomings[i].1.clone();
        }
        i = i + 1;
    }
    Operand::from(0i32)
}

fn build_parallel_copies(phis: &Vec<PhiStmt>, pred_label: &BlockLabel) -> (copies: Vec<
    ParallelCopy,
>)
    ensures
        copy_models(copies@) == edge_copies(phi_models(phis@), pred_label@.text()),
{
    let label = pred_label.key();
    let mut copies: Vec<ParallelCopy> = Vec::new();
    let ghost models = phi_models(phis@);
    let mut i: usize = 0;
    assert(models.take(0) =~= Seq::empty());
    assert(copy_models(copies@) =~= Seq::empty());
    while i < phis.len()
        invariant
            i <= phis.len(),
            models == phi_models(phis@),
            label@ == pred_label@.text(),
            copy_models(copies@) == edge_copies(models.take(i as int), label@),
        decreases phis.len() - i,
    {
        assert(models.take(i + 1).drop_last() =~= models.take(i as int));
        assert(models.take(i + 1).last() == models[i as int]);
        let ghost before_copies = copy_models(copies@);
        let src = find_incoming(&phis[i].incomings, &label);
        if !same_operand(&phis[i].dst, &src) {
            let ghost m = CopyModel { dst: phis@[i as int].dst@, src: src@ };
            copies.push(ParallelCopy { dst: phis[i].dst.clone(), src });
            assert(copy_models(copies@) =~= before_copies.push(m));
        }
        i = i + 1;
    }
    assert(models.take(i as int) =~= models);
    copies
}

/// A new block on an edge.
pub struct SplitEdge {
    pub pred: usize,
    pub succ_label: BlockLabel,
    pub label: BlockLabel,
    pub copies: Vec<ParallelCopy>,
}

/// The mathematical model of a [`SplitEdge`].
pub struct SplitModel {
    pub pred: usize,
    pub succ_label: LabelModel,
    pub label: LabelModel,
    pub copies: Seq<CopyModel>,
}

impl View for SplitEdge {
    type V = SplitModel;

    open spec fn view(&self) -> SplitModel {
        SplitModel {
            pred: self.pred,
            succ_label: self.succ_label@,
            label: self.label@,
            copies: copy_models(self.copies@),
        }
    }
}

/// The models of a list of new blocks.
pub open spec fn split_models(splits: Seq<SplitEdge>) -> Seq<SplitModel> {
    Seq::new(splits.len(), |i: int| splits[i]@)
}

/// The models of the copies at the end of each block.
pub open spec fn pending_models(pending: Seq<Vec<ParallelCopy>>) -> Seq<Seq<CopyModel>> {
    Seq::new(pending.len(), |i: int| copy_models(pending[i]@))
}

/// What has been placed so far.
#[verifier::ext_equal]
pub struct Placed {
    /// The copies at the end of each block.
    pub pending: Seq<Seq<CopyModel>>,
    pub splits: Seq<SplitModel>,
    /// The number of the next new block.
    pub next: nat,
}

/// The copies of one edge are placed: at the end of the predecessor when it
/// has no other successor, else on a new block.
pub open spec fn place_edge(
    p: Placed,
    succ: Seq<Seq<usize>>,
    labels: Seq<LabelModel>,
    phis: Seq<PhiModel>,
    block: int,
    pred: usize,
) -> Placed {
    let copies = edge_copies(phis, labels[pred as int].text());
    if copies.len() == 0 {
        p
    } else if succ[pred as int].len() == 1 {
        Placed {
            pending: p.pending.update(pred as int, p.pending[pred as int] + copies),
            splits: p.splits,
            next: p.next,
        }
    } else {
        Placed {
            pending: p.pending,
            splits: p.splits.push(
                SplitModel {
                    pred,
                    succ_label: labels[block],
                    label: LabelModel::BasicBlock(p.next),
                    copies,
                },
            ),
            next: p.next + 1,
        }
    }
}

/// The copies of the edges from the first `k` predecessors are placed.
pub open spec fn place_edges(
    p: Placed,
    succ: Seq<Seq<usize>>,
    labels: Seq<LabelModel>,
    phis: Seq<PhiModel>,
    block: int,
    preds: Seq<usize>,
) -> Placed
    decreases preds.len(),
{
    if preds.len() == 0 {
        p
    } else {
        place_edge(
            place_edges(p, succ, labels, phis, block, preds.drop_last()),
            succ,
            labels,
            phis,
            block,
            preds.last(),
        )
    }
}

/// The copies of the edges into the first `k` blocks are placed.
pub open spec fn place_blocks(
    p: Placed,
    succ: Seq<Seq<usize>>,
    labels: Seq<LabelModel>,
    blocks: Seq<ParsedModel>,
    k: nat,
) -> Placed
    decreases k,
{
    if k == 0 {
        p
    } else {
        let front = place_blocks(p, succ, labels, blocks, (k - 1) as nat);
        if blocks[k - 1].phis.len() == 0 {
            front
        } else {
            place_edges(
                front,
                succ,
                labels,
                blocks[k - 1].phis,
                k - 1,
                predecessors_of(succ, k - 1),
            )
        }
    }
}

/// A number above those of all numbered blocks.
pub open spec fn next_block_id(labels: Seq<LabelModel>) -> nat
    decreases labels.len(),
{
    if labels.len() == 0 {
        1
    } else {
        let front = next_block_id(labels.drop_last());
        match labels.last() {
            LabelModel::BasicBlock(n) => if n + 1 > front {
                n + 1
            } else {
                front
            },
            _ => front,
        }
    }
}

/// A branch that goes to a new block in place of the block with the label
/// `key`.
pub open spec fn retargeted(s: StmtModel, key: Seq<char>, label: LabelModel) -> StmtModel {
    match s {
        StmtModel::Jump { target } => StmtModel::Jump {
            target: if target.text() == key {
                label
            } else {
                target
            },
        },
        StmtModel::CJump { cond, true_label, false_label } => StmtModel::CJump {
            cond,
            true_label: if true_label.text() == key {
                label
            } else {
                true_label
            },
            false_label: if false_label.text() == key {
                label
            } else {
                false_label
            },
        },
        _ => s,
    }
}

/// The last statement of a block, with its branch retargeted.
pub open spec fn with_last_retargeted(
    body: Seq<StmtModel>,
    key: Seq<char>,
    label: LabelModel,
) -> Seq<StmtModel> {
    if body.len() == 0 {
        body
    } else {
        body.drop_last().push(retargeted(body.last(), key, label))
    }
}

/// The blocks with their branches retargeted to the new blocks.
pub open spec fn patched(blocks: Seq<ParsedModel>, splits: Seq<SplitModel>) -> Seq<ParsedModel>
    decreases splits.len(),
{
    if splits.len() == 0 {
        blocks
    } else {
        let front = patched(blocks, splits.drop_last());
        let s = splits.last();
        let b = front[s.pred as int];
        front.update(
            s.pred as int,
            ParsedModel {
                label: b.label,
                phis: b.phis,
                body: with_last_retargeted(b.body, s.succ_label.text(), s.label),
            },
        )
    }
}

/// The labels of the blocks.
pub open spec fn block_labels(blocks: Seq<BlockModel>) -> Seq<LabelModel> {
    Seq::new(blocks.len(), |i: int| blocks[i].label)
}

/// The blocks taken apart.
pub open spec fn parsed_blocks(blocks: Seq<BlockModel>) -> Seq<ParsedModel> {
    Seq::new(blocks.len(), |i: int| parsed(blocks[i]))
}

/// Nothing has been placed yet.
pub open spec fn nothing_placed(blocks: Seq<BlockModel>) -> Placed {
    Placed {
        pending: Seq::new(blocks.len(), |i: int| Seq::empty()),
        splits: Seq::empty(),
        next: next_block_id(block_labels(blocks)),
    }
}

/// All copies, placed.
pub open spec fn all_placed(blocks: Seq<BlockModel>) -> Placed {
    place_blocks(
        nothing_placed(blocks),
        block_succ(blocks),
        block_labels(blocks),
        parsed_blocks(blocks),
        blocks.len(),
    )
}

/// How a function leaves SSA form.
pub struct LoweringPlan {
    pub blocks: Vec<ParsedBlock>,
    /// The copies at the end of each block.
    pub pending_inserts: Vec<Vec<ParallelCopy>>,
    pub splits: Vec<SplitEdge>,
}

/// Plans how the phis of a function become copies.
pub fn plan(blocks: &[BasicBlock]) -> (plan: LoweringPlan)
    requires
        plannable(block_models(blocks@)),
    ensures
        parsed_models(plan.blocks@) == patched(
            parsed_blocks(block_models(blocks@)),
            all_placed(block_models(blocks@)).splits,
        ),
        pending_models(plan.pending_inserts@) == all_placed(block_models(blocks@)).pending,
        split_models(plan.splits@) == all_placed(block_models(blocks@)).splits,
{
    let mut parsed: Vec<ParsedBlock> = Vec::new();
    let mut pending: Vec<Vec<ParallelCopy>> = Vec::new();
    let mut i: usize = 0;
    while i < blocks.len()
        invariant
            i <= blocks.len(),
            parsed.len() == i,
            pending.len() == i,
            forall|k: int|
                0 <= k < i ==> (#[trigger] parsed@[k])@ == parsed_blocks(block_models(blocks@))[k],
            forall|k: int| 0 <= k < i ==> (#[trigger] pending@[k])@.len() == 0,
        decreases blocks.len() - i,
    {
        parsed.push(ParsedBlock::from_block(&blocks[i]));
        pending.push(Vec::new());
        i = i + 1;
    }
    proof {
        lemma_targets_exist(blocks@);
    }
    let cfg = Cfg::from_blocks(blocks);
    let ghost succ = block_succ(block_models(blocks@));
    let ghost labels = block_labels(block_models(blocks@));
    proof {
        assert(cfg.model().succ() =~= succ);
        assert(cfg.label_seq() =~= labels);
        assert(parsed_models(parsed@) =~= parsed_blocks(block_models(blocks@)));
        assert(pending_models(pending@) =~= nothing_placed(block_models(blocks@)).pending) by {
            assert forall|k: int| 0 <= k < blocks.len() implies #[trigger] pending_models(
                pending@,
            )[k] == nothing_placed(block_models(blocks@)).pending[k] by {
                assert(copy_models(pending@[k]@) =~= Seq::empty());
            }
        }
        lemma_place_blocks_grow(
            nothing_placed(block_models(blocks@)),
            succ,
            labels,
            parsed_blocks(block_models(blocks@)),
            blocks@.len(),
            0,
        );
    }
    let next: usize = next_basic_block_id(cfg.labels(), Ghost(block_models(blocks@)));
    let mut edges = EdgeCopies { splits: Vec::new(), pending_inserts: pending, next_block_id: next };
    assert(split_models(edges.splits@) =~= Seq::empty());
    assert(edges.model() =~= nothing_placed(block_models(blocks@)));
    place_phi_copies(&parsed, &cfg, &mut edges, Ghost(block_models(blocks@)));
    edges.patch_terminators(&mut parsed, Ghost(block_models(blocks@)));
    LoweringPlan { blocks: parsed, pending_inserts: edges.pending_inserts, splits: edges.splits }
}

/// The phis of the function can become copies: its branches have targets, and
/// the numbers of the new blocks fit.
pub open spec fn plannable(blocks: Seq<BlockModel>) -> bool {
    branches_resolve(blocks) && all_placed(blocks).next <= usize::MAX
}

/// Whether the phis of a function can become copies.
pub fn can_plan(blocks: &[BasicBlock]) -> (b: bool)
    ensures
        b == plannable(block_models(blocks@)),
{
    proof {
        lemma_targets_exist(blocks@);
    }
    if !branches_have_targets(blocks) {
        return false;
    }
    let ghost labels = block_labels(block_models(blocks@));
    let ghost succ = block_succ(block_models(blocks@));
    let ghost parts = parsed_blocks(block_models(blocks@));
    let ghost start = nothing_placed(block_models(blocks@));
    proof {
        lemma_place_blocks_grow(start, succ, labels, parts, blocks@.len(), 0);
    }
    let mut next: usize = 1;
    let mut i: usize = 0;
    assert(labels.take(0) =~= Seq::empty());
    while i < blocks.len()
        invariant
            i <= blocks.len(),
            labels == block_labels(block_models(blocks@)),
            start == nothing_placed(block_models(blocks@)),
            start.next <= all_placed(block_models(blocks@)).next,
            next == next_block_id(labels.take(i as int)),
        decreases blocks.len() - i,
    {
        proof {
            assert(labels.take(i + 1).drop_last() =~= labels.take(i as int));
            assert(labels.take(i + 1).last() == labels[i as int]);
            lemma_next_block_id_grows(labels, i + 1);
        }
        if let BlockLabel::BasicBlock(k) = blocks[i].label {
            if k == usize::MAX {
                return false;
            }
            if k + 1 > next {
                next = k + 1;
            }
        }
        i = i + 1;
    }
    assert(labels.take(i as int) =~= labels);
    let cfg = Cfg::from_blocks(blocks);
    proof {
        assert(cfg.model().succ() =~= succ);
        assert(cfg.label_seq() =~= labels);
    }
    let mut k: usize = 0;
    while k < blocks.len()
        invariant
            k <= blocks.len(),
            cfg.wf(),
            cfg.model().succ() == succ,
            cfg.label_seq() == labels,
            succ == block_succ(block_models(blocks@)),
            succ.len() == blocks.len(),
            labels == block_labels(block_models(blocks@)),
            parts == parsed_blocks(block_models(blocks@)),
            start == nothing_placed(block_models(blocks@)),
            next == place_blocks(start, succ, labels, parts, k as nat).next,
        decreases blocks.len() - k,
    {
        let block = ParsedBlock::from_block(&blocks[k]);
        let ghost front = place_blocks(start, succ, labels, parts, k as nat);
        proof {
            lemma_place_blocks_grow(start, succ, labels, parts, blocks@.len(), (k + 1) as nat);
            cfg.model().lemma_wf();
            cfg.model().lemma_preds_in_range(k as int);
            assert(parts[k as int] == block@);
        }
        if block.phis.len() > 0 {
            match count_splits(&cfg, &block.phis, k, next, Ghost(front)) {
                Some(n) => {
                    next = n;
                },
                None => {
                    return false;
                },
            }
        }
        k = k + 1;
    }
    true
}

/// The number of the next new block when the copies of the edges into a block
/// have been placed, if it fits.
fn count_splits(
    cfg: &Cfg,
    phis: &Vec<PhiStmt>,
    block: usize,
    next: usize,
    Ghost(front): Ghost<Placed>,
) -> (r: Option<usize>)
    requires
        cfg.wf(),
        block < cfg.model().succ().len(),
        next == front.next,
    ensures
        ({
            let placed = place_edges(
                front,
                cfg.model().succ(),
                cfg.label_seq(),
                phi_models(phis@),
                block as int,
                predecessors_of(cfg.model().succ(), block as int),
            );
            match r {
                Some(n) => n == placed.next,
                None => placed.next > usize::MAX,
            }
        }),
{
    let ghost succ = cfg.model().succ();
    let ghost labels = cfg.label_seq();
    let ghost models = phi_models(phis@);
    let preds = cfg.predecessors(block);
    proof {
        cfg.model().lemma_wf();
        cfg.model().lemma_preds_in_range(block as int);
        assert(preds@.take(0) =~= Seq::empty());
    }
    let mut next: usize = next;
    let mut j: usize = 0;
    while j < preds.len()
        invariant
            j <= preds.len(),
            cfg.wf(),
            succ == cfg.model().succ(),
            labels == cfg.label_seq(),
            models == phi_models(phis@),
            preds@ == predecessors_of(succ, block as int),
            forall|e: int| 0 <= e < preds@.len() ==> #[trigger] preds@[e] < succ.len(),
            next == place_edges(
                front,
                succ,
                labels,
                models,
                block as int,
                preds@.take(j as int),
            ).next,
        decreases preds.len() - j,
    {
        let pred: usize = preds[j];
        proof {
            assert(preds@.take(j + 1).drop_last() =~= preds@.take(j as int));
            assert(preds@.take(j + 1).last() == pred);
            lemma_place_edges_grow(front, succ, labels, models, block as int, preds@, j + 1);
        }
        let copies = build_parallel_copies(phis, cfg.label(pred));
        if copies.len() > 0 && cfg.successors(pred).len() != 1 {
            if next == usize::MAX {
                return None;
            }
            next = next + 1;
        }
        j = j + 1;
    }
    assert(preds@.take(j as int) =~= preds@);
    Some(next)
}

fn next_basic_block_id(labels: &[BlockLabel], Ghost(blocks): Ghost<Seq<BlockModel>>) -> (n: usize)
    requires
        Seq::new(labels@.len(), |i: int| labels@[i]@) == block_labels(blocks),
        next_block_id(block_labels(blocks)) <= usize::MAX,
    ensures
        n == next_block_id(block_labels(blocks)),
{
    let ghost models = block_labels(blocks);
    let mut n: usize = 1;
    let mut i: usize = 0;
    assert(models.take(0) =~= Seq::empty());
    while i < labels.len()
        invariant
            i <= labels.len(),
            models == block_labels(blocks),
            Seq::new(labels@.len(), |i: int| labels@[i]@) == models,
            next_block_id(models) <= usize::MAX,
            n == next_block_id(models.take(i as int)),
        decreases labels.len() - i,
    {
        proof {
            assert(models.take(i + 1).drop_last() =~= models.take(i as int));
            assert(models.take(i + 1).last() == models[i as int]);
            assert(Seq::new(labels@.len(), |i: int| labels@[i]@)[i as int] == labels@[i as int]@);
            lemma_next_block_id_grows(models, i + 1);
        }
        if let BlockLabel::BasicBlock(k) = labels[i] {
            if k + 1 > n {
                n = k + 1;
            }
        }
        i = i + 1;
    }
    assert(models.take(i as int) =~= models);
    n
}

proof fn lemma_next_block_id_grows(labels: Seq<LabelModel>, k: int)
    requires
        0 <= k <= labels.len(),
    ensures
        next_block_id(labels.take(k)) <= next_block_id(labels),
    decreases labels.len() - k,
{
    if k < labels.len() {
        lemma_next_block_id_grows(labels, k + 1);
        assert(labels.take(k + 1).drop_last() =~= labels.take(k));
    } else {
        assert(labels.take(k) =~= labels);
    }
}

proof fn lemma_place_edges_grow(
    p: Placed,
    succ: Seq<Seq<usize>>,
    labels: Seq<LabelModel>,
    phis: Seq<PhiModel>,
    block: int,
    preds: Seq<usize>,
    k: int,
)
    requires
        0 <= k <= preds.len(),
    ensures
        place_edges(p, succ, labels, phis, block, preds.take(k)).next <= place_edges(
            p,
            succ,
            labels,
            phis,
            block,
            preds,
        ).next,
    decreases preds.len() - k,
{
    if k < preds.len() {
        lemma_place_edges_grow(p, succ, labels, phis, block, preds, k + 1);
        assert(preds.take(k + 1).drop_last() =~= preds.take(k));
    } else {
        assert(preds.take(k) =~= preds);
    }
}

proof fn lemma_place_blocks_grow(
    p: Placed,
    succ: Seq<Seq<usize>>,
    labels: Seq<LabelModel>,
    blocks: Seq<ParsedModel>,
    n: nat,
    k: nat,
)
    requires
        k <= n,
    ensures
        place_blocks(p, succ, labels, blocks, k).next <= place_blocks(
            p,
            succ,
            labels,
            blocks,
            n,
        ).next,
    decreases n - k,
{
    if k < n {
        lemma_place_blocks_grow(p, succ, labels, blocks, n, k + 1);
        let front = place_blocks(p, succ, labels, blocks, k);
        let preds = predecessors_of(succ, k as int);
        lemma_place_edges_grow(front, succ, labels, blocks[k as int].phis, k as int, preds, 0);
        assert(preds.take(0) =~= Seq::empty());
    }
}

/// The copies placed so far.
struct EdgeCopies {
    splits: Vec<SplitEdge>,
    pending_inserts: Vec<Vec<ParallelCopy>>,
    next_block_id: usize,
}

fn append_copies(list: &mut Vec<ParallelCopy>, copies: Vec<ParallelCopy>)
    ensures
        copy_models(final(list)@) == copy_models(old(list)@) + copy_models(copies@),
{
    let mut copies = copies;
    let ghost a = list@;
    let ghost b = copies@;
    list.append(&mut copies);
    assert(copy_models(list@) =~= copy_models(a) + copy_models(b));
}

impl EdgeCopies {
    spec fn model(&self) -> Placed {
        Placed {
            pending: pending_models(self.pending_inserts@),
            splits: split_models(self.splits@),
            next: self.next_block_id as nat,
        }
    }

    fn split(&mut self, pred: usize, succ_label: BlockLabel, copies: Vec<ParallelCopy>)
        requires
            old(self).next_block_id < usize::MAX,
        ensures
            final(self).model() == (Placed {
                pending: old(self).model().pending,
                splits: old(self).model().splits.push(
                    SplitModel {
                        pred,
                        succ_label: succ_label@,
                        label: LabelModel::BasicBlock(old(self).model().next),
                        copies: copy_models(copies@),
                    },
                ),
                next: old(self).model().next + 1,
            }),
    {
        let label = BlockLabel::BasicBlock(self.next_block_id);
        self.next_block_id = self.next_block_id + 1;
        let ghost start = split_models(self.splits@);
        let edge = SplitEdge { pred, succ_label, label, copies };
        let ghost m = edge@;
        self.splits.push(edge);
        assert(split_models(self.splits@) =~= start.push(m));
    }

    fn insert_at_pred(&mut self, pred: usize, copies: Vec<ParallelCopy>)
        requires
            pred < old(self).model().pending.len(),
        ensures
            final(self).model() == (Placed {
                pending: old(self).model().pending.update(
                    pred as int,
                    old(self).model().pending[pred as int] + copy_models(copies@),
                ),
                splits: old(self).model().splits,
                next: old(self).model().next,
            }),
    {
        let ghost start = pending_models(self.pending_inserts@);
        let mut list: Vec<ParallelCopy> = Vec::new();
        std::mem::swap(&mut list, &mut self.pending_inserts[pred]);
        append_copies(&mut list, copies);
        let ghost m = copy_models(list@);
        self.pending_inserts.set(pred, list);
        assert(pending_models(self.pending_inserts@) =~= start.update(pred as int, m));
    }

    fn patch_terminators(&self, blocks: &mut Vec<ParsedBlock>, Ghost(src): Ghost<Seq<BlockModel>>)
        requires
            parsed_models(old(blocks)@) == parsed_blocks(src),
            forall|i: int|
                0 <= i < self.model().splits.len() ==> (#[trigger] self.model().splits[i]).pred
                    < src.len(),
        ensures
            parsed_models(final(blocks)@) == patched(parsed_blocks(src), self.model().splits),
    {
        let ghost splits = self.model().splits;
        let mut i: usize = 0;
        assert(splits.take(0) =~= Seq::empty());
        assert(parsed_models(blocks@).len() == src.len());
        while i < self.splits.len()
            invariant
                i <= self.splits.len(),
                splits == split_models(self.splits@),
                blocks.len() == src.len(),
                forall|k: int|
                    0 <= k < splits.len() ==> (#[trigger] splits[k]).pred < src.len(),
                parsed_models(blocks@) == patched(parsed_blocks(src), splits.take(i as int)),
            decreases self.splits.len() - i,
        {
            assert(splits.take(i + 1).drop_last() =~= splits.take(i as int));
            assert(splits.take(i + 1).last() == splits[i as int]);
            assert(splits[i as int] == self.splits@[i as int]@);
            let split: &SplitEdge = &self.splits[i];
            let ghost start = parsed_models(blocks@);
            let key = split.succ_label.key();
            let mut block = take_block(blocks, split.pred);
            retarget_last(&mut block.body, &key, &split.label);
            let ghost m = block@;
            blocks.set(split.pred, block);
            assert(parsed_models(blocks@) =~= start.update(split.pred as int, m));
            i = i + 1;
        }
        assert(splits.take(i as int) =~= splits);
    }
}

fn take_block(blocks: &mut Vec<ParsedBlock>, i: usize) -> (b: ParsedBlock)
    requires
        i < old(blocks)@.len(),
    ensures
        b == old(blocks)@[i as int],
        final(blocks)@.len() == old(blocks)@.len(),
        forall|k: int|
            0 <= k < old(blocks)@.len() && k != i ==> #[trigger] final(blocks)@[k] == old(
                blocks,
            )@[k],
{
    let mut b = ParsedBlock {
        label: BlockLabel::BasicBlock(0),
        phis: Vec::new(),
        body: Vec::new(),
    };
    std::mem::swap(&mut b, &mut blocks[i]);
    b
}

fn retarget_last(body: &mut Vec<Stmt>, key: &String, label: &BlockLabel)
    ensures
        stmt_models(final(body)@) == with_last_retargeted(
            stmt_models(old(body)@),
            key@,
            label@,
        ),
{
    let ghost start = stmt_models(body@);
    match body.pop() {
        None => {},
        Some(s) => {
            let ghost before_body = stmt_models(body@);
            assert(before_body =~= start.drop_last());
            let ghost sm = s@;
            let new = match s.inner {
                StmtInner::Jump(j) => {
                    if j.target.key() == *key {
                        Stmt::as_jump(label.clone())
                    } else {
                        Stmt::as_jump(j.target)
                    }
                },
                StmtInner::CJump(j) => {
                    let t = if j.true_label.key() == *key {
                        label.clone()
                    } else {
                        j.true_label
                    };
                    let f = if j.false_label.key() == *key {
                        label.clone()
                    } else {
                        j.false_label
                    };
                    Stmt::as_cjump(j.cond, t, f)
                },
                inner => Stmt { inner },
            };
            let ghost nm = new@;
            body.push(new);
            assert(stmt_models(body@) =~= before_body.push(nm));
        },
    }
}

fn place_phi_copies(
    parsed: &Vec<ParsedBlock>,
    cfg: &Cfg,
    edges: &mut EdgeCopies,
    Ghost(src): Ghost<Seq<BlockModel>>,
)
    requires
        cfg.wf(),
        cfg.model().succ() == block_succ(src),
        cfg.label_seq() == block_labels(src),
        parsed_models(parsed@) == parsed_blocks(src),
        old(edges).model() == nothing_placed(src),
        all_placed(src).next <= usize::MAX,
    ensures
        final(edges).model() == all_placed(src),
        forall|i: int|
            0 <= i < final(edges).model().splits.len() ==> (
            #[trigger] final(edges).model().splits[i]).pred < src.len(),
{
    let ghost succ = block_succ(src);
    let ghost labels = block_labels(src);
    let ghost blocks = parsed_blocks(src);
    let ghost start = nothing_placed(src);
    proof {
        cfg.model().lemma_wf();
        assert(parsed_models(parsed@).len() == src.len());
        assert(start.pending.len() == src.len());
    }
    let mut b: usize = 0;
    while b < parsed.len()
        invariant
            b <= parsed.len(),
            parsed.len() == src.len(),
            cfg.wf(),
            succ == block_succ(src),
            labels == block_labels(src),
            blocks == parsed_blocks(src),
            start == nothing_placed(src),
            cfg.model().succ() == succ,
            cfg.label_seq() == labels,
            cfg.model().wf(),
            parsed_models(parsed@) == blocks,
            all_placed(src).next <= usize::MAX,
            edges.model() == place_blocks(start, succ, labels, blocks, b as nat),
            edges.model().pending.len() == src.len(),
            forall|i: int|
                0 <= i < edges.model().splits.len() ==> (#[trigger] edges.model().splits[i]).pred
                    < src.len(),
        decreases parsed.len() - b,
    {
        assert(parsed_models(parsed@)[b as int] == parsed@[b as int]@);
        let block: &ParsedBlock = &parsed[b];
        if block.phis.len() > 0 {
            let preds = cfg.predecessors(b);
            let ghost front = edges.model();
            let ghost phis = phi_models(block.phis@);
            proof {
                cfg.model().lemma_wf();
                cfg.model().lemma_preds_in_range(b as int);
                lemma_place_blocks_grow(start, succ, labels, blocks, src.len(), (b + 1) as nat);
                assert(phis.len() > 0);
            }
            let mut k: usize = 0;
            assert(preds@.take(0) =~= Seq::empty());
            while k < preds.len()
                invariant
                    k <= preds.len(),
                    b < parsed.len(),
                    parsed.len() == src.len(),
                    cfg.wf(),
                    cfg.model().wf(),
                    succ == block_succ(src),
                    labels == block_labels(src),
                    cfg.model().succ() == succ,
                    cfg.label_seq() == labels,
                    phis == phi_models(block.phis@),
                    preds@ == predecessors_of(succ, b as int),
                    forall|e: int| 0 <= e < preds@.len() ==> (#[trigger] preds@[e]) < src.len(),
                    place_edges(front, succ, labels, phis, b as int, preds@).next <= usize::MAX,
                    edges.model() == place_edges(
                        front,
                        succ,
                        labels,
                        phis,
                        b as int,
                        preds@.take(k as int),
                    ),
                    edges.model().pending.len() == src.len(),
                    forall|i: int|
                        0 <= i < edges.model().splits.len() ==> (
                        #[trigger] edges.model().splits[i]).pred < src.len(),
                decreases preds.len() - k,
            {
                proof {
                    assert(preds@.take(k + 1).drop_last() =~= preds@.take(k as int));
                    assert(preds@.take(k + 1).last() == preds@[k as int]);
                    lemma_place_edges_grow(front, succ, labels, phis, b as int, preds@, k + 1);
                }
                let pred: usize = preds[k];
                let copies = build_parallel_copies(&block.phis, cfg.label(pred));
                let ghost m = copy_models(copies@);
                if copies.len() > 0 {
                    assert(m.len() > 0);
                    if cfg.successors(pred).len() == 1 {
                        edges.insert_at_pred(pred, copies);
                    } else {
                        edges.split(pred, cfg.label(b).clone(), copies);
                    }
                }
                k = k + 1;
            }
            assert(preds@.take(k as int) =~= preds@);
        }
        b = b + 1;
    }
}

} // verus!
