//! From a flat list of statements to basic blocks.
//!
//! A label starts a block.  What stands before the first label or behind a
//! terminator is dropped, allocations move to the entry block, and blocks
//! without statements go.

use crate::ir::function::{block_models, stmt_models, BasicBlock, BlockModel, LabelModel};
use crate::ir::stmt::{Stmt, StmtInner, StmtModel};
use vstd::prelude::*;

verus! {

/// The statement ends a block.
pub open spec fn is_terminator(s: StmtModel) -> bool {
    s is Return || s is Jump || s is CJump
}

/// The blocks so far.
#[verifier::ext_equal]
pub struct Harvest {
    /// The blocks that are complete.
    pub done: Seq<BlockModel>,
    /// The block that is being filled.
    pub open: Option<BlockModel>,
    /// The block that is being filled has its terminator.
    pub closed: bool,
}

impl Harvest {
    /// The complete blocks and the last one.
    pub open spec fn blocks(self) -> Seq<BlockModel> {
        match self.open {
            Some(b) => self.done.push(b),
            None => self.done,
        }
    }
}

/// The blocks after one more statement.
pub open spec fn with_stmt(h: Harvest, s: StmtModel) -> Harvest {
    match s {
        StmtModel::Label { label } => Harvest {
            done: h.blocks(),
            open: Some(BlockModel { label, stmts: Seq::empty() }),
            closed: false,
        },
        _ => match h.open {
            Some(b) => if h.closed {
                h
            } else {
                Harvest {
                    done: h.done,
                    open: Some(BlockModel { label: b.label, stmts: b.stmts.push(s) }),
                    closed: is_terminator(s),
                }
            },
            None => h,
        },
    }
}

/// The blocks of a list of statements.
pub open spec fn gathered(code: Seq<StmtModel>) -> Harvest
    decreases code.len(),
{
    if code.len() == 0 {
        Harvest { done: Seq::empty(), open: None, closed: false }
    } else {
        with_stmt(gathered(code.drop_last()), code.last())
    }
}

/// The allocations of a list.
pub open spec fn only_allocas(stmts: Seq<StmtModel>) -> Seq<StmtModel>
    decreases stmts.len(),
{
    if stmts.len() == 0 {
        Seq::empty()
    } else {
        let front = only_allocas(stmts.drop_last());
        if stmts.last() is Alloca {
            front.push(stmts.last())
        } else {
            front
        }
    }
}

/// A list without its allocations.
pub open spec fn no_allocas(stmts: Seq<StmtModel>) -> Seq<StmtModel>
    decreases stmts.len(),
{
    if stmts.len() == 0 {
        Seq::empty()
    } else {
        let front = no_allocas(stmts.drop_last());
        if stmts.last() is Alloca {
            front
        } else {
            front.push(stmts.last())
        }
    }
}

/// The allocations of all blocks below `n` but the first.
pub open spec fn moved_allocas(blocks: Seq<BlockModel>, n: nat) -> Seq<StmtModel>
    decreases n,
{
    if n <= 1 {
        Seq::empty()
    } else {
        moved_allocas(blocks, (n - 1) as nat) + only_allocas(blocks[n - 1].stmts)
    }
}

/// The blocks with all allocations in the first one.
pub open spec fn hoisted(blocks: Seq<BlockModel>) -> Seq<BlockModel> {
    Seq::new(
        blocks.len(),
        |i: int|
            BlockModel {
                label: blocks[i].label,
                stmts: if i == 0 {
                    moved_allocas(blocks, blocks.len()) + blocks[0].stmts
                } else {
                    no_allocas(blocks[i].stmts)
                },
            },
    )
}

/// The blocks that have statements.
pub open spec fn non_empty(blocks: Seq<BlockModel>) -> Seq<BlockModel>
    decreases blocks.len(),
{
    if blocks.len() == 0 {
        Seq::empty()
    } else {
        let front = non_empty(blocks.drop_last());
        if blocks.last().stmts.len() == 0 {
            front
        } else {
            front.push(blocks.last())
        }
    }
}

/// The statement branches to the label.
pub open spec fn branches_to(s: StmtModel, label: LabelModel) -> bool {
    match s {
        StmtModel::Jump { target } => target.text() == label.text(),
        StmtModel::CJump { true_label, false_label, .. } => true_label.text() == label.text()
            || false_label.text() == label.text(),
        _ => false,
    }
}

/// No statement branches to a block without statements.
pub open spec fn no_dangling(blocks: Seq<BlockModel>) -> bool {
    forall|e: int, b: int, i: int|
        0 <= e < blocks.len() && 0 <= b < blocks.len() && 0 <= i < blocks[b].stmts.len()
            && #[trigger] branches_to(blocks[b].stmts[i], blocks[e].label) ==> blocks[e].stmts.len()
            > 0
}

/// The basic blocks of a list of statements.
pub open spec fn harvested(code: Seq<StmtModel>) -> Seq<BlockModel> {
    non_empty(hoisted(gathered(code).blocks()))
}

/// Every block that is branched to keeps statements.
pub open spec fn harvestable(code: Seq<StmtModel>) -> bool {
    no_dangling(hoisted(gathered(code).blocks()))
}

fn is_alloca(s: &Stmt) -> (b: bool)
    ensures
        b == (s@ is Alloca),
{
    match &s.inner {
        StmtInner::Alloca(_) => true,
        _ => false,
    }
}

fn gather(irs: &Vec<Stmt>) -> (blocks: Vec<BasicBlock>)
    ensures
        block_models(blocks@) == gathered(stmt_models(irs@)).blocks(),
{
    let ghost code = stmt_models(irs@);
    let mut blocks: Vec<BasicBlock> = Vec::new();
    let mut open: Option<BasicBlock> = None;
    let mut closed = false;
    let mut i: usize = 0;
    assert(code.take(0) =~= Seq::empty());
    assert(block_models(blocks@) =~= Seq::empty());
    while i < irs.len()
        invariant
            i <= irs.len(),
            code == stmt_models(irs@),
            block_models(blocks@) == gathered(code.take(i as int)).done,
            match open {
                Some(b) => gathered(code.take(i as int)).open == Some(b@),
                None => gathered(code.take(i as int)).open is None,
            },
            closed == gathered(code.take(i as int)).closed,
        decreases irs.len() - i,
    {
        proof {
            assert(code.take(i + 1).drop_last() =~= code.take(i as int));
            assert(code.take(i + 1).last() == irs@[i as int]@);
        }
        let ghost before_blocks = blocks@;
        match &irs[i].inner {
            StmtInner::Label(l) => {
                let mut taken: Option<BasicBlock> = Some(
                    BasicBlock { label: l.label.clone(), stmts: Vec::new() },
                );
                std::mem::swap(&mut taken, &mut open);
                match taken {
                    Some(b) => {
                        let ghost bm = b@;
                        blocks.push(b);
                        assert(block_models(blocks@) =~= block_models(before_blocks).push(bm));
                    },
                    None => {},
                }
                proof {
                    assert(open->0@.stmts =~= Seq::empty());
                }
                closed = false;
            },
            _ => {
                if !closed {
                    let mut taken: Option<BasicBlock> = None;
                    std::mem::swap(&mut taken, &mut open);
                    match taken {
                        Some(mut b) => {
                            let ghost bm = b@;
                            closed = match &irs[i].inner {
                                StmtInner::Return(_) => true,
                                StmtInner::CJump(_) => true,
                                StmtInner::Jump(_) => true,
                                _ => false,
                            };
                            b.stmts.push(irs[i].clone());
                            assert(b@.stmts =~= bm.stmts.push(irs@[i as int]@));
                            open = Some(b);
                        },
                        None => {},
                    }
                }
            },
        }
        i = i + 1;
    }
    assert(code.take(i as int) =~= code);
    let ghost before_blocks = blocks@;
    match open {
        Some(b) => {
            let ghost bm = b@;
            blocks.push(b);
            assert(block_models(blocks@) =~= block_models(before_blocks).push(bm));
        },
        None => {},
    }
    blocks
}

/// Takes the allocations out of a list and appends them to others.
fn part(stmts: &Vec<Stmt>, moved: &mut Vec<Stmt>) -> (rest: Vec<Stmt>)
    ensures
        stmt_models(rest@) == no_allocas(stmt_models(stmts@)),
        stmt_models(final(moved)@) == stmt_models(old(moved)@) + only_allocas(
            stmt_models(stmts@),
        ),
{
    let ghost all = stmt_models(stmts@);
    let ghost start = stmt_models(moved@);
    let mut rest: Vec<Stmt> = Vec::new();
    let mut i: usize = 0;
    assert(all.take(0) =~= Seq::empty());
    assert(stmt_models(rest@) =~= Seq::empty());
    assert(start + only_allocas(all.take(0)) =~= start);
    while i < stmts.len()
        invariant
            i <= stmts.len(),
            all == stmt_models(stmts@),
            stmt_models(rest@) == no_allocas(all.take(i as int)),
            stmt_models(moved@) == start + only_allocas(all.take(i as int)),
        decreases stmts.len() - i,
    {
        proof {
            assert(all.take(i + 1).drop_last() =~= all.take(i as int));
            assert(all.take(i + 1).last() == stmts@[i as int]@);
        }
        let s = stmts[i].clone();
        let ghost sm = s@;
        if is_alloca(&stmts[i]) {
            let ghost m0 = moved@;
            moved.push(s);
            assert(stmt_models(moved@) =~= stmt_models(m0).push(sm));
            assert(stmt_models(moved@) =~= start + only_allocas(all.take(i + 1)));
        } else {
            let ghost r0 = rest@;
            rest.push(s);
            assert(stmt_models(rest@) =~= stmt_models(r0).push(sm));
        }
        i = i + 1;
    }
    assert(all.take(i as int) =~= all);
    rest
}

fn hoist(blocks: Vec<BasicBlock>) -> (out: Vec<BasicBlock>)
    requires
        blocks.len() > 0,
    ensures
        block_models(out@) == hoisted(block_models(blocks@)),
{
    let ghost bs = block_models(blocks@);
    let mut moved: Vec<Stmt> = Vec::new();
    let mut rests: Vec<BasicBlock> = Vec::new();
    let mut i: usize = 1;
    assert(stmt_models(moved@) =~= Seq::empty());
    while i < blocks.len()
        invariant
            1 <= i <= blocks.len(),
            bs == block_models(blocks@),
            stmt_models(moved@) == moved_allocas(bs, i as nat),
            rests.len() == i - 1,
            forall|j: int|
                1 <= j < i ==> (#[trigger] rests@[j - 1])@ == (BlockModel {
                    label: bs[j].label,
                    stmts: no_allocas(bs[j].stmts),
                }),
        decreases blocks.len() - i,
    {
        let ghost before_rests = rests@;
        assert(bs[i as int] == blocks@[i as int]@);
        let rest = part(&blocks[i].stmts, &mut moved);
        let b = BasicBlock { label: blocks[i].label.clone(), stmts: rest };
        let ghost bm = b@;
        rests.push(b);
        proof {
            assert forall|j: int| 1 <= j < i + 1 implies (#[trigger] rests@[j - 1])@ == (
            BlockModel { label: bs[j].label, stmts: no_allocas(bs[j].stmts) }) by {
                if j < i {
                    assert(rests@[j - 1] == before_rests[j - 1]);
                }
            }
        }
        i = i + 1;
    }
    let ghost first_moved = stmt_models(moved@);
    let entry = &blocks[0];
    let mut k: usize = 0;
    assert(entry@.stmts.take(0) =~= Seq::empty());
    assert(first_moved + entry@.stmts.take(0) =~= first_moved);
    while k < entry.stmts.len()
        invariant
            k <= entry.stmts.len(),
            stmt_models(moved@) == first_moved + entry@.stmts.take(k as int),
        decreases entry.stmts.len() - k,
    {
        let ghost m0 = moved@;
        let s = entry.stmts[k].clone();
        let ghost sm = s@;
        moved.push(s);
        proof {
            assert(stmt_models(moved@) =~= stmt_models(m0).push(sm));
            assert(entry@.stmts.take(k + 1) =~= entry@.stmts.take(k as int).push(sm));
            assert(stmt_models(moved@) =~= first_moved + entry@.stmts.take(k + 1));
        }
        k = k + 1;
    }
    assert(entry@.stmts.take(k as int) =~= entry@.stmts);
    let mut out: Vec<BasicBlock> = Vec::new();
    out.push(BasicBlock { label: entry.label.clone(), stmts: moved });
    out.append(&mut rests);
    proof {
        let target = hoisted(bs);
        assert(bs[0] == entry@);
        assert forall|j: int| 0 <= j < target.len() implies block_models(out@)[j] == target[j] by {
            if j > 0 {
                assert(out@[j]@ == (BlockModel {
                    label: bs[j].label,
                    stmts: no_allocas(bs[j].stmts),
                }));
            }
        }
        assert(block_models(out@) =~= target);
    }
    out
}

/// Removes the blocks without statements.
fn drop_empty_blocks(blocks: Vec<BasicBlock>) -> (out: Vec<BasicBlock>)
    ensures
        block_models(out@) == non_empty(block_models(blocks@)),
{
    let ghost bs = block_models(blocks@);
    let mut out: Vec<BasicBlock> = Vec::new();
    let mut i: usize = 0;
    assert(bs.take(0) =~= Seq::empty());
    assert(block_models(out@) =~= Seq::empty());
    while i < blocks.len()
        invariant
            i <= blocks.len(),
            bs == block_models(blocks@),
            block_models(out@) == non_empty(bs.take(i as int)),
        decreases blocks.len() - i,
    {
        proof {
            assert(bs.take(i + 1).drop_last() =~= bs.take(i as int));
            assert(bs.take(i + 1).last() == blocks@[i as int]@);
        }
        if blocks[i].stmts.len() > 0 {
            let ghost before_out = out@;
            let b = copy_block(&blocks[i]);
            let ghost bm = b@;
            out.push(b);
            assert(block_models(out@) =~= block_models(before_out).push(bm));
        }
        i = i + 1;
    }
    assert(bs.take(i as int) =~= bs);
    out
}

fn copy_block(b: &BasicBlock) -> (copy: BasicBlock)
    ensures
        copy@ == b@,
{
    let mut stmts: Vec<Stmt> = Vec::new();
    let mut i: usize = 0;
    while i < b.stmts.len()
        invariant
            i <= b.stmts.len(),
            stmts.len() == i,
            forall|j: int| 0 <= j < i ==> (#[trigger] stmts@[j])@ == b.stmts@[j]@,
        decreases b.stmts.len() - i,
    {
        stmts.push(b.stmts[i].clone());
        i = i + 1;
    }
    assert(stmt_models(stmts@) =~= stmt_models(b.stmts@));
    BasicBlock { label: b.label.clone(), stmts }
}

/// Turns a flat list of statements into basic blocks.
pub fn harvest_function_irs(irs: Vec<Stmt>) -> (blocks: Vec<BasicBlock>)
    requires
        harvestable(stmt_models(irs@)),
    ensures
        block_models(blocks@) == harvested(stmt_models(irs@)),
{
    let blocks = gather(&irs);
    if blocks.len() == 0 {
        proof {
            assert(block_models(blocks@).len() == 0);
            assert(hoisted(block_models(blocks@)).len() == 0);
            assert(block_models(blocks@) =~= Seq::empty());
        }
        return blocks;
    }
    drop_empty_blocks(hoist(blocks))
}

/// The terminator of a block, if there is one, is its last statement.
pub open spec fn ends_once(b: BlockModel) -> bool {
    forall|i: int| 0 <= i < b.stmts.len() - 1 ==> !is_terminator(#[trigger] b.stmts[i])
}

/// There is no label among the statements of the block.
pub open spec fn no_labels(b: BlockModel) -> bool {
    forall|i: int| 0 <= i < b.stmts.len() ==> !((#[trigger] b.stmts[i]) is Label)
}

spec fn sound(h: Harvest) -> bool {
    &&& forall|i: int| 0 <= i < h.done.len() ==> ends_once(#[trigger] h.done[i]) && no_labels(
        h.done[i],
    )
    &&& h.open matches Some(b) ==> ends_once(b) && no_labels(b) && (!h.closed ==> forall|i: int|
        0 <= i < b.stmts.len() ==> !is_terminator(#[trigger] b.stmts[i]))
}

proof fn lemma_gathered_sound(code: Seq<StmtModel>)
    ensures
        sound(gathered(code)),
    decreases code.len(),
{
    if code.len() > 0 {
        lemma_gathered_sound(code.drop_last());
    }
}

proof fn lemma_no_allocas_ends_once(stmts: Seq<StmtModel>)
    ensures
        no_allocas(stmts).len() <= stmts.len(),
        forall|i: int|
            0 <= i < no_allocas(stmts).len() ==> stmts.contains(#[trigger] no_allocas(stmts)[i])
                && !(no_allocas(stmts)[i] is Alloca),
        (forall|i: int| 0 <= i < stmts.len() ==> !is_terminator(#[trigger] stmts[i])) ==> forall|
            i: int,
        |
            0 <= i < no_allocas(stmts).len() ==> !is_terminator(#[trigger] no_allocas(stmts)[i]),
        (forall|i: int| 0 <= i < stmts.len() - 1 ==> !is_terminator(#[trigger] stmts[i]))
            ==> forall|i: int|
            0 <= i < no_allocas(stmts).len() - 1 ==> !is_terminator(#[trigger] no_allocas(stmts)[i]),
    decreases stmts.len(),
{
    if stmts.len() > 0 {
        let front = stmts.drop_last();
        lemma_no_allocas_ends_once(front);
        assert forall|i: int| 0 <= i < no_allocas(stmts).len() implies stmts.contains(
            #[trigger] no_allocas(stmts)[i],
        ) && !(no_allocas(stmts)[i] is Alloca) by {
            if i < no_allocas(front).len() {
                let x = no_allocas(front)[i];
                assert(front.contains(x));
                let j = choose|j: int| 0 <= j < front.len() && front[j] == x;
                assert(stmts[j] == x);
            } else {
                assert(stmts[stmts.len() - 1] == stmts.last());
            }
        }
        if forall|i: int| 0 <= i < stmts.len() - 1 ==> !is_terminator(#[trigger] stmts[i]) {
            assert forall|i: int| 0 <= i < front.len() implies !is_terminator(
                #[trigger] front[i],
            ) by {
                assert(front[i] == stmts[i]);
            }
        }
        if forall|i: int| 0 <= i < stmts.len() ==> !is_terminator(#[trigger] stmts[i]) {
            assert(!is_terminator(stmts[stmts.len() - 1]));
        }
    }
}

proof fn lemma_only_allocas(stmts: Seq<StmtModel>)
    ensures
        forall|i: int|
            0 <= i < only_allocas(stmts).len() ==> (#[trigger] only_allocas(stmts)[i]) is Alloca,
    decreases stmts.len(),
{
    if stmts.len() > 0 {
        lemma_only_allocas(stmts.drop_last());
    }
}

proof fn lemma_moved_allocas(blocks: Seq<BlockModel>, n: nat)
    ensures
        forall|i: int|
            0 <= i < moved_allocas(blocks, n).len() ==> (#[trigger] moved_allocas(blocks, n)[i])
                is Alloca,
    decreases n,
{
    if n > 1 {
        lemma_moved_allocas(blocks, (n - 1) as nat);
        lemma_only_allocas(blocks[n - 1].stmts);
    }
}

proof fn lemma_non_empty(blocks: Seq<BlockModel>)
    ensures
        forall|i: int|
            0 <= i < non_empty(blocks).len() ==> blocks.contains(#[trigger] non_empty(blocks)[i])
                && non_empty(blocks)[i].stmts.len() > 0,
    decreases blocks.len(),
{
    if blocks.len() > 0 {
        let front = blocks.drop_last();
        lemma_non_empty(front);
        assert forall|i: int| 0 <= i < non_empty(blocks).len() implies blocks.contains(
            #[trigger] non_empty(blocks)[i],
        ) && non_empty(blocks)[i].stmts.len() > 0 by {
            if i < non_empty(front).len() {
                let x = non_empty(front)[i];
                assert(front.contains(x));
                let j = choose|j: int| 0 <= j < front.len() && front[j] == x;
                assert(blocks[j] == x);
            } else {
                assert(blocks[blocks.len() - 1] == blocks.last());
            }
        }
    }
}

/// Every basic block has statements, its terminator is its last statement,
/// and there are no labels within it.
pub proof fn lemma_harvested_blocks(code: Seq<StmtModel>, k: int)
    requires
        0 <= k < harvested(code).len(),
    ensures
        harvested(code)[k].stmts.len() > 0,
        ends_once(harvested(code)[k]),
        no_labels(harvested(code)[k]),
{
    let bs = gathered(code).blocks();
    lemma_gathered_sound(code);
    lemma_non_empty(hoisted(bs));
    let b = harvested(code)[k];
    assert(hoisted(bs).contains(b));
    let j = choose|j: int| 0 <= j < hoisted(bs).len() && hoisted(bs)[j] == b;
    assert(ends_once(bs[j]) && no_labels(bs[j])) by {
        if j < gathered(code).done.len() {
            assert(bs[j] == gathered(code).done[j]);
        }
    }
    if j == 0 {
        let moved = moved_allocas(bs, bs.len());
        lemma_moved_allocas(bs, bs.len());
        assert forall|i: int| 0 <= i < b.stmts.len() - 1 implies !is_terminator(
            #[trigger] b.stmts[i],
        ) by {
            if i < moved.len() {
                assert(b.stmts[i] == moved[i]);
            } else {
                assert(b.stmts[i] == bs[0].stmts[i - moved.len()]);
            }
        }
        assert forall|i: int| 0 <= i < b.stmts.len() implies !((#[trigger] b.stmts[i]) is Label) by {
            if i < moved.len() {
                assert(b.stmts[i] == moved[i]);
            } else {
                assert(b.stmts[i] == bs[0].stmts[i - moved.len()]);
            }
        }
    } else {
        lemma_no_allocas_ends_once(bs[j].stmts);
        assert forall|i: int| 0 <= i < b.stmts.len() implies !((#[trigger] b.stmts[i]) is Label) by {
            let x = no_allocas(bs[j].stmts)[i];
            assert(bs[j].stmts.contains(x));
            let y = choose|y: int| 0 <= y < bs[j].stmts.len() && bs[j].stmts[y] == x;
            assert(bs[j].stmts[y] == x);
        }
    }
}

/// All allocations stand in the first basic block, where the first block of
/// the code keeps statements.
pub proof fn lemma_allocas_in_entry(code: Seq<StmtModel>, k: int, i: int)
    requires
        gathered(code).blocks().len() > 0,
        hoisted(gathered(code).blocks())[0].stmts.len() > 0,
        0 < k < harvested(code).len(),
        0 <= i < harvested(code)[k].stmts.len(),
    ensures
        !(harvested(code)[k].stmts[i] is Alloca),
{
    let bs = hoisted(gathered(code).blocks());
    lemma_non_empty_positions(bs, bs.len());
    assert(bs.take(bs.len() as int) =~= bs);
    let j = choose|j: int| k <= j < bs.len() && bs[j] == non_empty(bs)[k];
    lemma_no_allocas_ends_once(gathered(code).blocks()[j].stmts);
}

proof fn lemma_non_empty_positions(bs: Seq<BlockModel>, n: nat)
    requires
        n <= bs.len(),
    ensures
        forall|k: int|
            0 <= k < non_empty(bs.take(n as int)).len() ==> exists|j: int|
                k <= j < n && bs[j] == #[trigger] non_empty(bs.take(n as int))[k],
        non_empty(bs.take(n as int)).len() <= n,
    decreases n,
{
    if n > 0 {
        lemma_non_empty_positions(bs, (n - 1) as nat);
        let s = bs.take(n as int);
        assert(s.drop_last() =~= bs.take(n - 1));
        assert forall|k: int| 0 <= k < non_empty(s).len() implies exists|j: int|
            k <= j < n && bs[j] == #[trigger] non_empty(s)[k] by {
            let front = non_empty(bs.take(n - 1));
            if k < front.len() {
                let j = choose|j: int| k <= j < n - 1 && bs[j] == front[k];
                assert(bs[j] == non_empty(s)[k]);
            } else {
                assert(bs[n - 1] == non_empty(s)[k]);
            }
        }
    } else {
        assert(bs.take(0) =~= Seq::empty());
    }
}

} // verus!
