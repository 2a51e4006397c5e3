//! Stack frames: where the local storage of a function lies.

use super::layout::{
    align_up, aligned, lemma_aligned_is_least, lemma_size_align_sensible, sensible, size_align,
    size_fits, LayoutModel, StructLayouts,
};
use crate::backend::error::{Error, ErrorModel};
use crate::common::text::{group_text, owned};
use crate::ir::function::{block_models, stmt_models, BasicBlock, BlockModel};
use crate::ir::stmt::{Stmt, StmtInner, StmtModel};
use crate::ir::types::{Dtype, DtypeModel};
use crate::ir::value::OperandModel;
use std::collections::HashMap;
use vstd::prelude::*;
use vstd::string::*;

verus! {

broadcast use group_text;

/// A place in the frame, by its distance from the frame pointer.
#[derive(Debug, Clone, Copy, PartialEq, Eq, Structural)]
pub struct StackSlot {
    pub offset_from_fp: i64,
}

/// The frame of a function: the slots of its `alloca`s and of its spilled
/// values, below the frame pointer.
#[derive(Debug)]
pub struct StackFrame {
    alloca_slots: HashMap<usize, StackSlot>,
    spill_slots: HashMap<usize, StackSlot>,
    size: i64,
}

/// The size of a frame after a slot has been reserved in it.
pub open spec fn extended(size: int, align: int, bytes: int) -> int {
    aligned(size, if align >= 1 {
        align
    } else {
        1
    }) + bytes
}

/// A slot can be reserved without leaving the 64-bit integers.
pub open spec fn slot_fits(size: int, align: int, bytes: int) -> bool {
    &&& 0 <= size
    &&& 0 <= bytes
    &&& align > 1 ==> size + align <= i64::MAX
    &&& extended(size, align, bytes) <= i64::MAX
}

/// The `alloca`s of a list of statements: each destination with its type, in
/// order of first appearance, behind those in `found`.
pub open spec fn stmt_allocas(
    found: Seq<(usize, DtypeModel)>,
    stmts: Seq<StmtModel>,
) -> Result<Seq<(usize, DtypeModel)>, ErrorModel>
    decreases stmts.len(),
{
    if stmts.len() == 0 {
        Ok(found)
    } else {
        match stmt_allocas(found, stmts.drop_last()) {
            Err(e) => Err(e),
            Ok(front) => match stmts.last() {
                StmtModel::Alloca { dst } => match dst {
                    OperandModel::Local(l) => Ok(recorded(front, l.id as usize, l.dtype)),
                    _ => Err(
                        ErrorModel::UnsupportedOperand {
                            what: "alloca destination is not a local variable: "@ + dst.text(),
                        },
                    ),
                },
                _ => Ok(front),
            },
        }
    }
}

/// `list` with `dtype` recorded for `vreg`.
pub open spec fn recorded(
    list: Seq<(usize, DtypeModel)>,
    vreg: usize,
    dtype: DtypeModel,
) -> Seq<(usize, DtypeModel)> {
    if exists|i: int| 0 <= i < list.len() && (#[trigger] list[i]).0 == vreg {
        Seq::new(
            list.len(),
            |i: int|
                if list[i].0 == vreg {
                    (vreg, dtype)
                } else {
                    list[i]
                },
        )
    } else {
        list.push((vreg, dtype))
    }
}

/// The `alloca`s of a list of blocks.
pub open spec fn block_allocas(blocks: Seq<BlockModel>) -> Result<
    Seq<(usize, DtypeModel)>,
    ErrorModel,
>
    decreases blocks.len(),
{
    if blocks.len() == 0 {
        Ok(Seq::empty())
    } else {
        match block_allocas(blocks.drop_last()) {
            Err(e) => Err(e),
            Ok(front) => stmt_allocas(front, blocks.last().stmts),
        }
    }
}

/// The size and alignment of what an `alloca` reserves: of what its
/// destination points to, or of the array that it is.
pub open spec fn alloca_size_align(d: DtypeModel, layouts: Map<Seq<char>, LayoutModel>) -> Result<
    (int, int),
    ErrorModel,
> {
    match d {
        DtypeModel::Pointer(p) => size_align(*p, layouts),
        DtypeModel::Array(_, _) => size_align(d, layouts),
        _ => Err(ErrorModel::UnsupportedDtype { dtype: d }),
    }
}

/// The size of what an `alloca` reserves is a 64-bit integer.
pub open spec fn alloca_fits(d: DtypeModel, layouts: Map<Seq<char>, LayoutModel>) -> bool {
    match d {
        DtypeModel::Pointer(p) => size_fits(*p, layouts),
        DtypeModel::Array(_, _) => size_fits(d, layouts),
        _ => true,
    }
}

/// The frame that holds the given `alloca`s: the slot of each, and the size.
pub open spec fn frame_of(
    allocas: Seq<(usize, DtypeModel)>,
    layouts: Map<Seq<char>, LayoutModel>,
) -> Result<(Map<usize, int>, int), ErrorModel>
    decreases allocas.len(),
{
    if allocas.len() == 0 {
        Ok((Map::empty(), 0))
    } else {
        match frame_of(allocas.drop_last(), layouts) {
            Err(e) => Err(e),
            Ok((slots, size)) => match alloca_size_align(allocas.last().1, layouts) {
                Err(e) => Err(e),
                Ok((bytes, align)) => {
                    let end = extended(size, align, bytes);
                    Ok((slots.insert(allocas.last().0, -end), end))
                },
            },
        }
    }
}

/// The frame can be computed with 64-bit integers.
pub open spec fn frame_fits(
    allocas: Seq<(usize, DtypeModel)>,
    layouts: Map<Seq<char>, LayoutModel>,
) -> bool
    decreases allocas.len(),
{
    allocas.len() > 0 ==> {
        &&& frame_fits(allocas.drop_last(), layouts)
        &&& frame_of(allocas.drop_last(), layouts) matches Ok((_, size)) ==> {
            &&& alloca_fits(allocas.last().1, layouts)
            &&& alloca_size_align(allocas.last().1, layouts) matches Ok((bytes, align))
                ==> slot_fits(size, align, bytes)
        }
    }
}

/// No register has two `alloca`s.
pub open spec fn distinct_vregs(list: Seq<(usize, DtypeModel)>) -> bool {
    forall|i: int, j: int|
        0 <= i < j < list.len() ==> (#[trigger] list[i]).0 != (#[trigger] list[j]).0
}

/// The slots of a frame lie within it and do not overlap.
pub proof fn lemma_slots_do_not_overlap(
    allocas: Seq<(usize, DtypeModel)>,
    layouts: Map<Seq<char>, LayoutModel>,
)
    requires
        sensible(layouts),
        distinct_vregs(allocas),
        frame_fits(allocas, layouts),
        frame_of(allocas, layouts) is Ok,
    ensures
        frame_of(allocas, layouts) matches Ok((slots, size)) && size >= 0 && (forall|i: int|
            0 <= i < allocas.len() ==> {
                &&& slots.contains_key((#[trigger] allocas[i]).0)
                &&& alloca_size_align(allocas[i].1, layouts) matches Ok((bytes, align))
                &&& -size <= slots[allocas[i].0]
                &&& slots[allocas[i].0] + bytes <= 0
            }) && (forall|i: int, j: int|
            0 <= i < j < allocas.len() ==> {
                &&& alloca_size_align((#[trigger] allocas[j]).1, layouts) matches Ok((bytes, _))
                &&& slots[allocas[j].0] + bytes <= slots[(#[trigger] allocas[i]).0]
            }),
    decreases allocas.len(),
{
    if allocas.len() > 0 {
        let front = allocas.drop_last();
        assert(distinct_vregs(front)) by {
            assert forall|i: int, j: int| 0 <= i < j < front.len() implies (#[trigger] front[i]).0
                != (#[trigger] front[j]).0 by {
                assert(front[i] == allocas[i] && front[j] == allocas[j]);
            }
        }
        lemma_slots_do_not_overlap(front, layouts);
        let (slots, size) = frame_of(front, layouts)->Ok_0;
        let (bytes, align) = alloca_size_align(allocas.last().1, layouts)->Ok_0;
        lemma_alloca_sensible(allocas.last().1, layouts);
        lemma_aligned_is_least(size, align);
        let n = allocas.len() - 1;
        assert forall|i: int| 0 <= i < n implies (#[trigger] allocas[i]).0 != allocas[n].0
            && allocas[i] == front[i] by {}
    }
}

proof fn lemma_alloca_sensible(d: DtypeModel, layouts: Map<Seq<char>, LayoutModel>)
    requires
        sensible(layouts),
        alloca_fits(d, layouts),
        alloca_size_align(d, layouts) is Ok,
    ensures
        alloca_size_align(d, layouts) matches Ok((size, align)) && size >= 0 && align >= 1 && size
            % align == 0,
{
    match d {
        DtypeModel::Pointer(p) => lemma_size_align_sensible(*p, layouts),
        _ => lemma_size_align_sensible(d, layouts),
    }
}

/// The statement reserves storage for the local value `v`.
pub open spec fn reserves(s: StmtModel, v: usize) -> bool {
    s matches StmtModel::Alloca { dst } && (dst matches OperandModel::Local(l) && l.id as usize == v)
}

/// Some statement of the blocks reserves storage for the local value `v`.
pub open spec fn allocated(blocks: Seq<BlockModel>, v: usize) -> bool {
    exists|b: int, i: int|
        0 <= b < blocks.len() && 0 <= i < blocks[b].stmts.len() && reserves(
            #[trigger] blocks[b].stmts[i],
            v,
        )
}

/// The register is one of the list.
spec fn listed(list: Seq<(usize, DtypeModel)>, v: usize) -> bool {
    exists|i: int| 0 <= i < list.len() && (#[trigger] list[i]).0 == v
}

proof fn lemma_recorded(
    list: Seq<(usize, DtypeModel)>,
    vreg: usize,
    dtype: DtypeModel,
    v: usize,
)
    requires
        distinct_vregs(list),
    ensures
        distinct_vregs(recorded(list, vreg, dtype)),
        listed(recorded(list, vreg, dtype), v) == (listed(list, v) || v == vreg),
{
    let more = recorded(list, vreg, dtype);
    if listed(list, v) {
        let i = choose|i: int| 0 <= i < list.len() && (#[trigger] list[i]).0 == v;
        assert(more[i].0 == v);
    }
    if listed(list, vreg) {
        let i = choose|i: int| 0 <= i < list.len() && (#[trigger] list[i]).0 == vreg;
        assert(more[i].0 == vreg);
        assert forall|i: int, j: int| 0 <= i < j < more.len() implies (#[trigger] more[i]).0 != (
        #[trigger] more[j]).0 by {
            assert(more[i].0 == list[i].0 && more[j].0 == list[j].0);
        }
        if listed(more, v) {
            let j = choose|j: int| 0 <= j < more.len() && (#[trigger] more[j]).0 == v;
            assert(list[j].0 == more[j].0);
        }
    } else {
        assert(more == list.push((vreg, dtype)));
        assert(more[list.len() as int].0 == vreg);
        assert forall|i: int, j: int| 0 <= i < j < more.len() implies (#[trigger] more[i]).0 != (
        #[trigger] more[j]).0 by {
            assert(more[i] == list[i]);
            if j < list.len() {
                assert(more[j] == list[j]);
            }
        }
        if listed(more, v) {
            let j = choose|j: int| 0 <= j < more.len() && (#[trigger] more[j]).0 == v;
            if j < list.len() {
                assert(list[j].0 == v);
            }
        }
    }
}

proof fn lemma_stmts_listed(found: Seq<(usize, DtypeModel)>, stmts: Seq<StmtModel>, v: usize)
    requires
        distinct_vregs(found),
    ensures
        stmt_allocas(found, stmts) matches Ok(list) ==> distinct_vregs(list) && listed(list, v) == (
        listed(found, v) || exists|i: int|
            0 <= i < stmts.len() && reserves(#[trigger] stmts[i], v)),
    decreases stmts.len(),
{
    if stmts.len() > 0 {
        let front = stmts.drop_last();
        let n = stmts.len() - 1;
        lemma_stmts_listed(found, front, v);
        if stmt_allocas(found, stmts) is Ok {
            let list = stmt_allocas(found, front)->Ok_0;
            if let StmtModel::Alloca { dst: OperandModel::Local(l) } = stmts[n] {
                lemma_recorded(list, l.id as usize, l.dtype, v);
            }
            if exists|i: int| 0 <= i < front.len() && reserves(#[trigger] front[i], v) {
                let i = choose|i: int| 0 <= i < front.len() && reserves(#[trigger] front[i], v);
                assert(reserves(stmts[i], v));
            }
            if exists|i: int| 0 <= i < stmts.len() && reserves(#[trigger] stmts[i], v) {
                let i = choose|i: int| 0 <= i < stmts.len() && reserves(#[trigger] stmts[i], v);
                if i < n {
                    assert(reserves(front[i], v));
                }
            }
        }
    }
}

proof fn lemma_blocks_listed(blocks: Seq<BlockModel>, v: usize)
    ensures
        block_allocas(blocks) matches Ok(list) ==> distinct_vregs(list) && listed(list, v)
            == allocated(blocks, v),
    decreases blocks.len(),
{
    if blocks.len() > 0 {
        let front = blocks.drop_last();
        let n = blocks.len() - 1;
        lemma_blocks_listed(front, v);
        if block_allocas(blocks) is Ok {
            let found = block_allocas(front)->Ok_0;
            lemma_stmts_listed(found, blocks[n].stmts, v);
            if allocated(front, v) {
                let (b, i) = choose|b: int, i: int|
                    0 <= b < front.len() && 0 <= i < front[b].stmts.len() && reserves(
                        #[trigger] front[b].stmts[i],
                        v,
                    );
                assert(reserves(blocks[b].stmts[i], v));
            }
            if allocated(blocks, v) {
                let (b, i) = choose|b: int, i: int|
                    0 <= b < blocks.len() && 0 <= i < blocks[b].stmts.len() && reserves(
                        #[trigger] blocks[b].stmts[i],
                        v,
                    );
                if b < n {
                    assert(reserves(front[b].stmts[i], v));
                }
            }
        }
    }
}

proof fn lemma_slots_listed(
    allocas: Seq<(usize, DtypeModel)>,
    layouts: Map<Seq<char>, LayoutModel>,
    v: usize,
)
    ensures
        frame_of(allocas, layouts) matches Ok((slots, _)) ==> slots.contains_key(v) == listed(
            allocas,
            v,
        ),
    decreases allocas.len(),
{
    if allocas.len() > 0 {
        let front = allocas.drop_last();
        let n = allocas.len() - 1;
        lemma_slots_listed(front, layouts, v);
        if listed(front, v) {
            let i = choose|i: int| 0 <= i < front.len() && (#[trigger] front[i]).0 == v;
            assert(allocas[i].0 == v);
        }
        if listed(allocas, v) {
            let i = choose|i: int| 0 <= i < allocas.len() && (#[trigger] allocas[i]).0 == v;
            if i < n {
                assert(front[i].0 == v);
            }
        }
        assert(allocas[n] == allocas.last());
    }
}

/// A multiple of the alignment stays one when a size with the alignment is
/// added and the sign is changed.
proof fn lemma_below_aligned(start: int, bytes: int, align: int)
    requires
        align >= 1,
        start % align == 0,
        bytes % align == 0,
    ensures
        (-(start + bytes)) % align == 0,
{
    vstd::arithmetic::div_mod::lemma_fundamental_div_mod(start, align);
    vstd::arithmetic::div_mod::lemma_fundamental_div_mod(bytes, align);
    let k = -(start / align + bytes / align);
    assert(-(start + bytes) == k * align) by (nonlinear_arith)
        requires
            start == align * (start / align),
            bytes == align * (bytes / align),
            k == -(start / align + bytes / align),
    ;
    vstd::arithmetic::div_mod::lemma_mod_multiples_basic(k, align);
}

/// Every slot of a frame begins at a multiple of the alignment of what it
/// holds.
pub proof fn lemma_slots_aligned(
    allocas: Seq<(usize, DtypeModel)>,
    layouts: Map<Seq<char>, LayoutModel>,
    i: int,
)
    requires
        sensible(layouts),
        distinct_vregs(allocas),
        frame_fits(allocas, layouts),
        frame_of(allocas, layouts) is Ok,
        0 <= i < allocas.len(),
    ensures
        frame_of(allocas, layouts) matches Ok((slots, _)) && (alloca_size_align(
            allocas[i].1,
            layouts,
        ) matches Ok((_, align)) && slots[allocas[i].0] % align == 0),
    decreases allocas.len(),
{
    let front = allocas.drop_last();
    let n = allocas.len() - 1;
    assert(distinct_vregs(front)) by {
        assert forall|a: int, b: int| 0 <= a < b < front.len() implies (#[trigger] front[a]).0 != (
        #[trigger] front[b]).0 by {
            assert(front[a] == allocas[a] && front[b] == allocas[b]);
        }
    }
    if i < n {
        lemma_slots_aligned(front, layouts, i);
        assert(front[i] == allocas[i]);
        assert(allocas[i].0 != allocas[n].0);
    } else {
        lemma_slots_do_not_overlap(front, layouts);
        let (_, size) = frame_of(front, layouts)->Ok_0;
        let (bytes, align) = alloca_size_align(allocas.last().1, layouts)->Ok_0;
        lemma_alloca_sensible(allocas.last().1, layouts);
        lemma_aligned_is_least(size, align);
        lemma_below_aligned(aligned(size, align), bytes, align);
    }
}

/// The frame of a function has a slot for exactly the local values that its
/// statements reserve storage for.  Each begins at a multiple of the alignment
/// of its type and lies within the frame, and no two overlap.
pub proof fn lemma_frame_slots(blocks: Seq<BlockModel>, layouts: Map<Seq<char>, LayoutModel>)
    requires
        sensible(layouts),
        block_allocas(blocks) matches Ok(allocas) && frame_fits(allocas, layouts) && frame_of(
            allocas,
            layouts,
        ) is Ok,
    ensures
        ({
            let allocas = block_allocas(blocks)->Ok_0;
            let (slots, size) = frame_of(allocas, layouts)->Ok_0;
            &&& distinct_vregs(allocas)
            &&& forall|v: usize| #[trigger] slots.contains_key(v) <==> allocated(blocks, v)
            &&& forall|v: usize| #[trigger]
                slots.contains_key(v) <==> exists|i: int|
                    0 <= i < allocas.len() && (#[trigger] allocas[i]).0 == v
            &&& forall|i: int|
                0 <= i < allocas.len() ==> {
                    let slot = slots[(#[trigger] allocas[i]).0];
                    &&& alloca_size_align(allocas[i].1, layouts) matches Ok((bytes, align))
                    &&& slot % align == 0
                    &&& -aligned(size, 16) <= slot
                    &&& slot + bytes <= 0
                }
            &&& forall|i: int, j: int|
                0 <= i < j < allocas.len() ==> {
                    &&& alloca_size_align((#[trigger] allocas[j]).1, layouts) matches Ok((bytes, _))
                    &&& slots[allocas[j].0] + bytes <= slots[(#[trigger] allocas[i]).0]
                }
        }),
{
    let allocas = block_allocas(blocks)->Ok_0;
    let (slots, size) = frame_of(allocas, layouts)->Ok_0;
    lemma_blocks_listed(blocks, 0);
    lemma_slots_do_not_overlap(allocas, layouts);
    lemma_aligned_is_least(size, 16);
    assert forall|v: usize| #[trigger] slots.contains_key(v) == allocated(blocks, v)
        && slots.contains_key(v) == listed(allocas, v) by {
        lemma_blocks_listed(blocks, v);
        lemma_slots_listed(allocas, layouts, v);
    }
    assert forall|i: int| 0 <= i < allocas.len() implies {
        let slot = slots[(#[trigger] allocas[i]).0];
        &&& alloca_size_align(allocas[i].1, layouts) matches Ok((bytes, align))
        &&& slot % align == 0
        &&& -aligned(size, 16) <= slot
        &&& slot + bytes <= 0
    } by {
        lemma_slots_aligned(allocas, layouts, i);
    }
}

/// The offsets of a table of slots.
pub open spec fn slot_offsets(slots: Map<usize, StackSlot>) -> Map<usize, int> {
    slots.map_values(|s: StackSlot| s.offset_from_fp as int)
}

impl StackFrame {
    /// The slots of the `alloca`s.
    pub closed spec fn allocas(&self) -> Map<usize, StackSlot> {
        self.alloca_slots@
    }

    /// The slots of the spilled values.
    pub closed spec fn spills(&self) -> Map<usize, StackSlot> {
        self.spill_slots@
    }

    /// The number of bytes in use.
    pub closed spec fn bytes(&self) -> int {
        self.size as int
    }

    /// No slot lies above the frame pointer.
    pub closed spec fn wf(&self) -> bool {
        &&& self.bytes() >= 0
        &&& forall|v: usize| #[trigger]
            self.allocas().contains_key(v) ==> self.allocas()[v].offset_from_fp <= 0
    }

    /// What well-formedness means for the slots.
    pub proof fn lemma_wf(&self)
        requires
            self.wf(),
        ensures
            self.bytes() >= 0,
            forall|v: usize| #[trigger]
                self.allocas().contains_key(v) ==> self.allocas()[v].offset_from_fp <= 0,
    {
    }

    /// A frame without slots.
    pub fn new() -> (frame: Self)
        ensures
            frame.allocas() == Map::<usize, StackSlot>::empty(),
            frame.spills() == Map::<usize, StackSlot>::empty(),
            frame.bytes() == 0,
            frame.wf(),
    {
        StackFrame { alloca_slots: HashMap::new(), spill_slots: HashMap::new(), size: 0 }
    }

    /// The frame that holds the `alloca`s of `blocks`.
    pub fn from_blocks(blocks: &[BasicBlock], layouts: &StructLayouts) -> (r: Result<Self, Error>)
        requires
            layouts.wf(),
            block_allocas(block_models(blocks@)) matches Ok(allocas) ==> frame_fits(
                allocas,
                layouts@,
            ),
        ensures
            match block_allocas(block_models(blocks@)) {
                Err(e) => r matches Err(f) && f@ == e,
                Ok(allocas) => match frame_of(allocas, layouts@) {
                    Err(e) => r matches Err(f) && f@ == e,
                    Ok((slots, size)) => r matches Ok(frame) && slot_offsets(frame.allocas())
                        == slots && frame.spills() == Map::<usize, StackSlot>::empty()
                        && frame.bytes() == size && frame.wf(),
                },
            },
    {
        let found = collect_alloca_ptrs(blocks)?;
        let mut frame = StackFrame::new();
        let ghost all = pair_models(found@);
        let mut i: usize = 0;
        assert(all.take(0) =~= Seq::empty());
        assert(all.take(all.len() as int) =~= all);
        assert(slot_offsets(frame.allocas()) =~= Map::empty());
        while i < found.len()
            invariant
                i <= found.len(),
                all == pair_models(found@),
                layouts.wf(),
                frame_fits(all, layouts@),
                frame_of(all.take(i as int), layouts@) matches Ok((slots, size)) && slot_offsets(
                    frame.allocas(),
                ) == slots && frame.bytes() == size,
                frame.wf(),
                frame.spills() == Map::<usize, StackSlot>::empty(),
                block_allocas(block_models(blocks@)) == Ok::<
                    Seq<(usize, DtypeModel)>,
                    ErrorModel,
                >(all),
            decreases found.len() - i,
        {
            proof {
                assert(all.take(i + 1).drop_last() =~= all.take(i as int));
                assert(all.take(i + 1).last() == all[i as int]);
                lemma_frame_fits_prefix(all, layouts@, i + 1);
                layouts.lemma_sensible();
            }
            let (size, align) = match size_align_of_alloca(&found[i].1, layouts) {
                Ok(sa) => sa,
                Err(e) => {
                    proof {
                        lemma_frame_of_stops(all, layouts@, i + 1);
                    }
                    return Err(e);
                },
            };
            proof {
                lemma_alloca_sensible(found@[i as int].1@, layouts@);
                lemma_aligned_is_least(frame.bytes(), align as int);
            }
            let ghost before = frame.allocas();
            let slot = frame.alloc_alloca(found[i].0, align, size);
            assert(slot_offsets(before.insert(found@[i as int].0, slot)) =~= slot_offsets(
                before,
            ).insert(found@[i as int].0, slot.offset_from_fp as int));
            i = i + 1;
        }
        Ok(frame)
    }

    /// Whether the frame of the blocks can be computed with 64-bit integers.
    pub fn fits(blocks: &[BasicBlock], layouts: &StructLayouts) -> (b: bool)
        requires
            layouts.wf(),
        ensures
            b == (block_allocas(block_models(blocks@)) matches Ok(allocas) ==> frame_fits(
                allocas,
                layouts@,
            )),
    {
        let found = match collect_alloca_ptrs(blocks) {
            Ok(found) => found,
            Err(_) => {
                return true;
            },
        };
        let ghost all = pair_models(found@);
        let mut size: i64 = 0;
        let mut i: usize = 0;
        assert(all.take(0) =~= Seq::empty());
        while i < found.len()
            invariant
                i <= found.len(),
                all == pair_models(found@),
                layouts.wf(),
                size >= 0,
                frame_fits(all.take(i as int), layouts@),
                frame_of(all.take(i as int), layouts@) matches Ok((_, bytes)) && bytes == size,
                block_allocas(block_models(blocks@)) == Ok::<
                    Seq<(usize, DtypeModel)>,
                    ErrorModel,
                >(all),
            decreases found.len() - i,
        {
            proof {
                assert(all.take(i + 1).drop_last() =~= all.take(i as int));
                assert(all.take(i + 1).last() == all[i as int]);
                if frame_fits(all, layouts@) {
                    lemma_frame_fits_prefix(all, layouts@, i + 1);
                }
                layouts.lemma_sensible();
            }
            let dtype = &found[i].1;
            let has_size = match dtype {
                Dtype::Pointer { pointee } => layouts.size_fits_for(pointee),
                Dtype::Array { .. } => layouts.size_fits_for(dtype),
                _ => true,
            };
            if !has_size {
                return false;
            }
            let (bytes, align) = match size_align_of_alloca(dtype, layouts) {
                Ok(sa) => sa,
                Err(_) => {
                    proof {
                        lemma_frame_of_stops(all, layouts@, i + 1);
                    }
                    return true;
                },
            };
            proof {
                lemma_alloca_sensible(found@[i as int].1@, layouts@);
                lemma_aligned_is_least(size as int, align as int);
            }
            if align > 1 && size > i64::MAX - align {
                return false;
            }
            let start: i64 = align_up(size, align);
            if start > i64::MAX - bytes {
                return false;
            }
            size = start + bytes;
            i = i + 1;
        }
        assert(all.take(i as int) =~= all);
        true
    }

    /// The size of the frame.
    pub fn size(&self) -> (n: i64)
        ensures
            n == self.bytes(),
    {
        self.size
    }

    /// Reserves `size` bytes with the given alignment.
    pub fn alloc_slot(&mut self, align: i64, size: i64) -> (slot: StackSlot)
        requires
            old(self).wf(),
            slot_fits(old(self).bytes(), align as int, size as int),
        ensures
            final(self).wf(),
            final(self).bytes() == extended(old(self).bytes(), align as int, size as int),
            slot.offset_from_fp == -final(self).bytes(),
            final(self).allocas() == old(self).allocas(),
            final(self).spills() == old(self).spills(),
    {
        let align: i64 = if align >= 1 {
            align
        } else {
            1
        };
        proof {
            lemma_aligned_is_least(self.size as int, align as int);
        }
        self.size = align_up(self.size, align);
        self.size = self.size + size;
        assert(self.allocas() == old(self).allocas());
        StackSlot { offset_from_fp: -self.size }
    }

    /// Reserves the slot of the `alloca` with destination `vreg`.
    pub fn alloc_alloca(&mut self, vreg: usize, align: i64, size: i64) -> (slot: StackSlot)
        requires
            old(self).wf(),
            slot_fits(old(self).bytes(), align as int, size as int),
        ensures
            final(self).wf(),
            final(self).bytes() == extended(old(self).bytes(), align as int, size as int),
            slot.offset_from_fp == -final(self).bytes(),
            final(self).allocas() == old(self).allocas().insert(vreg, slot),
            final(self).spills() == old(self).spills(),
    {
        let slot = self.alloc_slot(align, size);
        self.alloca_slots.insert(vreg, slot);
        slot
    }

    /// Reserves the slot in which `vreg` is spilled.
    pub fn alloc_spill(&mut self, vreg: usize, align: i64, size: i64) -> (slot: StackSlot)
        requires
            old(self).wf(),
            slot_fits(old(self).bytes(), align as int, size as int),
        ensures
            final(self).wf(),
            final(self).bytes() == extended(old(self).bytes(), align as int, size as int),
            slot.offset_from_fp == -final(self).bytes(),
            final(self).allocas() == old(self).allocas(),
            final(self).spills() == old(self).spills().insert(vreg, slot),
    {
        let slot = self.alloc_slot(align, size);
        self.spill_slots.insert(vreg, slot);
        slot
    }

    /// Whether `vreg` is the destination of an `alloca`.
    pub fn has_alloca(&self, vreg: usize) -> (b: bool)
        ensures
            b == self.allocas().contains_key(vreg),
    {
        self.alloca_slots.contains_key(&vreg)
    }

    /// The slot of the `alloca` with destination `vreg`.
    pub fn alloca_slot(&self, vreg: usize) -> (slot: Option<StackSlot>)
        ensures
            slot == if self.allocas().contains_key(vreg) {
                Some(self.allocas()[vreg])
            } else {
                None
            },
    {
        match self.alloca_slots.get(&vreg) {
            Some(slot) => Some(*slot),
            None => None,
        }
    }

    /// The slot in which `vreg` is spilled.
    pub fn spill_slot(&self, vreg: usize) -> (slot: Option<StackSlot>)
        ensures
            slot == if self.spills().contains_key(vreg) {
                Some(self.spills()[vreg])
            } else {
                None
            },
    {
        match self.spill_slots.get(&vreg) {
            Some(slot) => Some(*slot),
            None => None,
        }
    }

    /// The size of the frame, rounded up to the alignment of the stack.
    pub fn frame_size_aligned(&self) -> (n: i64)
        requires
            self.bytes() + 16 <= i64::MAX,
        ensures
            n == aligned(self.bytes(), 16),
    {
        align_up(self.size, 16)
    }
}

/// The models of a list of registers with types.
pub open spec fn pair_models(list: Seq<(usize, Dtype)>) -> Seq<(usize, DtypeModel)> {
    Seq::new(list.len(), |i: int| (list[i].0, list[i].1@))
}

fn record(list: &mut Vec<(usize, Dtype)>, vreg: usize, dtype: Dtype)
    requires
        distinct_vregs(pair_models(old(list)@)),
    ensures
        pair_models(final(list)@) == recorded(pair_models(old(list)@), vreg, dtype@),
        distinct_vregs(pair_models(final(list)@)),
{
    let ghost before = pair_models(list@);
    let mut i: usize = 0;
    while i < list.len()
        invariant
            i <= list.len(),
            before == pair_models(list@),
            before == pair_models(old(list)@),
            distinct_vregs(before),
            forall|j: int| 0 <= j < i ==> (#[trigger] before[j]).0 != vreg,
        decreases list.len() - i,
    {
        if list[i].0 == vreg {
            assert(before[i as int].0 == vreg);
            let ghost d = dtype@;
            list.set(i, (vreg, dtype));
            assert(pair_models(list@) =~= recorded(before, vreg, d)) by {
                assert forall|j: int| 0 <= j < before.len() implies (#[trigger] before[j]).0 == vreg
                    <==> j == i by {}
            }
            return ;
        }
        i = i + 1;
    }
    list.push((vreg, dtype));
    assert(pair_models(list@) =~= before.push((vreg, dtype@)));
}

fn collect_alloca_ptrs(blocks: &[BasicBlock]) -> (r: Result<Vec<(usize, Dtype)>, Error>)
    ensures
        match r {
            Ok(v) => block_allocas(block_models(blocks@)) == Ok::<
                Seq<(usize, DtypeModel)>,
                ErrorModel,
            >(pair_models(v@)) && distinct_vregs(pair_models(v@)),
            Err(e) => block_allocas(block_models(blocks@)) == Err::<
                Seq<(usize, DtypeModel)>,
                ErrorModel,
            >(e@),
        },
{
    let mut out: Vec<(usize, Dtype)> = Vec::new();
    let ghost models = block_models(blocks@);
    let mut b: usize = 0;
    assert(models.take(0) =~= Seq::empty());
    assert(pair_models(out@) =~= Seq::empty());
    while b < blocks.len()
        invariant
            b <= blocks.len(),
            models == block_models(blocks@),
            block_allocas(models.take(b as int)) == Ok::<Seq<(usize, DtypeModel)>, ErrorModel>(
                pair_models(out@),
            ),
            distinct_vregs(pair_models(out@)),
        decreases blocks.len() - b,
    {
        assert(models.take(b + 1).drop_last() =~= models.take(b as int));
        let ghost start = pair_models(out@);
        let stmts: &Vec<Stmt> = &blocks[b].stmts;
        let ghost list = stmt_models(stmts@);
        assert(models[b as int].stmts == list);
        let mut i: usize = 0;
        assert(list.take(0) =~= Seq::empty());
        while i < stmts.len()
            invariant
                i <= stmts.len(),
                b < blocks.len(),
                models == block_models(blocks@),
                list == stmt_models(stmts@),
                models[b as int].stmts == list,
                block_allocas(models.take(b as int)) == Ok::<
                    Seq<(usize, DtypeModel)>,
                    ErrorModel,
                >(start),
                stmt_allocas(start, list.take(i as int)) == Ok::<
                    Seq<(usize, DtypeModel)>,
                    ErrorModel,
                >(pair_models(out@)),
                distinct_vregs(pair_models(out@)),
            decreases stmts.len() - i,
        {
            assert(list.take(i + 1).drop_last() =~= list.take(i as int));
            assert(list.take(i + 1).last() == stmts@[i as int]@);
            match &stmts[i].inner {
                StmtInner::Alloca(a) => match a.dst.local_id() {
                    Some(id) => {
                        record(&mut out, id.0, a.dst.dtype().clone());
                    },
                    None => {
                        proof {
                            lemma_stmt_allocas_stop(start, list, i + 1);
                            assert(models.take(b + 1).drop_last() =~= models.take(b as int));
                            lemma_block_allocas_stop(models, b + 1);
                        }
                        let mut what = owned("alloca destination is not a local variable: ");
                        what.append(a.dst.to_text().as_str());
                        return Err(Error::UnsupportedOperand { what });
                    },
                },
                _ => {},
            }
            i = i + 1;
        }
        assert(list.take(i as int) =~= list);
        b = b + 1;
    }
    assert(models.take(b as int) =~= models);
    Ok(out)
}

fn size_align_of_alloca(dtype: &Dtype, layouts: &StructLayouts) -> (r: Result<(i64, i64), Error>)
    requires
        layouts.wf(),
        alloca_fits(dtype@, layouts@),
    ensures
        match r {
            Ok((size, align)) => alloca_size_align(dtype@, layouts@) == Ok::<
                (int, int),
                ErrorModel,
            >((size as int, align as int)),
            Err(e) => alloca_size_align(dtype@, layouts@) == Err::<(int, int), ErrorModel>(e@),
        },
{
    match dtype {
        Dtype::Pointer { pointee } => layouts.size_align_of(pointee),
        Dtype::Array { .. } => layouts.size_align_of(dtype),
        _ => Err(Error::UnsupportedDtype { dtype: dtype.clone() }),
    }
}

proof fn lemma_frame_fits_prefix(
    allocas: Seq<(usize, DtypeModel)>,
    layouts: Map<Seq<char>, LayoutModel>,
    k: int,
)
    requires
        frame_fits(allocas, layouts),
        0 <= k <= allocas.len(),
    ensures
        frame_fits(allocas.take(k), layouts),
    decreases allocas.len() - k,
{
    if k < allocas.len() {
        lemma_frame_fits_prefix(allocas, layouts, k + 1);
        assert(allocas.take(k + 1).drop_last() =~= allocas.take(k));
    } else {
        assert(allocas.take(k) =~= allocas);
    }
}

proof fn lemma_frame_of_stops(
    allocas: Seq<(usize, DtypeModel)>,
    layouts: Map<Seq<char>, LayoutModel>,
    k: int,
)
    requires
        0 <= k <= allocas.len(),
        frame_of(allocas.take(k), layouts) is Err,
    ensures
        frame_of(allocas, layouts) == frame_of(allocas.take(k), layouts),
        frame_fits(allocas.take(k), layouts) ==> frame_fits(allocas, layouts),
    decreases allocas.len() - k,
{
    if k < allocas.len() {
        assert(allocas.take(k + 1).drop_last() =~= allocas.take(k));
        lemma_frame_of_stops(allocas, layouts, k + 1);
    } else {
        assert(allocas.take(k) =~= allocas);
    }
}

proof fn lemma_stmt_allocas_stop(
    found: Seq<(usize, DtypeModel)>,
    stmts: Seq<StmtModel>,
    k: int,
)
    requires
        0 <= k <= stmts.len(),
        stmt_allocas(found, stmts.take(k)) is Err,
    ensures
        stmt_allocas(found, stmts) == stmt_allocas(found, stmts.take(k)),
    decreases stmts.len() - k,
{
    if k < stmts.len() {
        assert(stmts.take(k + 1).drop_last() =~= stmts.take(k));
        lemma_stmt_allocas_stop(found, stmts, k + 1);
    } else {
        assert(stmts.take(k) =~= stmts);
    }
}

proof fn lemma_block_allocas_stop(blocks: Seq<BlockModel>, k: int)
    requires
        0 <= k <= blocks.len(),
        block_allocas(blocks.take(k)) is Err,
    ensures
        block_allocas(blocks) == block_allocas(blocks.take(k)),
    decreases blocks.len() - k,
{
    if k < blocks.len() {
        assert(blocks.take(k + 1).drop_last() =~= blocks.take(k));
        lemma_block_allocas_stop(blocks, k + 1);
    } else {
        assert(blocks.take(k) =~= blocks);
    }
}

} // verus!
