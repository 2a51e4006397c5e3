//! The frame of a function on this target.
//!
//! The frame pointer stands below the saved frame pointer and link register;
//! local storage lies below it, and the arguments that were passed on the
//! stack lie above the saved pair.

use super::aapcs::{location, ArgumentLocation, OUTGOING_ARG_SLOT_BYTES};
use super::types::{Addr, AddrModel, Register, RegisterSize, NUM_INT_ARG_REGS, REG_FP};
use crate::backend::common::layout::{align_up, aligned, lemma_aligned_is_least, StructLayouts};
use crate::backend::common::stack::{
    block_allocas, extended, frame_fits, frame_of, slot_fits, slot_offsets, StackFrame, StackSlot,
};
use crate::backend::error::Error;
use crate::ir::function::{block_models, BasicBlock};
use vstd::prelude::*;

verus! {

/// The size of the saved frame pointer and link register.
pub const SAVED_REGS_BYTES: i64 = 16;

/// The distance from the frame pointer to the first argument on the stack.
pub const STACK_ARG_FP_BASE: i64 = 16;

/// The size of the place where a register is saved for a moment.
pub const SCRATCH_SPILL_SLOT: i64 = 16;

/// The alignment of the stack pointer.
pub const STACK_ALIGN: i64 = 16;

/// The layout of the frame of one function.
pub struct FrameLayout {
    frame: StackFrame,
}

/// The number of bytes of a spilled value.
pub open spec fn spill_bytes(size: RegisterSize) -> int {
    match size {
        RegisterSize::X64 => 8,
        _ => 4,
    }
}

/// The address of a place at the given distance from the frame pointer.
pub open spec fn frame_addr(offset: int) -> AddrModel {
    AddrModel::BaseOff { base: Register::Physical(REG_FP), offset }
}

/// How many of the places are on the stack.
pub open spec fn stack_args(locs: Seq<ArgumentLocation>) -> nat
    decreases locs.len(),
{
    if locs.len() == 0 {
        0
    } else {
        stack_args(locs.drop_last()) + if locs.last() is Stack {
            1nat
        } else {
            0nat
        }
    }
}

/// The size of the area for the arguments on the stack.
pub open spec fn outgoing_bytes(locs: Seq<ArgumentLocation>) -> int {
    aligned(stack_args(locs) * OUTGOING_ARG_SLOT_BYTES, STACK_ALIGN as int)
}

impl FrameLayout {
    /// The slots of the `alloca`s.
    pub closed spec fn allocas(&self) -> Map<usize, StackSlot> {
        self.frame.allocas()
    }

    /// The number of bytes in use.
    pub closed spec fn bytes(&self) -> int {
        self.frame.bytes()
    }

    /// No slot lies above the frame pointer.
    pub closed spec fn wf(&self) -> bool {
        self.frame.wf()
    }

    /// What well-formedness means for the slots.
    pub proof fn lemma_wf(&self)
        requires
            self.wf(),
        ensures
            self.bytes() >= 0,
            forall|v: usize| #[trigger]
                self.allocas().contains_key(v) ==> self.allocas()[v].offset_from_fp <= 0,
    {
        self.frame.lemma_wf();
    }

    /// The frame that holds the `alloca`s of `blocks`.
    pub fn from_blocks(blocks: &[BasicBlock], layouts: &StructLayouts) -> (r: Result<Self, Error>)
        requires
            layouts.wf(),
            block_allocas(block_models(blocks@)) matches Ok(allocas) ==> frame_fits(
                allocas,
                layouts@,
            ),
        ensures
            match block_allocas(block_models(blocks@)) {
                Err(e) => r matches Err(f) && f@ == e,
                Ok(allocas) => match frame_of(allocas, layouts@) {
                    Err(e) => r matches Err(f) && f@ == e,
                    Ok((slots, size)) => r matches Ok(frame) && slot_offsets(frame.allocas())
                        == slots && frame.bytes() == size && frame.wf(),
                },
            },
    {
        match StackFrame::from_blocks(blocks, layouts) {
            Ok(frame) => Ok(FrameLayout { frame }),
            Err(e) => Err(e),
        }
    }

    /// Reserves the slot of a spilled value.
    pub fn alloc_spill(&mut self, size: RegisterSize) -> (slot: StackSlot)
        requires
            old(self).wf(),
            slot_fits(old(self).bytes(), spill_bytes(size), spill_bytes(size)),
        ensures
            final(self).wf(),
            final(self).bytes() == extended(
                old(self).bytes(),
                spill_bytes(size),
                spill_bytes(size),
            ),
            slot.offset_from_fp == -final(self).bytes(),
            final(self).allocas() == old(self).allocas(),
    {
        let bytes: i64 = match size {
            RegisterSize::X64 => 8,
            _ => 4,
        };
        self.frame.alloc_slot(bytes, bytes)
    }

    /// Whether the frame of the blocks can be computed with 64-bit integers.
    pub fn fits(blocks: &[BasicBlock], layouts: &StructLayouts) -> (b: bool)
        requires
            layouts.wf(),
        ensures
            b == (block_allocas(block_models(blocks@)) matches Ok(allocas) ==> frame_fits(
                allocas,
                layouts@,
            )),
    {
        StackFrame::fits(blocks, layouts)
    }

    /// The size of the frame.
    pub fn size(&self) -> (n: i64)
        ensures
            n == self.bytes(),
    {
        self.frame.size()
    }

    /// Whether `vreg` is the destination of an `alloca`.
    pub fn has_alloca(&self, vreg: usize) -> (b: bool)
        ensures
            b == self.allocas().contains_key(vreg),
    {
        self.frame.has_alloca(vreg)
    }

    /// The slot of the `alloca` with destination `vreg`.
    pub fn alloca_slot(&self, vreg: usize) -> (slot: Option<StackSlot>)
        ensures
            slot == if self.allocas().contains_key(vreg) {
                Some(self.allocas()[vreg])
            } else {
                None
            },
    {
        self.frame.alloca_slot(vreg)
    }

    /// The size of the frame, rounded up to the alignment of the stack.
    pub fn frame_size_aligned(&self) -> (n: i64)
        requires
            self.bytes() + STACK_ALIGN <= i64::MAX,
        ensures
            n == aligned(self.bytes(), STACK_ALIGN as int),
    {
        self.frame.frame_size_aligned()
    }

    /// The address of a slot.
    pub fn local_addr(slot: StackSlot) -> (addr: Addr)
        ensures
            addr@ == frame_addr(slot.offset_from_fp as int),
    {
        Addr::BaseOff { base: Register::Physical(REG_FP), offset: slot.offset_from_fp }
    }

    /// The address of what lies `offset` bytes into a slot.
    pub fn local_addr_with_offset(slot: StackSlot, offset: i64) -> (addr: Addr)
        requires
            i64::MIN <= slot.offset_from_fp + offset <= i64::MAX,
        ensures
            addr@ == frame_addr(slot.offset_from_fp + offset),
    {
        Addr::BaseOff { base: Register::Physical(REG_FP), offset: slot.offset_from_fp + offset }
    }
}

/// The size of the area for the arguments on the stack.
pub fn outgoing_stack_bytes(locs: &Vec<ArgumentLocation>) -> (n: i64)
    requires
        locs.len() * OUTGOING_ARG_SLOT_BYTES + STACK_ALIGN <= i64::MAX,
    ensures
        n == outgoing_bytes(locs@),
{
    let mut bytes: i64 = 0;
    let mut i: usize = 0;
    assert(locs@.take(0) =~= Seq::empty());
    while i < locs.len()
        invariant
            i <= locs.len(),
            locs.len() * OUTGOING_ARG_SLOT_BYTES + STACK_ALIGN <= i64::MAX,
            bytes == stack_args(locs@.take(i as int)) * OUTGOING_ARG_SLOT_BYTES,
            stack_args(locs@.take(i as int)) <= i,
        decreases locs.len() - i,
    {
        assert(locs@.take(i + 1).drop_last() =~= locs@.take(i as int));
        if let ArgumentLocation::Stack { .. } = locs[i] {
            bytes = bytes + OUTGOING_ARG_SLOT_BYTES;
        }
        i = i + 1;
    }
    assert(locs@.take(i as int) =~= locs@);
    align_up(bytes, STACK_ALIGN)
}

/// Where the caller puts an argument on the stack.
pub fn outgoing_arg_addr(offset: i64) -> (addr: Addr)
    ensures
        addr@ == (AddrModel::BaseOff { base: Register::StackPointer, offset: offset as int }),
{
    Addr::BaseOff { base: Register::StackPointer, offset }
}

/// Where the callee finds an argument on the stack.
pub fn incoming_arg_addr(offset: i64) -> (addr: Addr)
    requires
        offset + STACK_ARG_FP_BASE <= i64::MAX,
    ensures
        addr@ == frame_addr(offset + STACK_ARG_FP_BASE),
{
    Addr::BaseOff { base: Register::Physical(REG_FP), offset: offset + STACK_ARG_FP_BASE }
}

/// Every argument on the stack lies within the area reserved for it.
pub proof fn lemma_stack_args_fit(locs: Seq<ArgumentLocation>, i: int)
    requires
        forall|k: int| 0 <= k < locs.len() ==> #[trigger] locs[k] == location(k),
        0 <= i < locs.len(),
        locs[i] is Stack,
        locs.len() * OUTGOING_ARG_SLOT_BYTES <= i64::MAX,
    ensures
        locs[i] matches ArgumentLocation::Stack { offset } && 0 <= offset && offset
            + OUTGOING_ARG_SLOT_BYTES <= outgoing_bytes(locs),
        outgoing_bytes(locs) % STACK_ALIGN as int == 0,
{
    lemma_stack_args_count(locs);
    lemma_aligned_is_least(stack_args(locs) * OUTGOING_ARG_SLOT_BYTES, STACK_ALIGN as int);
}

proof fn lemma_stack_args_count(locs: Seq<ArgumentLocation>)
    requires
        forall|k: int| 0 <= k < locs.len() ==> #[trigger] locs[k] == location(k),
    ensures
        stack_args(locs) == if locs.len() > NUM_INT_ARG_REGS {
            locs.len() - NUM_INT_ARG_REGS
        } else {
            0
        },
    decreases locs.len(),
{
    if locs.len() > 0 {
        let front = locs.drop_last();
        assert forall|k: int| 0 <= k < front.len() implies #[trigger] front[k] == location(k) by {
            assert(front[k] == locs[k]);
        }
        lemma_stack_args_count(front);
        assert(locs.last() == location(locs.len() - 1));
    }
}

} // verus!
