//! Register allocation: virtual registers become registers of the machine or
//! slots in the frame.

use super::coloring::{
    before, even, is_graph, is_greedy, is_removal_order, lemma_neighbours_differ,
    lemma_one_coloring, lemma_one_removal_order, member_sets,
    spill_order, uncolored, Coloring, InterferenceGraph, COLORS_END, FIRST_COLOR,
};
use super::frame::{frame_addr, spill_bytes, FrameLayout};
use super::inst::{inst_models, inst_positions, lemma_inst_positions, InstModel, Instruction};
use super::types::{
    Addr, AddrModel, InstBinOp, InstOperand, Register, RegisterSize, SCRATCH0, SCRATCH1,
};
use crate::backend::common::layout::lemma_aligned_is_least;
use crate::backend::common::stack::{extended, StackSlot};
use crate::backend::error::{plain, Error, ErrorModel};
use crate::common::bitset::{lists, members, Bitset};
use crate::common::graph::{
    closed_under_flow, flow_in, least, lemma_live_iff_reaches_use, reaches_use,
    rows_in_range, sets, solves, uniform, union_of, BackwardLiveness, CfgNode, Graph, Lattice,
};
use crate::common::text::{group_text, nat_text, owned, usize_to_text};
use std::collections::HashMap;
use vstd::prelude::*;
use vstd::string::*;

verus! {

broadcast use group_text;

/// Where a virtual register lives.
#[derive(Debug, Clone, Copy, PartialEq, Eq, Structural)]
pub enum Location {
    /// In a register of the machine.
    Register(u8),
    /// In a slot of the frame.
    Spill(StackSlot),
}

/// A set of register numbers as a set of integers.
pub open spec fn as_ints(s: Set<usize>) -> Set<int> {
    Set::new(|x: int| 0 <= x <= usize::MAX && s.contains(x as usize))
}

/// The virtual registers that an instruction reads.
pub open spec fn gen_of(inst: InstModel) -> Set<int> {
    as_ints(inst.uses())
}

/// The virtual register that an instruction writes.
pub open spec fn kill_of(inst: InstModel) -> Set<int> {
    match inst.def() {
        Some((v, _)) => set![v as int],
        None => Set::empty(),
    }
}

/// What each instruction reads.
pub open spec fn gens(insts: Seq<InstModel>) -> Seq<Set<int>> {
    Seq::new(insts.len(), |i: int| gen_of(insts[i]))
}

/// What each instruction writes.
pub open spec fn kills(insts: Seq<InstModel>) -> Seq<Set<int>> {
    Seq::new(insts.len(), |i: int| kill_of(insts[i]))
}

/// The successors of each instruction.
pub open spec fn stream_succ(insts: Seq<InstModel>) -> Seq<Seq<usize>> {
    Seq::new(
        insts.len(),
        |i: int| insts[i].followers(i as nat, insts.len(), inst_positions(insts, insts.len())),
    )
}

/// Some path from instruction `i` reads `v` before anything writes it.
pub open spec fn reads_ahead(insts: Seq<InstModel>, i: int, v: int) -> bool {
    exists|path: Seq<int>|
        reaches_use(stream_succ(insts), gens(insts), kills(insts), i, v, path)
}

/// `v` is live behind instruction `i`.
pub open spec fn live_after(insts: Seq<InstModel>, i: int, v: int) -> bool {
    exists|k: int|
        0 <= k < stream_succ(insts)[i].len() && reads_ahead(
            insts,
            #[trigger] stream_succ(insts)[i][k] as int,
            v,
        )
}

/// Instruction `i` writes `u` while `v` is live.
pub open spec fn clashes_at(insts: Seq<InstModel>, i: int, u: int, v: int) -> bool {
    kill_of(insts[i]).contains(u) && live_after(insts, i, v)
}

/// One of the two is written while the other is live.
pub open spec fn interferes(insts: Seq<InstModel>, u: int, v: int) -> bool {
    u != v && exists|i: int|
        0 <= i < insts.len() && (#[trigger] clashes_at(insts, i, u, v) || clashes_at(
            insts,
            i,
            v,
            u,
        ))
}

/// The virtual registers of a stream.
pub open spec fn vregs(insts: Seq<InstModel>) -> Set<int> {
    Set::new(
        |x: int|
            exists|i: int|
                0 <= i < insts.len() && (gen_of(#[trigger] insts[i]).contains(x) || kill_of(
                    insts[i],
                ).contains(x)),
    )
}

/// The interference graph of a stream whose virtual registers are below `n`.
pub open spec fn interference(insts: Seq<InstModel>, n: nat) -> Seq<Set<int>> {
    Seq::new(n, |u: int| Set::new(|v: int| interferes(insts, u, v)))
}

/// The width of each virtual register, by the last instruction that writes it.
pub open spec fn widths(insts: Seq<InstModel>) -> Map<usize, RegisterSize>
    decreases insts.len(),
{
    if insts.len() == 0 {
        Map::empty()
    } else {
        let front = widths(insts.drop_last());
        match insts.last().def() {
            Some((v, size)) => front.insert(v, size),
            None => front,
        }
    }
}

/// The width under which a virtual register is spilled.
pub open spec fn width_of(widths: Map<usize, RegisterSize>, v: usize) -> RegisterSize {
    if widths.contains_key(v) {
        widths[v]
    } else {
        RegisterSize::X64
    }
}

/// The places of the coloured registers.
pub open spec fn colored_places(colors: Map<usize, u8>) -> Map<usize, Location> {
    colors.map_values(|c: u8| Location::Register(c))
}

/// The places of all registers, and the size of the frame: the spilled ones
/// get slots in order.
pub open spec fn places(
    colors: Map<usize, u8>,
    spilled: Seq<usize>,
    widths: Map<usize, RegisterSize>,
    bytes: int,
) -> (Map<usize, Location>, int)
    decreases spilled.len(),
{
    if spilled.len() == 0 {
        (colored_places(colors), bytes)
    } else {
        let (front, size) = places(colors, spilled.drop_last(), widths, bytes);
        let w = spill_bytes(width_of(widths, spilled.last()));
        let end = extended(size, w, w);
        (
            front.insert(
                spilled.last(),
                Location::Spill(StackSlot { offset_from_fp: (-end) as i64 }),
            ),
            end,
        )
    }
}

/// `alloc` is an allocation for the stream, and makes the frame grow from
/// `bytes` to `end`: the graph of what interferes is coloured greedily, in
/// reverse order of removal, and the rest is spilled.
pub open spec fn is_allocation(
    insts: Seq<InstModel>,
    bytes: int,
    alloc: Map<usize, Location>,
    end: int,
) -> bool {
    exists|n: nat, order: Seq<usize>, spills: Set<int>, colors: Map<usize, u8>| #[trigger]
        allocates(insts, n, order, spills, colors, bytes, alloc, end)
}

/// The allocation comes from the given order and colours; `n` is the number
/// behind the last virtual register.
pub open spec fn allocates(
    insts: Seq<InstModel>,
    n: nat,
    order: Seq<usize>,
    spills: Set<int>,
    colors: Map<usize, u8>,
    bytes: int,
    alloc: Map<usize, Location>,
    end: int,
) -> bool {
    &&& n <= usize::MAX
    &&& n == 0 || vregs(insts).contains(n - 1)
    &&& is_graph(interference(insts, n), vregs(insts))
    &&& is_removal_order(interference(insts, n), vregs(insts), order, spills)
    &&& is_greedy(interference(insts, n), order, colors)
    &&& (alloc, end) == places(
        colors,
        spill_order(uncolored(vregs(insts), colors), spills, n),
        widths(insts),
        bytes,
    )
}

/// There is one allocation for a stream.
pub proof fn lemma_one_allocation(
    insts: Seq<InstModel>,
    bytes: int,
    a: Map<usize, Location>,
    a_end: int,
    b: Map<usize, Location>,
    b_end: int,
)
    requires
        is_allocation(insts, bytes, a, a_end),
        is_allocation(insts, bytes, b, b_end),
    ensures
        a == b,
        a_end == b_end,
{
    let (n, order, spills, colors) = choose|
        n: nat,
        order: Seq<usize>,
        spills: Set<int>,
        colors: Map<usize, u8>,
    | #[trigger] allocates(insts, n, order, spills, colors, bytes, a, a_end);
    let (m, order2, spills2, colors2) = choose|
        m: nat,
        order2: Seq<usize>,
        spills2: Set<int>,
        colors2: Map<usize, u8>,
    | #[trigger] allocates(insts, m, order2, spills2, colors2, bytes, b, b_end);
    assert(interference(insts, n).len() == n && interference(insts, m).len() == m);
    assert(n == m) by {
        if n > 0 {
            assert(vregs(insts).contains(n - 1));
        }
        if m > 0 {
            assert(vregs(insts).contains(m - 1));
        }
    }
    let adj = interference(insts, n);
    lemma_one_removal_order(adj, vregs(insts), order, spills, order2, spills2);
    lemma_one_coloring(adj, order, colors, colors2);
}

/// The allocation for a stream, and the size that the frame grows to.
pub open spec fn allocation(insts: Seq<InstModel>, bytes: int) -> (Map<usize, Location>, int) {
    choose|alloc: Map<usize, Location>, end: int| #[trigger]
        is_allocation(insts, bytes, alloc, end)
}

/// What is an allocation for a stream is the allocation.
pub proof fn lemma_the_allocation(
    insts: Seq<InstModel>,
    bytes: int,
    alloc: Map<usize, Location>,
    end: int,
)
    requires
        is_allocation(insts, bytes, alloc, end),
    ensures
        allocation(insts, bytes) == (alloc, end),
{
    let (a, e) = allocation(insts, bytes);
    assert(is_allocation(insts, bytes, a, e));
    lemma_one_allocation(insts, bytes, a, e, alloc, end);
}

/// The instructions and virtual registers of the stream can be counted.
pub open spec fn countable(insts: Seq<InstModel>) -> bool {
    &&& insts.len() < usize::MAX
    &&& forall|x: int| #[trigger] vregs(insts).contains(x) ==> x < usize::MAX
}

/// What an instruction stream must be for its registers to be allocated: it
/// has no operations on floating-point numbers, no virtual register holds
/// one, and its register numbers fit in memory.
pub open spec fn allocatable(insts: Seq<InstModel>) -> bool {
    &&& countable(insts)
    &&& forall|i: int| 0 <= i < insts.len() ==> integral(#[trigger] insts[i])
    &&& forall|v: usize| #[trigger] widths(insts).contains_key(v) ==> !(widths(insts)[v] is S32)
}

/// The instruction is no operation on floating-point numbers.
pub open spec fn integral(inst: InstModel) -> bool {
    !(inst is FBinOp || inst is FCmp || inst is Scvtf || inst is Fcvtzs || inst is Fmov)
}

/// A register that an instruction names, after allocation.
pub enum MappedReg {
    InReg(Register),
    Spilled(StackSlot),
}

/// Where a register of an instruction is found.
pub open spec fn mapped(alloc: Map<usize, Location>, r: Register) -> Result<
    MappedReg,
    ErrorModel,
> {
    match r {
        Register::Virtual(v) => if alloc.contains_key(v) {
            match alloc[v] {
                Location::Register(p) => Ok(MappedReg::InReg(Register::Physical(p))),
                Location::Spill(slot) => Ok(MappedReg::Spilled(slot)),
            }
        } else {
            Err(
                ErrorModel::Internal(
                    "vreg "@ + nat_text(v as nat) + " has no register allocation"@,
                ),
            )
        },
        _ => Ok(MappedReg::InReg(r)),
    }
}

/// The load of a spilled register.
pub open spec fn spill_load(slot: StackSlot, size: RegisterSize, into: u8) -> InstModel {
    InstModel::Ldr {
        size,
        dst: Register::Physical(into),
        addr: frame_addr(slot.offset_from_fp as int),
    }
}

/// The store of a spilled register.
pub open spec fn spill_store(slot: StackSlot, size: RegisterSize, from: u8) -> InstModel {
    InstModel::Str {
        size,
        src: Register::Physical(from),
        addr: frame_addr(slot.offset_from_fp as int),
    }
}

/// A source register, with the instructions that load it.
pub open spec fn source(
    alloc: Map<usize, Location>,
    r: Register,
    size: RegisterSize,
    scratch: u8,
) -> Result<(Register, Seq<InstModel>), ErrorModel> {
    match mapped(alloc, r) {
        Err(e) => Err(e),
        Ok(MappedReg::InReg(reg)) => Ok((reg, Seq::empty())),
        Ok(MappedReg::Spilled(slot)) => Ok(
            (Register::Physical(scratch), seq![spill_load(slot, size, scratch)]),
        ),
    }
}

/// A source operand, with the instructions that load it.
pub open spec fn source_operand(
    alloc: Map<usize, Location>,
    op: InstOperand,
    size: RegisterSize,
    scratch: u8,
) -> Result<(InstOperand, Seq<InstModel>), ErrorModel> {
    match op {
        InstOperand::Immediate(_) => Ok((op, Seq::empty())),
        InstOperand::Register(r) => match source(alloc, r, size, scratch) {
            Err(e) => Err(e),
            Ok((reg, load)) => Ok((InstOperand::Register(reg), load)),
        },
    }
}

/// A target register, with the instructions that store it.
pub open spec fn sink(
    alloc: Map<usize, Location>,
    r: Register,
    size: RegisterSize,
    scratch: u8,
) -> Result<(Register, Seq<InstModel>), ErrorModel> {
    match mapped(alloc, r) {
        Err(e) => Err(e),
        Ok(MappedReg::InReg(reg)) => Ok((reg, Seq::empty())),
        Ok(MappedReg::Spilled(slot)) => Ok(
            (Register::Physical(scratch), seq![spill_store(slot, size, scratch)]),
        ),
    }
}

/// An address, whether its base is in the scratch register, and the
/// instructions that load it.
pub open spec fn source_addr(
    alloc: Map<usize, Location>,
    addr: AddrModel,
    scratch: u8,
) -> Result<(AddrModel, bool, Seq<InstModel>), ErrorModel> {
    match addr {
        AddrModel::Global(_) => Ok((addr, false, Seq::empty())),
        AddrModel::BaseOff { base, offset } => match mapped(alloc, base) {
            Err(e) => Err(e),
            Ok(MappedReg::InReg(reg)) => Ok(
                (AddrModel::BaseOff { base: reg, offset }, false, Seq::empty()),
            ),
            Ok(MappedReg::Spilled(slot)) => Ok(
                (
                    AddrModel::BaseOff { base: Register::Physical(scratch), offset },
                    true,
                    seq![spill_load(slot, RegisterSize::X64, scratch)],
                ),
            ),
        },
    }
}

/// The scratch register that is free when the base may be in the first.
pub open spec fn scratch_behind(base_used_scratch: bool) -> u8 {
    if base_used_scratch {
        SCRATCH1
    } else {
        SCRATCH0
    }
}

/// A move after allocation.
pub open spec fn rewritten_mov(
    alloc: Map<usize, Location>,
    size: RegisterSize,
    dst: Register,
    src: InstOperand,
) -> Result<Seq<InstModel>, ErrorModel> {
    match source_operand(alloc, src, size, SCRATCH1) {
        Err(e) => Err(e),
        Ok((op, load)) => match mapped(alloc, dst) {
            Err(e) => Err(e),
            Ok(MappedReg::InReg(reg)) => Ok(load.push(InstModel::Mov { size, dst: reg, src: op })),
            Ok(MappedReg::Spilled(slot)) => match op {
                InstOperand::Immediate(_) => Ok(
                    load.push(
                        InstModel::Mov { size, dst: Register::Physical(SCRATCH0), src: op },
                    ).push(spill_store(slot, size, SCRATCH0)),
                ),
                InstOperand::Register(Register::Physical(n)) => Ok(
                    load.push(spill_store(slot, size, n)),
                ),
                InstOperand::Register(Register::StackPointer) => Err(
                    ErrorModel::Internal("cannot use SP as source"@),
                ),
                InstOperand::Register(Register::Virtual(_)) => Err(
                    ErrorModel::Internal("unexpected vreg in operand"@),
                ),
            },
        },
    }
}

/// An operation after allocation.
pub open spec fn rewritten_binop(
    alloc: Map<usize, Location>,
    op: InstBinOp,
    size: RegisterSize,
    dst: Register,
    lhs: Register,
    rhs: InstOperand,
) -> Result<Seq<InstModel>, ErrorModel> {
    match source(alloc, lhs, size, SCRATCH0) {
        Err(e) => Err(e),
        Ok((l, load_l)) => match source_operand(alloc, rhs, size, SCRATCH1) {
            Err(e) => Err(e),
            Ok((r, load_r)) => match sink(alloc, dst, size, SCRATCH0) {
                Err(e) => Err(e),
                Ok((d, store)) => Ok(
                    (load_l + load_r).push(
                        InstModel::BinOp { op, size, dst: d, lhs: l, rhs: r },
                    ) + store,
                ),
            },
        },
    }
}

/// A comparison after allocation.
pub open spec fn rewritten_compare(
    alloc: Map<usize, Location>,
    size: RegisterSize,
    lhs: Register,
    rhs: InstOperand,
) -> Result<Seq<InstModel>, ErrorModel> {
    match source(alloc, lhs, size, SCRATCH0) {
        Err(e) => Err(e),
        Ok((l, load_l)) => match source_operand(alloc, rhs, size, SCRATCH1) {
            Err(e) => Err(e),
            Ok((r, load_r)) => Ok((load_l + load_r).push(InstModel::Cmp { size, lhs: l, rhs: r })),
        },
    }
}

/// A load after allocation.
pub open spec fn rewritten_ldr(
    alloc: Map<usize, Location>,
    size: RegisterSize,
    dst: Register,
    addr: AddrModel,
) -> Result<Seq<InstModel>, ErrorModel> {
    match source_addr(alloc, addr, SCRATCH0) {
        Err(e) => Err(e),
        Ok((a, used, load)) => match sink(alloc, dst, size, scratch_behind(used)) {
            Err(e) => Err(e),
            Ok((d, store)) => Ok(load.push(InstModel::Ldr { size, dst: d, addr: a }) + store),
        },
    }
}

/// A store after allocation.
pub open spec fn rewritten_str(
    alloc: Map<usize, Location>,
    size: RegisterSize,
    src: Register,
    addr: AddrModel,
) -> Result<Seq<InstModel>, ErrorModel> {
    match source_addr(alloc, addr, SCRATCH0) {
        Err(e) => Err(e),
        Ok((a, used, load)) => match source(alloc, src, size, scratch_behind(used)) {
            Err(e) => Err(e),
            Ok((s, load_s)) => Ok(
                (load + load_s).push(InstModel::Str { size, src: s, addr: a }),
            ),
        },
    }
}

/// The computation of an address after allocation.
pub open spec fn rewritten_lea(
    alloc: Map<usize, Location>,
    dst: Register,
    addr: AddrModel,
) -> Result<Seq<InstModel>, ErrorModel> {
    match source_addr(alloc, addr, SCRATCH0) {
        Err(e) => Err(e),
        Ok((a, used, load)) => match sink(alloc, dst, RegisterSize::X64, scratch_behind(used)) {
            Err(e) => Err(e),
            Ok((d, store)) => Ok(load.push(InstModel::Lea { dst: d, addr: a }) + store),
        },
    }
}

/// The computation of the address of an element after allocation.
pub open spec fn rewritten_gep(
    alloc: Map<usize, Location>,
    dst: Register,
    base: Register,
    index: InstOperand,
    scale: int,
) -> Result<Seq<InstModel>, ErrorModel> {
    match source(alloc, base, RegisterSize::X64, SCRATCH0) {
        Err(e) => Err(e),
        Ok((b, load_b)) => {
            let scratch = scratch_behind(b == Register::Physical(SCRATCH0));
            match source_operand(alloc, index, RegisterSize::W32, scratch) {
                Err(e) => Err(e),
                Ok((i, load_i)) => match sink(alloc, dst, RegisterSize::X64, scratch) {
                    Err(e) => Err(e),
                    Ok((d, store)) => Ok(
                        (load_b + load_i).push(
                            InstModel::Gep { dst: d, base: b, index: i, scale },
                        ) + store,
                    ),
                },
            }
        },
    }
}

/// An instruction after allocation.
pub open spec fn rewritten(alloc: Map<usize, Location>, inst: InstModel) -> Result<
    Seq<InstModel>,
    ErrorModel,
> {
    match inst {
        InstModel::Mov { size, dst, src } => rewritten_mov(alloc, size, dst, src),
        InstModel::BinOp { op, size, dst, lhs, rhs } => rewritten_binop(
            alloc,
            op,
            size,
            dst,
            lhs,
            rhs,
        ),
        InstModel::Cmp { size, lhs, rhs } => rewritten_compare(alloc, size, lhs, rhs),
        InstModel::Ldr { size, dst, addr } => rewritten_ldr(alloc, size, dst, addr),
        InstModel::Str { size, src, addr } => rewritten_str(alloc, size, src, addr),
        InstModel::Lea { dst, addr } => rewritten_lea(alloc, dst, addr),
        InstModel::Gep { dst, base, index, scale } => rewritten_gep(
            alloc,
            dst,
            base,
            index,
            scale,
        ),
        _ => Ok(seq![inst]),
    }
}

/// The instructions that load a source; none where it has no place.
pub open spec fn loads<T>(source: Result<(T, Seq<InstModel>), ErrorModel>) -> Seq<InstModel> {
    match source {
        Ok((_, load)) => load,
        Err(_) => Seq::empty(),
    }
}

/// What is put out of an operation or a comparison before an error.
pub open spec fn operands_left(
    alloc: Map<usize, Location>,
    size: RegisterSize,
    lhs: Register,
    rhs: InstOperand,
) -> Seq<InstModel> {
    match source(alloc, lhs, size, SCRATCH0) {
        Err(_) => Seq::empty(),
        Ok((_, load)) => load + loads(source_operand(alloc, rhs, size, SCRATCH1)),
    }
}

/// What is put out of an access to memory before an error.
pub open spec fn addr_left(alloc: Map<usize, Location>, addr: AddrModel) -> Seq<InstModel> {
    match source_addr(alloc, addr, SCRATCH0) {
        Err(_) => Seq::empty(),
        Ok((_, _, load)) => load,
    }
}

/// What is put out of the computation of the address of an element before an
/// error.
pub open spec fn gep_left(
    alloc: Map<usize, Location>,
    base: Register,
    index: InstOperand,
) -> Seq<InstModel> {
    match source(alloc, base, RegisterSize::X64, SCRATCH0) {
        Err(_) => Seq::empty(),
        Ok((b, load)) => load + loads(
            source_operand(
                alloc,
                index,
                RegisterSize::W32,
                scratch_behind(b == Register::Physical(SCRATCH0)),
            ),
        ),
    }
}

/// What is put out of an instruction before an error: the loads of the
/// sources that have a place.
pub open spec fn rewritten_left(alloc: Map<usize, Location>, inst: InstModel) -> Seq<InstModel> {
    match inst {
        InstModel::Mov { size, src, .. } => loads(source_operand(alloc, src, size, SCRATCH1)),
        InstModel::BinOp { size, lhs, rhs, .. } => operands_left(alloc, size, lhs, rhs),
        InstModel::Cmp { size, lhs, rhs } => operands_left(alloc, size, lhs, rhs),
        InstModel::Ldr { addr, .. } => addr_left(alloc, addr),
        InstModel::Str { addr, .. } => addr_left(alloc, addr),
        InstModel::Lea { addr, .. } => addr_left(alloc, addr),
        InstModel::Gep { base, index, .. } => gep_left(alloc, base, index),
        _ => Seq::empty(),
    }
}

/// A stream after allocation, or the first error.
pub open spec fn rewritten_all(alloc: Map<usize, Location>, insts: Seq<InstModel>) -> Result<
    Seq<InstModel>,
    ErrorModel,
>
    decreases insts.len(),
{
    if insts.len() == 0 {
        Ok(Seq::empty())
    } else {
        match rewritten_all(alloc, insts.drop_last()) {
            Err(e) => Err(e),
            Ok(front) => match rewritten(alloc, insts.last()) {
                Err(e) => Err(e),
                Ok(last) => Ok(front + last),
            },
        }
    }
}

/// The instruction has no virtual registers.
pub open spec fn physical(inst: InstModel) -> bool {
    inst.uses() == Set::<usize>::empty() && inst.def() is None
}

/// No virtual register is left after allocation.
pub proof fn lemma_no_vregs_left(alloc: Map<usize, Location>, insts: Seq<InstModel>)
    requires
        forall|i: int| 0 <= i < insts.len() ==> integral(#[trigger] insts[i]),
        rewritten_all(alloc, insts) is Ok,
    ensures
        rewritten_all(alloc, insts) matches Ok(out) && forall|i: int|
            0 <= i < out.len() ==> physical(#[trigger] out[i]),
    decreases insts.len(),
{
    if insts.len() > 0 {
        let front = insts.drop_last();
        assert forall|i: int| 0 <= i < front.len() implies integral(#[trigger] front[i]) by {
            assert(front[i] == insts[i]);
        }
        lemma_no_vregs_left(alloc, front);
        assert(integral(insts[insts.len() - 1]));
        lemma_rewritten_physical(alloc, insts.last());
    }
}

proof fn lemma_physical(inst: InstModel)
    ensures
        physical(inst) <==> match inst {
            InstModel::Mov { dst, src, .. } => !(dst is Virtual) && plain_operand(src),
            InstModel::BinOp { dst, lhs, rhs, .. } => !(dst is Virtual) && !(lhs is Virtual)
                && plain_operand(rhs),
            InstModel::FBinOp { dst, lhs, rhs, .. } => !(dst is Virtual) && !(lhs is Virtual)
                && !(rhs is Virtual),
            InstModel::Ldr { dst, addr, .. } => !(dst is Virtual) && plain_addr(addr),
            InstModel::Str { src, addr, .. } => !(src is Virtual) && plain_addr(addr),
            InstModel::Lea { dst, addr } => !(dst is Virtual) && plain_addr(addr),
            InstModel::Gep { dst, base, index, .. } => !(dst is Virtual) && !(base is Virtual)
                && plain_operand(index),
            InstModel::Cmp { lhs, rhs, .. } => !(lhs is Virtual) && plain_operand(rhs),
            InstModel::FCmp { lhs, rhs } => !(lhs is Virtual) && !(rhs is Virtual),
            InstModel::Scvtf { dst, src } => !(dst is Virtual) && !(src is Virtual),
            InstModel::Fcvtzs { dst, src } => !(dst is Virtual) && !(src is Virtual),
            InstModel::Fmov { dst, src } => !(dst is Virtual) && plain_operand(src),
            _ => true,
        },
{
    let e = Set::<usize>::empty();
    match inst {
        InstModel::Mov { dst, src, .. } => lemma_operand_use(src),
        InstModel::BinOp { dst, lhs, rhs, .. } => {
            lemma_reg_use(lhs);
            lemma_operand_use(rhs);
            lemma_union_empty(super::inst::reg_use(lhs), super::inst::operand_use(rhs));
        },
        InstModel::FBinOp { dst, lhs, rhs, .. } => {
            lemma_reg_use(lhs);
            lemma_reg_use(rhs);
            lemma_union_empty(super::inst::reg_use(lhs), super::inst::reg_use(rhs));
        },
        InstModel::Ldr { dst, addr, .. } => lemma_addr_use(addr),
        InstModel::Str { src, addr, .. } => {
            lemma_reg_use(src);
            lemma_addr_use(addr);
            lemma_union_empty(super::inst::reg_use(src), super::inst::addr_use(addr));
        },
        InstModel::Lea { dst, addr } => lemma_addr_use(addr),
        InstModel::Gep { dst, base, index, .. } => {
            lemma_reg_use(base);
            lemma_operand_use(index);
            lemma_union_empty(super::inst::reg_use(base), super::inst::operand_use(index));
        },
        InstModel::Cmp { lhs, rhs, .. } => {
            lemma_reg_use(lhs);
            lemma_operand_use(rhs);
            lemma_union_empty(super::inst::reg_use(lhs), super::inst::operand_use(rhs));
        },
        InstModel::FCmp { lhs, rhs } => {
            lemma_reg_use(lhs);
            lemma_reg_use(rhs);
            lemma_union_empty(super::inst::reg_use(lhs), super::inst::reg_use(rhs));
        },
        InstModel::Scvtf { dst, src } => lemma_reg_use(src),
        InstModel::Fcvtzs { dst, src } => lemma_reg_use(src),
        InstModel::Fmov { dst, src } => lemma_operand_use(src),
        _ => {},
    }
}

spec fn plain_operand(op: InstOperand) -> bool {
    op matches InstOperand::Register(r) ==> !(r is Virtual)
}

spec fn plain_addr(addr: AddrModel) -> bool {
    addr matches AddrModel::BaseOff { base, .. } ==> !(base is Virtual)
}

proof fn lemma_reg_use(r: Register)
    ensures
        super::inst::reg_use(r) == Set::<usize>::empty() <==> !(r is Virtual),
{
    if let Register::Virtual(v) = r {
        assert(super::inst::reg_use(r).contains(v));
    }
}

proof fn lemma_operand_use(op: InstOperand)
    ensures
        super::inst::operand_use(op) == Set::<usize>::empty() <==> plain_operand(op),
{
    if let InstOperand::Register(r) = op {
        lemma_reg_use(r);
    }
}

proof fn lemma_addr_use(addr: AddrModel)
    ensures
        super::inst::addr_use(addr) == Set::<usize>::empty() <==> plain_addr(addr),
{
    if let AddrModel::BaseOff { base, .. } = addr {
        lemma_reg_use(base);
    }
}

proof fn lemma_union_empty(a: Set<usize>, b: Set<usize>)
    ensures
        a.union(b) == Set::<usize>::empty() <==> a == Set::<usize>::empty() && b
            == Set::<usize>::empty(),
{
    if a.union(b) == Set::<usize>::empty() {
        assert forall|x: usize| !a.contains(x) && !b.contains(x) by {
            assert(!a.union(b).contains(x));
        }
        assert(a =~= Set::empty());
        assert(b =~= Set::empty());
    } else if a == Set::<usize>::empty() && b == Set::<usize>::empty() {
        assert(a.union(b) =~= Set::empty());
    }
}

/// No instruction of the list has virtual registers.
spec fn all_physical(insts: Seq<InstModel>) -> bool {
    forall|i: int| 0 <= i < insts.len() ==> physical(#[trigger] insts[i])
}

proof fn lemma_all_physical_concat(a: Seq<InstModel>, b: Seq<InstModel>)
    requires
        all_physical(a),
        all_physical(b),
    ensures
        all_physical(a + b),
{
    assert forall|i: int| 0 <= i < (a + b).len() implies physical(#[trigger] (a + b)[i]) by {
        if i < a.len() {
            assert((a + b)[i] == a[i]);
        } else {
            assert((a + b)[i] == b[i - a.len()]);
        }
    }
}

proof fn lemma_all_physical_push(a: Seq<InstModel>, x: InstModel)
    requires
        all_physical(a),
        physical(x),
    ensures
        all_physical(a.push(x)),
{
    assert forall|i: int| 0 <= i < a.push(x).len() implies physical(#[trigger] a.push(x)[i]) by {
        if i < a.len() {
            assert(a.push(x)[i] == a[i]);
        }
    }
}

proof fn lemma_source_physical(
    alloc: Map<usize, Location>,
    r: Register,
    size: RegisterSize,
    scratch: u8,
)
    ensures
        source(alloc, r, size, scratch) matches Ok((reg, load)) ==> !(reg is Virtual)
            && all_physical(load),
        sink(alloc, r, size, scratch) matches Ok((reg, store)) ==> !(reg is Virtual)
            && all_physical(store),
{
    if let Ok(MappedReg::Spilled(slot)) = mapped(alloc, r) {
        lemma_physical(spill_load(slot, size, scratch));
        lemma_physical(spill_store(slot, size, scratch));
    }
}

proof fn lemma_source_operand_physical(
    alloc: Map<usize, Location>,
    op: InstOperand,
    size: RegisterSize,
    scratch: u8,
)
    ensures
        source_operand(alloc, op, size, scratch) matches Ok((o, load)) ==> plain_operand(o)
            && all_physical(load),
{
    if let InstOperand::Register(r) = op {
        lemma_source_physical(alloc, r, size, scratch);
    }
}

proof fn lemma_source_addr_physical(alloc: Map<usize, Location>, addr: AddrModel, scratch: u8)
    ensures
        source_addr(alloc, addr, scratch) matches Ok((a, _, load)) ==> plain_addr(a)
            && all_physical(load),
{
    if let AddrModel::BaseOff { base, .. } = addr {
        if let Ok(MappedReg::Spilled(slot)) = mapped(alloc, base) {
            lemma_physical(spill_load(slot, RegisterSize::X64, scratch));
        }
    }
}

proof fn lemma_mov_physical(
    alloc: Map<usize, Location>,
    size: RegisterSize,
    dst: Register,
    src: InstOperand,
)
    ensures
        rewritten_mov(alloc, size, dst, src) matches Ok(out) ==> all_physical(out),
{
    lemma_source_operand_physical(alloc, src, size, SCRATCH1);
    if let Ok(out) = rewritten_mov(alloc, size, dst, src) {
        let (op, load) = source_operand(alloc, src, size, SCRATCH1)->Ok_0;
        match mapped(alloc, dst)->Ok_0 {
            MappedReg::InReg(reg) => {
                let m = InstModel::Mov { size, dst: reg, src: op };
                lemma_physical(m);
                lemma_all_physical_push(load, m);
            },
            MappedReg::Spilled(slot) => match op {
                InstOperand::Immediate(_) => {
                    let m = InstModel::Mov { size, dst: Register::Physical(SCRATCH0), src: op };
                    lemma_physical(m);
                    lemma_all_physical_push(load, m);
                    lemma_physical(spill_store(slot, size, SCRATCH0));
                    lemma_all_physical_push(load.push(m), spill_store(slot, size, SCRATCH0));
                },
                InstOperand::Register(Register::Physical(n)) => {
                    lemma_physical(spill_store(slot, size, n));
                    lemma_all_physical_push(load, spill_store(slot, size, n));
                },
                _ => {},
            },
        }
    }
}

/// Loads, one instruction and stores without virtual registers.
proof fn lemma_sandwich_physical(
    a: Seq<InstModel>,
    b: Seq<InstModel>,
    x: InstModel,
    c: Seq<InstModel>,
)
    requires
        all_physical(a),
        all_physical(b),
        physical(x),
        all_physical(c),
    ensures
        all_physical(a.push(x)),
        all_physical(a.push(x) + c),
        all_physical((a + b).push(x)),
        all_physical((a + b).push(x) + c),
{
    lemma_all_physical_concat(a, b);
    lemma_all_physical_push(a, x);
    lemma_all_physical_push(a + b, x);
    lemma_all_physical_concat(a.push(x), c);
    lemma_all_physical_concat((a + b).push(x), c);
}

proof fn lemma_rewritten_physical(alloc: Map<usize, Location>, inst: InstModel)
    requires
        integral(inst),
        rewritten(alloc, inst) is Ok,
    ensures
        rewritten(alloc, inst) matches Ok(out) && forall|i: int|
            0 <= i < out.len() ==> physical(#[trigger] out[i]),
{
    let none = Seq::<InstModel>::empty();
    match inst {
        InstModel::Mov { size, dst, src } => lemma_mov_physical(alloc, size, dst, src),
        InstModel::BinOp { op, size, dst, lhs, rhs } => {
            lemma_source_physical(alloc, lhs, size, SCRATCH0);
            lemma_source_operand_physical(alloc, rhs, size, SCRATCH1);
            lemma_source_physical(alloc, dst, size, SCRATCH0);
            let (l, a) = source(alloc, lhs, size, SCRATCH0)->Ok_0;
            let (r, b) = source_operand(alloc, rhs, size, SCRATCH1)->Ok_0;
            let (d, c) = sink(alloc, dst, size, SCRATCH0)->Ok_0;
            let x = InstModel::BinOp { op, size, dst: d, lhs: l, rhs: r };
            lemma_physical(x);
            lemma_sandwich_physical(a, b, x, c);
        },
        InstModel::Cmp { size, lhs, rhs } => {
            lemma_source_physical(alloc, lhs, size, SCRATCH0);
            lemma_source_operand_physical(alloc, rhs, size, SCRATCH1);
            let (l, a) = source(alloc, lhs, size, SCRATCH0)->Ok_0;
            let (r, b) = source_operand(alloc, rhs, size, SCRATCH1)->Ok_0;
            let x = InstModel::Cmp { size, lhs: l, rhs: r };
            lemma_physical(x);
            lemma_sandwich_physical(a, b, x, none);
        },
        InstModel::Ldr { size, dst, addr } => {
            lemma_source_addr_physical(alloc, addr, SCRATCH0);
            let (ad, used, a) = source_addr(alloc, addr, SCRATCH0)->Ok_0;
            lemma_source_physical(alloc, dst, size, scratch_behind(used));
            let (d, c) = sink(alloc, dst, size, scratch_behind(used))->Ok_0;
            let x = InstModel::Ldr { size, dst: d, addr: ad };
            lemma_physical(x);
            lemma_sandwich_physical(a, none, x, c);
        },
        InstModel::Str { size, src, addr } => {
            lemma_source_addr_physical(alloc, addr, SCRATCH0);
            let (ad, used, a) = source_addr(alloc, addr, SCRATCH0)->Ok_0;
            lemma_source_physical(alloc, src, size, scratch_behind(used));
            let (r, b) = source(alloc, src, size, scratch_behind(used))->Ok_0;
            let x = InstModel::Str { size, src: r, addr: ad };
            lemma_physical(x);
            lemma_sandwich_physical(a, b, x, none);
        },
        InstModel::Lea { dst, addr } => {
            lemma_source_addr_physical(alloc, addr, SCRATCH0);
            let (ad, used, a) = source_addr(alloc, addr, SCRATCH0)->Ok_0;
            lemma_source_physical(alloc, dst, RegisterSize::X64, scratch_behind(used));
            let (d, c) = sink(alloc, dst, RegisterSize::X64, scratch_behind(used))->Ok_0;
            let x = InstModel::Lea { dst: d, addr: ad };
            lemma_physical(x);
            lemma_sandwich_physical(a, none, x, c);
        },
        InstModel::Gep { dst, base, index, scale } => {
            lemma_source_physical(alloc, base, RegisterSize::X64, SCRATCH0);
            let (b0, a) = source(alloc, base, RegisterSize::X64, SCRATCH0)->Ok_0;
            let scratch = scratch_behind(b0 == Register::Physical(SCRATCH0));
            lemma_source_operand_physical(alloc, index, RegisterSize::W32, scratch);
            lemma_source_physical(alloc, dst, RegisterSize::X64, scratch);
            let (i, b) = source_operand(alloc, index, RegisterSize::W32, scratch)->Ok_0;
            let (d, c) = sink(alloc, dst, RegisterSize::X64, scratch)->Ok_0;
            let x = InstModel::Gep { dst: d, base: b0, index: i, scale };
            lemma_physical(x);
            lemma_sandwich_physical(a, b, x, c);
        },
        _ => {
            lemma_physical(inst);
            lemma_all_physical_push(none, inst);
        },
    }
}

/// What an allocation promises: every virtual register of the stream has a
/// place; a place in a register is one of the allocatable registers; and two
/// registers that interfere do not share one.
pub proof fn lemma_allocation_is_valid(
    insts: Seq<InstModel>,
    bytes: int,
    alloc: Map<usize, Location>,
    end: int,
)
    requires
        is_allocation(insts, bytes, alloc, end),
    ensures
        forall|v: usize|
            #![trigger alloc.contains_key(v)]
            vregs(insts).contains(v as int) ==> alloc.contains_key(v),
        forall|v: usize|
            #![trigger alloc[v]]
            vregs(insts).contains(v as int) ==> (alloc[v] matches Location::Register(c)
                ==> FIRST_COLOR <= c < COLORS_END),
        forall|u: usize, v: usize|
            #![trigger alloc[u], alloc[v]]
            vregs(insts).contains(u as int) && vregs(insts).contains(v as int) && interferes(
                insts,
                u as int,
                v as int,
            ) && alloc[u] is Register && alloc[v] is Register ==> alloc[u] != alloc[v],
{
    let (n, order, spills, colors) = choose|
        n: nat,
        order: Seq<usize>,
        spills: Set<int>,
        colors: Map<usize, u8>,
    | #[trigger] allocates(insts, n, order, spills, colors, bytes, alloc, end);
    let adj = interference(insts, n);
    let present = vregs(insts);
    let un = uncolored(present, colors);
    let spilled = spill_order(un, spills, n);
    lemma_places(colors, spilled, widths(insts), bytes);
    lemma_spill_order(un, spills, n);
    assert forall|v: usize| #![trigger alloc.contains_key(v)] present.contains(
        v as int,
    ) implies alloc.contains_key(v) && (alloc[v] matches Location::Register(c) ==> colors.contains_key(
        v,
    ) && colors[v] == c && FIRST_COLOR <= c < COLORS_END) by {
        if colors.contains_key(v) {
            assert(!spilled.contains(v)) by {
                if spilled.contains(v) {
                    assert(un.contains(v as int));
                }
            }
            assert(before(order, order.len() as int).contains(v as int));
            let k = choose|k: int| 0 <= k < order.len() && order[k] == v as int;
            assert(super::coloring::greedily_colored(adj, order, colors, k));
        } else {
            assert(un.contains(v as int));
            assert(spilled.contains(v));
        }
    }
    assert forall|v: usize|
        #![trigger alloc[v]]
        present.contains(v as int) implies (alloc[v] matches Location::Register(c) ==> FIRST_COLOR
        <= c < COLORS_END) by {
        assert(alloc.contains_key(v));
    }
    assert forall|u: usize, v: usize|
        #![trigger alloc[u], alloc[v]]
        present.contains(u as int) && present.contains(v as int) && interferes(
            insts,
            u as int,
            v as int,
        ) && alloc[u] is Register && alloc[v] is Register implies alloc[u] != alloc[v] by {
        assert(alloc.contains_key(u) && alloc.contains_key(v));
        assert(adj[u as int].contains(v as int));
        lemma_neighbours_differ(adj, present, order, colors, u, v);
    }
}

proof fn lemma_places(
    colors: Map<usize, u8>,
    spilled: Seq<usize>,
    widths: Map<usize, RegisterSize>,
    bytes: int,
)
    ensures
        forall|v: usize| #[trigger]
            places(colors, spilled, widths, bytes).0.contains_key(v) <==> colors.contains_key(v)
                || spilled.contains(v),
        forall|v: usize| #[trigger]
            spilled.contains(v) ==> places(colors, spilled, widths, bytes).0[v] is Spill,
        forall|v: usize|
            !spilled.contains(v) && #[trigger] colors.contains_key(v) ==> places(
                colors,
                spilled,
                widths,
                bytes,
            ).0[v] == Location::Register(colors[v]),
    decreases spilled.len(),
{
    if spilled.len() > 0 {
        let front = spilled.drop_last();
        lemma_places(colors, front, widths, bytes);
        assert forall|v: usize| spilled.contains(v) <==> front.contains(v) || v
            == spilled.last() by {
            if spilled.contains(v) {
                let i = choose|i: int| 0 <= i < spilled.len() && spilled[i] == v;
                if i < front.len() {
                    assert(front[i] == v);
                }
            }
            if front.contains(v) {
                let i = choose|i: int| 0 <= i < front.len() && front[i] == v;
                assert(spilled[i] == v);
            }
            assert(spilled[spilled.len() - 1] == spilled.last());
        }
    }
}

proof fn lemma_spill_order(s: Set<int>, first: Set<int>, n: nat)
    requires
        n <= usize::MAX,
    ensures
        forall|v: usize| #[trigger]
            spill_order(s, first, n).contains(v) <==> s.contains(v as int) && v < n,
{
    lemma_ascending_members(s, first, true, n);
    lemma_ascending_members(s, first, false, n);
    let a = super::coloring::ascending(s, first, true, n);
    let b = super::coloring::ascending(s, first, false, n);
    assert forall|v: usize| #[trigger]
        spill_order(s, first, n).contains(v) <==> s.contains(v as int) && v < n by {
        if (a + b).contains(v) {
            let i = choose|i: int| 0 <= i < (a + b).len() && (a + b)[i] == v;
            if i < a.len() {
                assert(a.contains(a[i]));
            } else {
                assert(b.contains(b[i - a.len()]));
            }
        }
        if s.contains(v as int) && v < n {
            if first.contains(v as int) {
                assert(a.contains(v));
                let i = choose|i: int| 0 <= i < a.len() && a[i] == v;
                assert((a + b)[i] == v);
            } else {
                assert(b.contains(v));
                let i = choose|i: int| 0 <= i < b.len() && b[i] == v;
                assert((a + b)[i + a.len()] == v);
            }
        }
    }
}

proof fn lemma_ascending_members(s: Set<int>, first: Set<int>, wanted: bool, n: nat)
    requires
        n <= usize::MAX + 1,
    ensures
        forall|v: usize| #[trigger]
            super::coloring::ascending(s, first, wanted, n).contains(v) <==> s.contains(v as int)
                && first.contains(v as int) == wanted && v < n,
    decreases n,
{
    if n > 0 {
        let x = n - 1;
        lemma_ascending_members(s, first, wanted, x as nat);
        let front = super::coloring::ascending(s, first, wanted, x as nat);
        let all = super::coloring::ascending(s, first, wanted, n);
        assert forall|v: usize| #[trigger] all.contains(v) <==> s.contains(v as int)
            && first.contains(v as int) == wanted && v < n by {
            if all.contains(v) {
                let i = choose|i: int| 0 <= i < all.len() && all[i] == v;
                if i < front.len() {
                    assert(front.contains(front[i]));
                }
            }
            if front.contains(v) {
                let i = choose|i: int| 0 <= i < front.len() && front[i] == v;
                assert(all[i] == v);
            }
            if s.contains(x) && first.contains(x) == wanted {
                assert(all[front.len() as int] == x as usize);
            }
        }
    }
}

/// Where every virtual register lives.
pub struct RegisterAllocation {
    pub locations: HashMap<usize, Location>,
}

impl RegisterAllocation {
    fn empty() -> (a: Self)
        ensures
            a.locations@ == Map::<usize, Location>::empty(),
    {
        RegisterAllocation { locations: HashMap::new() }
    }

    fn location(&self, vreg: usize) -> (l: Option<Location>)
        ensures
            l == if self.locations@.contains_key(vreg) {
                Some(self.locations@[vreg])
            } else {
                None
            },
    {
        match self.locations.get(&vreg) {
            Some(l) => Some(*l),
            None => None,
        }
    }
}

/// One more than the greatest virtual register of the stream; zero when there
/// is none.
fn count_vregs(insts: &[Instruction]) -> (n: usize)
    requires
        countable(inst_models(insts@)),
    ensures
        forall|x: int| #[trigger] vregs(inst_models(insts@)).contains(x) ==> 0 <= x < n,
        n == 0 || vregs(inst_models(insts@)).contains(n - 1),
{
    let ghost ms = inst_models(insts@);
    let mut n: usize = 0;
    let mut i: usize = 0;
    while i < insts.len()
        invariant
            i <= insts.len(),
            ms == inst_models(insts@),
            countable(ms),
            forall|k: int, x: int|
                0 <= k < i && (#[trigger] gen_of(ms[k]).contains(x) || kill_of(
                    ms[k],
                ).contains(x)) ==> 0 <= x < n,
            forall|k: int, x: int|
                0 <= k < i && #[trigger] kill_of(ms[k]).contains(x) ==> 0 <= x < n,
            n == 0 || vregs(ms).contains(n - 1),
        decreases insts.len() - i,
    {
        let used = insts[i].used_vregs();
        let ghost inst = ms[i as int];
        let ghost start = n;
        let mut e: usize = 0;
        while e < used.len()
            invariant
                e <= used.len(),
                ms == inst_models(insts@),
                i < insts.len(),
                inst == ms[i as int],
                countable(ms),
                used@.to_set() == inst.uses(),
                start <= n,
                n == 0 || vregs(ms).contains(n - 1),
                forall|k: int| 0 <= k < e ==> #[trigger] used@[k] < n,
            decreases used.len() - e,
        {
            proof {
                let x = used@[e as int];
                assert(used@.to_set().contains(x));
                assert(gen_of(ms[i as int]).contains(x as int));
                assert(vregs(ms).contains(x as int));
            }
            if used[e] >= n {
                n = used[e] + 1;
            }
            e = e + 1;
        }
        if let Some((v, _)) = insts[i].defined_vreg_with_size() {
            proof {
                assert(kill_of(ms[i as int]).contains(v as int));
                assert(vregs(ms).contains(v as int));
            }
            if v >= n {
                n = v + 1;
            }
        }
        assert forall|x: int| gen_of(inst).contains(x) implies 0 <= x < n by {
            assert(used@.to_set().contains(x as usize));
            let k = choose|k: int| 0 <= k < used@.len() && used@[k] == x as usize;
            assert(used@[k] < n);
        }
        i = i + 1;
    }
    n
}

/// What each instruction reads and writes, the registers of the stream, and
/// their widths.
struct StreamFacts {
    gen: Vec<Bitset>,
    kill: Vec<Bitset>,
    present: Bitset,
    sizes: HashMap<usize, RegisterSize>,
}

fn build_gen_kill(insts: &[Instruction], n: usize) -> (facts: StreamFacts)
    requires
        countable(inst_models(insts@)),
        forall|x: int| #[trigger] vregs(inst_models(insts@)).contains(x) ==> 0 <= x < n,
    ensures
        uniform(facts.gen@, n as nat),
        uniform(facts.kill@, n as nat),
        sets(facts.gen@) == gens(inst_models(insts@)),
        sets(facts.kill@) == kills(inst_models(insts@)),
        facts.present.wf(),
        facts.present.cap() == n,
        facts.present@ == vregs(inst_models(insts@)),
        facts.sizes@ == widths(inst_models(insts@)),
{
    let ghost ms = inst_models(insts@);
    let mut gen: Vec<Bitset> = Vec::new();
    let mut kill: Vec<Bitset> = Vec::new();
    let mut present = Bitset::new(n);
    let mut sizes: HashMap<usize, RegisterSize> = HashMap::new();
    let mut i: usize = 0;
    assert(ms.take(0) =~= Seq::empty());
    assert(vregs(ms.take(0)) =~= Set::empty());
    while i < insts.len()
        invariant
            i <= insts.len(),
            ms == inst_models(insts@),
            countable(ms),
            forall|x: int| #[trigger] vregs(ms).contains(x) ==> 0 <= x < n,
            gen.len() == i,
            kill.len() == i,
            uniform(gen@, n as nat),
            uniform(kill@, n as nat),
            forall|k: int| 0 <= k < i ==> (#[trigger] gen@[k])@ == gen_of(ms[k]),
            forall|k: int| 0 <= k < i ==> (#[trigger] kill@[k])@ == kill_of(ms[k]),
            present.wf(),
            present.cap() == n,
            present@ == vregs(ms.take(i as int)),
            sizes@ == widths(ms.take(i as int)),
        decreases insts.len() - i,
    {
        let ghost inst = ms[i as int];
        let ghost seen = present@;
        let used = insts[i].used_vregs();
        let mut g = Bitset::new(n);
        let mut e: usize = 0;
        while e < used.len()
            invariant
                e <= used.len(),
                ms == inst_models(insts@),
                i < insts.len(),
                inst == ms[i as int],
                forall|x: int| #[trigger] vregs(ms).contains(x) ==> 0 <= x < n,
                used@.to_set() == inst.uses(),
                g.wf(),
                g.cap() == n,
                present.wf(),
                present.cap() == n,
                forall|x: int|
                    #[trigger] g@.contains(x) <==> exists|k: int| 0 <= k < e && used@[k] == x,
                present@ == seen.union(g@),
            decreases used.len() - e,
        {
            let v: usize = used[e];
            proof {
                assert(used@.to_set().contains(used@[e as int]));
                assert(gen_of(ms[i as int]).contains(v as int));
                assert(vregs(ms).contains(v as int));
            }
            let ghost before_g = g@;
            g.insert(v);
            present.insert(v);
            assert(present@ =~= seen.union(g@));
            assert forall|x: int| #[trigger] g@.contains(x) <==> exists|k: int|
                0 <= k < e + 1 && used@[k] == x by {
                if before_g.contains(x) {
                    let k = choose|k: int| 0 <= k < e && used@[k] == x;
                    assert(used@[k] == x);
                }
                if x == v {
                    assert(used@[e as int] == x);
                }
            }
            e = e + 1;
        }
        assert(g@ =~= gen_of(inst)) by {
            assert forall|x: int| g@.contains(x) == gen_of(inst).contains(x) by {
                if g@.contains(x) {
                    let k = choose|k: int| 0 <= k < used@.len() && used@[k] == x;
                    assert(used@.to_set().contains(used@[k]));
                }
                if gen_of(inst).contains(x) {
                    assert(used@.to_set().contains(x as usize));
                    let k = choose|k: int| 0 <= k < used@.len() && used@[k] == x as usize;
                    assert(used@[k] == x);
                }
            }
        }
        let mut k = Bitset::new(n);
        if let Some((v, size)) = insts[i].defined_vreg_with_size() {
            proof {
                assert(kill_of(ms[i as int]).contains(v as int));
                assert(vregs(ms).contains(v as int));
            }
            k.insert(v);
            present.insert(v);
            sizes.insert(v, size);
        }
        assert(k@ =~= kill_of(inst));
        proof {
            let longer = ms.take(i + 1);
            assert(longer.drop_last() =~= ms.take(i as int));
            assert(longer.last() == ms[i as int]);
            assert(present@ =~= seen.union(gen_of(inst)).union(kill_of(inst)));
            assert forall|x: int| present@.contains(x) == vregs(longer).contains(x) by {
                if seen.contains(x) {
                    let j = choose|j: int|
                        0 <= j < i && (gen_of(#[trigger] ms.take(i as int)[j]).contains(x)
                            || kill_of(ms.take(i as int)[j]).contains(x));
                    assert(longer[j] == ms.take(i as int)[j]);
                }
                if gen_of(inst).contains(x) || kill_of(inst).contains(x) {
                    assert(gen_of(longer[i as int]).contains(x) || kill_of(
                        longer[i as int],
                    ).contains(x));
                }
                if vregs(longer).contains(x) {
                    let j = choose|j: int|
                        0 <= j < longer.len() && (gen_of(#[trigger] longer[j]).contains(x)
                            || kill_of(longer[j]).contains(x));
                    if j < i {
                        assert(longer[j] == ms.take(i as int)[j]);
                    }
                }
            }
            assert(present@ =~= vregs(longer));
        }
        gen.push(g);
        kill.push(k);
        i = i + 1;
    }
    assert(ms.take(i as int) =~= ms);
    assert(sets(gen@) =~= gens(ms));
    assert(sets(kill@) =~= kills(ms));
    StreamFacts { gen, kill, present, sizes }
}

/// One of the first `k` instructions writes one of the two while the other is
/// in the set behind it.
spec fn edge(
    insts: Seq<InstModel>,
    outs: Seq<Set<int>>,
    k: int,
    u: int,
    v: int,
) -> bool {
    u != v && exists|i: int|
        0 <= i < k && (#[trigger] meets(insts, outs, i, u, v) || meets(insts, outs, i, v, u))
}

/// Instruction `i` writes `u` while `v` is in the set behind it.
spec fn meets(insts: Seq<InstModel>, outs: Seq<Set<int>>, i: int, u: int, v: int) -> bool {
    kill_of(insts[i]).contains(u) && outs[i].contains(v)
}

impl InterferenceGraph {
    /// The graph of what is written while something else is live.
    fn build(
        insts: &[Instruction],
        live_out: &Vec<Bitset>,
        present: &Bitset,
        n: usize,
    ) -> (graph: Self)
        requires
            countable(inst_models(insts@)),
            live_out.len() == insts.len(),
            uniform(live_out@, n as nat),
            present.wf(),
            present.cap() == n,
            present@ == vregs(inst_models(insts@)),
            forall|i: int|
                0 <= i < insts.len() ==> (#[trigger] live_out@[i])@.subset_of(vregs(inst_models(insts@))),
        ensures
            graph.wf(),
            graph.adjacency@.len() == n,
            graph.present@ == vregs(inst_models(insts@)),
            forall|u: int, v: int|
                0 <= u < n ==> (#[trigger] graph.adj()[u].contains(v) <==> edge(
                    inst_models(insts@),
                    sets(live_out@),
                    inst_models(insts@).len() as int,
                    u,
                    v,
                )),
    {
        let ghost ms = inst_models(insts@);
        let ghost outs = sets(live_out@);
        let mut adjacency: Vec<Bitset> = Vec::new();
        let mut a: usize = 0;
        while a < n
            invariant
                a <= n,
                adjacency.len() == a,
                even(adjacency@, n as nat),
                forall|u: int| 0 <= u < a ==> (#[trigger] adjacency@[u])@ == Set::<int>::empty(),
            decreases n - a,
        {
            adjacency.push(Bitset::new(n));
            a = a + 1;
        }
        proof {
            present.lemma_members_below_cap();
        }
        let mut i: usize = 0;
        while i < insts.len()
            invariant
                i <= insts.len(),
                ms == inst_models(insts@),
                countable(ms),
                live_out.len() == insts.len(),
                uniform(live_out@, n as nat),
                outs == sets(live_out@),
                adjacency.len() == n,
                even(adjacency@, n as nat),
                forall|x: int| #[trigger] vregs(ms).contains(x) ==> 0 <= x < n,
                forall|j: int|
                    0 <= j < insts.len() ==> (#[trigger] live_out@[j])@.subset_of(vregs(ms)),
                forall|u: int, v: int|
                    0 <= u < n ==> (#[trigger] adjacency@[u]@.contains(v) <==> edge(
                        ms,
                        outs,
                        i as int,
                        u,
                        v,
                    )),
            decreases insts.len() - i,
        {
            let ghost before_adj = member_sets(adjacency@);
            match insts[i].defined_vreg_with_size() {
                None => {
                    proof {
                        assert forall|u: int, v: int| edge(ms, outs, i + 1, u, v) == edge(
                            ms,
                            outs,
                            i as int,
                            u,
                            v,
                        ) by {
                            lemma_edge_step(ms, outs, i as int, u, v);
                        }
                    }
                },
                Some((d, _)) => {
                    proof {
                        assert(kill_of(ms[i as int]).contains(d as int));
                        assert(vregs(ms).contains(d as int));
                        assert(outs[i as int] == live_out@[i as int]@);
                        assert(live_out@[i as int].inv());
                    }
                    add_edges(&mut adjacency, d, &live_out[i]);
                    proof {
                        assert forall|u: int, v: int|
                            0 <= u < n implies (#[trigger] adjacency@[u]@.contains(v) <==> edge(
                            ms,
                            outs,
                            i + 1,
                            u,
                            v,
                        )) by {
                            lemma_edge_step(ms, outs, i as int, u, v);
                            assert(before_adj[u].contains(v) == edge(
                                ms,
                                outs,
                                i as int,
                                u,
                                v,
                            ));
                        }
                    }
                },
            }
            i = i + 1;
        }
        let graph = InterferenceGraph { present: present.clone(), adjacency };
        proof {
            let adj = graph.adj();
            assert forall|u: int| 0 <= u < adj.len() implies (#[trigger] adj[u]).subset_of(
                graph.present@,
            ) && adj[u].finite() && !adj[u].contains(u) by {
                assert(adj[u] == graph.adjacency@[u]@);
                graph.adjacency@[u].lemma_members_below_cap();
                assert forall|v: int| adj[u].contains(v) implies graph.present@.contains(v) by {
                    assert(edge(ms, outs, i as int, u, v));
                    let j = lemma_edge_witness(ms, outs, i as int, u, v);
                    if meets(ms, outs, j, u, v) {
                        assert(live_out@[j]@.contains(v));
                    } else {
                        assert(meets(ms, outs, j, v, u));
                        assert(kill_of(ms[j]).contains(v));
                    }
                }
            }
            assert forall|u: int, v: int|
                0 <= u < adj.len() && 0 <= v < adj.len() && #[trigger] adj[u].contains(
                    v,
                ) implies adj[v].contains(u) by {
                assert(graph.adjacency@[u]@.contains(v));
                assert(edge(ms, outs, i as int, u, v));
                let j = lemma_edge_witness(ms, outs, i as int, u, v);
                assert(meets(ms, outs, j, v, u) || meets(ms, outs, j, u, v));
                assert(edge(ms, outs, i as int, v, u));
                assert(graph.adjacency@[v]@.contains(u));
            }
        }
        graph
    }
}

proof fn lemma_edge_witness(
    insts: Seq<InstModel>,
    outs: Seq<Set<int>>,
    k: int,
    u: int,
    v: int,
) -> (i: int)
    requires
        edge(insts, outs, k, u, v),
    ensures
        0 <= i < k,
        u != v,
        meets(insts, outs, i, u, v) || meets(insts, outs, i, v, u),
{
    choose|i: int|
        0 <= i < k && (#[trigger] meets(insts, outs, i, u, v) || meets(insts, outs, i, v, u))
}

proof fn lemma_clash_witness(insts: Seq<InstModel>, u: int, v: int) -> (i: int)
    requires
        interferes(insts, u, v),
    ensures
        0 <= i < insts.len(),
        u != v,
        clashes_at(insts, i, u, v) || clashes_at(insts, i, v, u),
{
    choose|i: int|
        0 <= i < insts.len() && (#[trigger] clashes_at(insts, i, u, v) || clashes_at(
            insts,
            i,
            v,
            u,
        ))
}

proof fn lemma_edge_step(
    insts: Seq<InstModel>,
    outs: Seq<Set<int>>,
    k: int,
    u: int,
    v: int,
)
    requires
        0 <= k < insts.len(),
    ensures
        edge(insts, outs, k + 1, u, v) <==> edge(insts, outs, k, u, v) || (u != v && (meets(
            insts,
            outs,
            k,
            u,
            v,
        ) || meets(insts, outs, k, v, u))),
{
    if edge(insts, outs, k + 1, u, v) {
        let i = choose|i: int|
            0 <= i < k + 1 && (#[trigger] meets(insts, outs, i, u, v) || meets(
                insts,
                outs,
                i,
                v,
                u,
            ));
        if i < k {
            assert(meets(insts, outs, i, u, v) || meets(insts, outs, i, v, u));
        }
    }
    if edge(insts, outs, k, u, v) {
        let i = choose|i: int|
            0 <= i < k && (#[trigger] meets(insts, outs, i, u, v) || meets(insts, outs, i, v, u));
        assert(meets(insts, outs, i, u, v) || meets(insts, outs, i, v, u));
    }
}

/// Makes `d` a neighbour of all other members of `out`.
fn add_edges(adjacency: &mut Vec<Bitset>, d: usize, out: &Bitset)
    requires
        even(old(adjacency)@, old(adjacency)@.len()),
        d < old(adjacency)@.len(),
        out.wf(),
        out.cap() == old(adjacency)@.len(),
        !old(adjacency)@[d as int]@.contains(d as int),
    ensures
        final(adjacency)@.len() == old(adjacency)@.len(),
        even(final(adjacency)@, old(adjacency)@.len()),
        forall|u: int, v: int|
            0 <= u < old(adjacency)@.len() ==> (#[trigger] final(adjacency)@[u]@.contains(v) <==> old(
                adjacency,
            )@[u]@.contains(v) || (u != v && ((u == d && out@.contains(v)) || (v == d
                && out@.contains(u))))),
{
    let ghost start = member_sets(adjacency@);
    let n: usize = adjacency.len();
    let mut row = adjacency[d].clone();
    assert(row.wf() && row.cap() == n);
    row.union_with(out);
    row.remove(d);
    adjacency.set(d, row);
    let nodes = members(out);
    proof {
        out.lemma_members_below_cap();
    }
    let mut e: usize = 0;
    while e < nodes.len()
        invariant
            e <= nodes.len(),
            n == adjacency.len(),
            d < n,
            start.len() == n,
            even(adjacency@, n as nat),
            out.wf(),
            out.cap() == n,
            lists(nodes@, out@),
            forall|x: int| out@.contains(x) ==> 0 <= x < n,
            forall|u: int, v: int|
                0 <= u < n ==> (#[trigger] adjacency@[u]@.contains(v) <==> start[u].contains(v) || (
                u != v && ((u == d && out@.contains(v)) || (v == d && exists|k: int|
                    0 <= k < e && nodes@[k] == u)))),
        decreases nodes.len() - e,
    {
        let r: usize = nodes[e];
        assert(out@.contains(nodes@[e as int] as int));
        let ghost prior = member_sets(adjacency@);
        if r != d {
            let mut row = adjacency[r].clone();
            row.insert(d);
            adjacency.set(r, row);
        }
        assert forall|u: int, v: int| 0 <= u < n implies (#[trigger] adjacency@[u]@.contains(v)
            <==> start[u].contains(v) || (u != v && ((u == d && out@.contains(v)) || (v == d
            && exists|k: int| 0 <= k < e + 1 && nodes@[k] == u)))) by {
            assert(prior[u].contains(v) <==> start[u].contains(v) || (u != v && ((u == d
                && out@.contains(v)) || (v == d && exists|k: int| 0 <= k < e && nodes@[k] == u))));
            if exists|k: int| 0 <= k < e && nodes@[k] == u {
                let k = choose|k: int| 0 <= k < e && nodes@[k] == u;
                assert(0 <= k < e + 1 && nodes@[k] == u);
            }
            if u == r {
                assert(nodes@[e as int] == u);
            }
            if exists|k: int| 0 <= k < e + 1 && nodes@[k] == u {
                let k = choose|k: int| 0 <= k < e + 1 && nodes@[k] == u;
                if k < e {
                    assert(nodes@[k] == u);
                }
            }
        }
        e = e + 1;
    }
    assert forall|u: int, v: int| 0 <= u < n implies (#[trigger] adjacency@[u]@.contains(v)
        <==> start[u].contains(v) || (u != v && ((u == d && out@.contains(v)) || (v == d
        && out@.contains(u))))) by {
        if out@.contains(u) {
            let k = choose|k: int| 0 <= k < nodes@.len() && nodes@[k] == u;
            assert(nodes@[k] == u);
        }
        if exists|k: int| 0 <= k < e && nodes@[k] == u {
            let k = choose|k: int| 0 <= k < e && nodes@[k] == u;
            assert(out@.contains(nodes@[k] as int));
        }
    }
}

proof fn lemma_live_in_stream(
    insts: Seq<InstModel>,
    ins: Seq<Set<int>>,
    outs: Seq<Set<int>>,
)
    requires
        insts.len() < usize::MAX,
        ins.len() == insts.len(),
        outs.len() == insts.len(),
        rows_in_range(stream_succ(insts), insts.len()),
        solves(stream_succ(insts), gens(insts), kills(insts), ins, outs),
        least(stream_succ(insts), gens(insts), kills(insts), ins),
    ensures
        forall|i: int, v: int|
            0 <= i < insts.len() ==> (#[trigger] outs[i].contains(v) <==> live_after(insts, i, v)),
        forall|i: int| 0 <= i < insts.len() ==> (#[trigger] outs[i]).subset_of(vregs(insts)),
{
    let succ = stream_succ(insts);
    let g = gens(insts);
    let k = kills(insts);
    let all = Seq::new(insts.len(), |i: int| vregs(insts));
    assert(closed_under_flow(succ, g, k, all)) by {
        assert forall|i: int| 0 <= i < succ.len() implies flow_in(succ, g, k, all, i).subset_of(
            #[trigger] all[i],
        ) by {
            assert forall|v: int| flow_in(succ, g, k, all, i).contains(v) implies all[i].contains(
                v,
            ) by {
                if g[i].contains(v) {
                    assert(gen_of(insts[i]).contains(v));
                } else {
                    let e = choose|e: int| 0 <= e < succ[i].len() && (
                    #[trigger] all[succ[i][e] as int]).contains(v);
                    assert(succ[i][e] < succ.len());
                }
            }
        }
    }
    assert forall|i: int, v: int| 0 <= i < insts.len() implies (#[trigger] outs[i].contains(v)
        <==> live_after(insts, i, v)) by {
        assert(outs[i] == union_of(succ[i], ins));
        if outs[i].contains(v) {
            let e = choose|e: int| 0 <= e < succ[i].len() && (
            #[trigger] ins[succ[i][e] as int]).contains(v);
            assert(succ[i][e] < succ.len());
            lemma_live_iff_reaches_use(succ, g, k, ins, outs, succ[i][e] as int, v);
            assert(reads_ahead(insts, stream_succ(insts)[i][e] as int, v));
        }
        if live_after(insts, i, v) {
            let e = choose|e: int|
                0 <= e < stream_succ(insts)[i].len() && reads_ahead(
                    insts,
                    #[trigger] stream_succ(insts)[i][e] as int,
                    v,
                );
            assert(succ[i][e] < succ.len());
            lemma_live_iff_reaches_use(succ, g, k, ins, outs, succ[i][e] as int, v);
            assert(ins[succ[i][e] as int].contains(v));
        }
    }
    assert forall|i: int| 0 <= i < insts.len() implies (#[trigger] outs[i]).subset_of(
        vregs(insts),
    ) by {
        assert(outs[i] == union_of(succ[i], ins));
        assert forall|v: int| outs[i].contains(v) implies vregs(insts).contains(v) by {
            let e = choose|e: int| 0 <= e < succ[i].len() && (
            #[trigger] ins[succ[i][e] as int]).contains(v);
            assert(succ[i][e] < succ.len());
            assert(ins[succ[i][e] as int].subset_of(all[succ[i][e] as int]));
        }
    }
}

/// Allocates the registers of one function.
pub struct RegisterAllocator<'a> {
    pub insts: &'a [Instruction],
    pub frame: &'a mut FrameLayout,
}

impl<'a> RegisterAllocator<'a> {
    /// An allocator for the given stream, with spill slots in the given frame.
    pub fn new(insts: &'a [Instruction], frame: &'a mut FrameLayout) -> (a: Self)
        ensures
            a.insts@ == insts@,
            *a.frame == *old(frame),
            *final(a.frame) == *final(frame),
    {
        RegisterAllocator { insts, frame }
    }

    /// Allocates the registers, reserves the spill slots, and returns the
    /// stream without virtual registers.
    pub fn run(self) -> (r: Result<Vec<Instruction>, Error>)
        requires
            allocatable(inst_models(self.insts@)),
            self.frame.wf(),
            self.frame.bytes() + 16 * (vregs(inst_models(self.insts@)).len() + 1) <= i64::MAX,
        ensures
            exists|alloc: Map<usize, Location>| #[trigger]
                is_allocation(
                    inst_models(self.insts@),
                    old(self.frame).bytes(),
                    alloc,
                    final(self.frame).bytes(),
                )
                    && rewritten_all(alloc, inst_models(self.insts@)) == match r {
                    Ok(v) => Ok::<Seq<InstModel>, ErrorModel>(inst_models(v@)),
                    Err(e) => Err::<Seq<InstModel>, ErrorModel>(e@),
                },
            final(self.frame).allocas() == old(self.frame).allocas(),
            final(self.frame).wf(),
            final(self.frame).bytes() + 16 <= i64::MAX,
    {
        let alloc = allocate(self.insts, self.frame);
        InstRewriter::new(&alloc).rewrite(self.insts)
    }
}

/// Whether an instruction works on integers.
fn is_integral(inst: &Instruction) -> (b: bool)
    ensures
        b == integral(inst@),
{
    match inst {
        Instruction::FBinOp { .. } => false,
        Instruction::FCmp { .. } => false,
        Instruction::Scvtf { .. } => false,
        Instruction::Fcvtzs { .. } => false,
        Instruction::Fmov { .. } => false,
        _ => true,
    }
}

/// The instruction reads or writes the virtual register `x`.
spec fn names_vreg(inst: InstModel, x: int) -> bool {
    gen_of(inst).contains(x) || kill_of(inst).contains(x)
}

/// Whether the virtual registers of an instruction have numbers below the
/// greatest there is.
fn numbers_are_small(inst: &Instruction) -> (b: bool)
    ensures
        b == forall|x: int| #[trigger] names_vreg(inst@, x) ==> x < usize::MAX,
{
    let top: usize = usize::MAX;
    if let Some((v, _)) = inst.defined_vreg_with_size() {
        if v == top {
            assert(names_vreg(inst@, top as int));
            return false;
        }
    }
    let used = inst.used_vregs();
    let mut e: usize = 0;
    while e < used.len()
        invariant
            e <= used.len(),
            top == usize::MAX,
            used@.to_set() == inst@.uses(),
            forall|k: int| 0 <= k < e ==> #[trigger] used@[k] < top,
        decreases used.len() - e,
    {
        if used[e] == top {
            assert(used@.to_set().contains(used@[e as int]));
            assert(names_vreg(inst@, top as int));
            return false;
        }
        e = e + 1;
    }
    assert forall|x: int| #[trigger] names_vreg(inst@, x) implies x < usize::MAX by {
        if gen_of(inst@).contains(x) {
            assert(used@.to_set().contains(x as usize));
            let k = choose|k: int| 0 <= k < used@.len() && used@[k] == x as usize;
            assert(used@[k] < top);
        }
    }
    true
}

/// Whether a stream can be counted and has no operations on floating-point
/// numbers.
fn is_countable(insts: &[Instruction]) -> (b: bool)
    ensures
        b == (countable(inst_models(insts@)) && forall|i: int|
            0 <= i < insts.len() ==> integral(#[trigger] inst_models(insts@)[i])),
{
    let ghost ms = inst_models(insts@);
    if insts.len() == usize::MAX {
        return false;
    }
    let mut i: usize = 0;
    while i < insts.len()
        invariant
            i <= insts.len(),
            ms == inst_models(insts@),
            insts.len() < usize::MAX,
            forall|k: int| 0 <= k < i ==> integral(#[trigger] ms[k]),
            forall|k: int, x: int| 0 <= k < i && #[trigger] names_vreg(ms[k], x) ==> x < usize::MAX,
        decreases insts.len() - i,
    {
        assert(ms[i as int] == insts@[i as int]@);
        if !is_integral(&insts[i]) {
            return false;
        }
        if !numbers_are_small(&insts[i]) {
            proof {
                let x = choose|x: int| #[trigger] names_vreg(ms[i as int], x) && x >= usize::MAX;
                assert(vregs(ms).contains(x));
            }
            return false;
        }
        i = i + 1;
    }
    assert forall|x: int| #[trigger] vregs(ms).contains(x) implies x < usize::MAX by {
        let k = choose|k: int|
            0 <= k < ms.len() && (gen_of(#[trigger] ms[k]).contains(x) || kill_of(
                ms[k],
            ).contains(x));
        assert(names_vreg(ms[k], x));
    }
    true
}

/// A register with a width is written by some instruction.
proof fn lemma_widths_written(insts: Seq<InstModel>, v: usize)
    requires
        widths(insts).contains_key(v),
    ensures
        exists|i: int|
            0 <= i < insts.len() && ((#[trigger] insts[i]).def() matches Some((w, _)) && w == v),
    decreases insts.len(),
{
    if insts.len() > 0 {
        let front = insts.drop_last();
        let n = insts.len() - 1;
        if insts[n].def() matches Some((w, _)) && w == v {
        } else {
            lemma_widths_written(front, v);
            let i = choose|i: int|
                0 <= i < front.len() && ((#[trigger] front[i]).def() matches Some((w, _)) && w
                    == v);
            assert(insts[i] == front[i]);
        }
    }
}

proof fn lemma_written_has_width(insts: Seq<InstModel>, i: int)
    requires
        0 <= i < insts.len(),
    ensures
        insts[i].def() matches Some((v, _)) ==> widths(insts).contains_key(v),
    decreases insts.len(),
{
    if i < insts.len() - 1 {
        lemma_written_has_width(insts.drop_last(), i);
    }
}

/// Whether no virtual register holds a floating-point number.
fn holds_no_floats(insts: &[Instruction], sizes: &HashMap<usize, RegisterSize>) -> (b: bool)
    requires
        sizes@ == widths(inst_models(insts@)),
    ensures
        b == forall|v: usize| #[trigger] sizes@.contains_key(v) ==> !(sizes@[v] is S32),
{
    let ghost ms = inst_models(insts@);
    let mut i: usize = 0;
    while i < insts.len()
        invariant
            i <= insts.len(),
            ms == inst_models(insts@),
            sizes@ == widths(ms),
            forall|k: int|
                0 <= k < i ==> ((#[trigger] ms[k]).def() matches Some((v, _)) ==> !(
                sizes@[v] is S32)),
        decreases insts.len() - i,
    {
        assert(ms[i as int] == insts@[i as int]@);
        if let Some((v, _)) = insts[i].defined_vreg_with_size() {
            proof {
                lemma_written_has_width(ms, i as int);
            }
            if let Some(size) = sizes.get(&v) {
                if *size == RegisterSize::S32 {
                    return false;
                }
            }
        }
        i = i + 1;
    }
    assert forall|v: usize| #[trigger] sizes@.contains_key(v) implies !(sizes@[v] is S32) by {
        lemma_widths_written(ms, v);
    }
    true
}

/// Whether the registers of a stream can be allocated, with room in the frame
/// for a slot of each.
pub fn can_allocate(insts: &[Instruction], frame: &FrameLayout) -> (b: bool)
    ensures
        b == (allocatable(inst_models(insts@)) && frame.bytes() + 16 * (vregs(
            inst_models(insts@),
        ).len() + 1) <= i64::MAX),
{
    if !is_countable(insts) {
        return false;
    }
    let n: usize = count_vregs(insts);
    let facts = build_gen_kill(insts, n);
    if !holds_no_floats(insts, &facts.sizes) {
        return false;
    }
    let count: usize = facts.present.len();
    frame.size() as i128 + 16 * (count as i128 + 1) <= i64::MAX as i128
}

fn allocate(insts: &[Instruction], frame: &mut FrameLayout) -> (alloc: RegisterAllocation)
    requires
        allocatable(inst_models(insts@)),
        old(frame).wf(),
        old(frame).bytes() + 16 * (vregs(inst_models(insts@)).len() + 1) <= i64::MAX,
    ensures
        is_allocation(inst_models(insts@), old(frame).bytes(), alloc.locations@, final(frame).bytes()),
        final(frame).allocas() == old(frame).allocas(),
        final(frame).wf(),
        final(frame).bytes() + 16 <= i64::MAX,
{
    let ghost ms = inst_models(insts@);
    let n: usize = count_vregs(insts);
    let facts = build_gen_kill(insts, n);
    let cfg = Graph::from_nodes(insts);
    proof {
        cfg.lemma_wf();
        lemma_inst_positions(insts@, insts@.len());
        assert(cfg.succ() =~= stream_succ(ms));
        assert(sets(facts.gen@).len() == insts.len() && sets(facts.kill@).len() == insts.len());
    }
    let bottom = Bitset::new(n);
    let liveness = BackwardLiveness::compute(&facts.gen, &facts.kill, &cfg, bottom);
    proof {
        lemma_live_in_stream(ms, sets(liveness.live_in@), sets(liveness.live_out@));
        assert forall|i: int| 0 <= i < insts.len() implies (#[trigger] liveness.live_out@[i])@.subset_of(
            vregs(ms),
        ) by {
            assert(sets(liveness.live_out@)[i] == liveness.live_out@[i]@);
        }
    }
    let graph = InterferenceGraph::build(insts, &liveness.live_out, &facts.present, n);
    proof {
        lemma_edges_are_interference(ms, sets(liveness.live_out@), graph.adj(), n as nat);
    }
    let coloring = graph.color();
    let ghost bytes = frame.bytes();
    let ghost adj = graph.adj();
    let ghost spilled = coloring.spilled@;
    proof {
        let (order, spills) = choose|order: Seq<usize>, spills: Set<int>| #[trigger]
            is_removal_order(adj, graph.present@, order, spills) && is_greedy(
                adj,
                order,
                coloring.colors@,
            ) && spilled == spill_order(
                uncolored(graph.present@, coloring.colors@),
                spills,
                graph.adjacency@.len(),
            );
        let un = uncolored(graph.present@, coloring.colors@);
        let range = vstd::set_lib::set_int_range(0, n as int);
        vstd::set_lib::lemma_int_range(0, n as int);
        assert(vregs(ms).subset_of(range));
        vstd::set_lib::lemma_len_subset(vregs(ms), range);
        assert(un.subset_of(vregs(ms)));
        lemma_spill_count(un, spills, n as nat);
        vstd::set_lib::lemma_len_subset(un, vregs(ms));
        assert forall|v: usize| #[trigger] coloring.colors@.contains_key(v) implies graph.present@.contains(
            v as int,
        ) by {
            assert(before(order, order.len() as int).contains(v as int));
        }
        assert(bytes + 16 * (spilled.len() + 1) <= i64::MAX);
        assert forall|alloc: Map<usize, Location>, end: int|
            (alloc, end) == places(coloring.colors@, spilled, widths(ms), bytes) implies is_allocation(ms, bytes, alloc, end) by {
            assert(allocates(
                ms,
                n as nat,
                order,
                spills,
                coloring.colors@,
                bytes,
                alloc,
                end,
            ));
        }
    }
    place_all(&facts.present, coloring, &facts.sizes, frame)
}

/// The places of the coloured registers, and slots for the others.
fn place_all(
    present: &Bitset,
    coloring: Coloring,
    sizes: &HashMap<usize, RegisterSize>,
    frame: &mut FrameLayout,
) -> (alloc: RegisterAllocation)
    requires
        present.wf(),
        old(frame).wf(),
        old(frame).bytes() + 16 * (coloring.spilled@.len() + 1) <= i64::MAX,
        forall|v: usize| #[trigger]
            coloring.colors@.contains_key(v) ==> present@.contains(v as int),
    ensures
        (alloc.locations@, final(frame).bytes()) == places(
            coloring.colors@,
            coloring.spilled@,
            sizes@,
            old(frame).bytes(),
        ),
        final(frame).allocas() == old(frame).allocas(),
        final(frame).wf(),
        final(frame).bytes() + 16 <= i64::MAX,
{
    let ghost colors = coloring.colors@;
    let ghost spilled = coloring.spilled@;
    let ghost bytes = frame.bytes();
    proof {
        frame.lemma_wf();
    }
    let mut alloc = RegisterAllocation::empty();
    let nodes = members(present);
    let mut i: usize = 0;
    while i < nodes.len()
        invariant
            i <= nodes.len(),
            lists(nodes@, present@),
            colors == coloring.colors@,
            forall|v: usize| #[trigger]
                alloc.locations@.contains_key(v) <==> colors.contains_key(v) && exists|k: int|
                    0 <= k < i && nodes@[k] == v,
            forall|v: usize| #[trigger]
                alloc.locations@.contains_key(v) ==> alloc.locations@[v] == Location::Register(
                    colors[v],
                ),
        decreases nodes.len() - i,
    {
        let ghost prior = alloc.locations@;
        if let Some(c) = coloring.colors.get(&nodes[i]) {
            alloc.locations.insert(nodes[i], Location::Register(*c));
        }
        assert forall|v: usize| #[trigger] alloc.locations@.contains_key(v) <==> colors.contains_key(
            v,
        ) && exists|k: int| 0 <= k < i + 1 && nodes@[k] == v by {
            if prior.contains_key(v) {
                let k = choose|k: int| 0 <= k < i && nodes@[k] == v;
                assert(0 <= k < i + 1 && nodes@[k] == v);
            }
            if v == nodes@[i as int] {
                assert(0 <= i < i + 1 && nodes@[i as int] == v);
            }
            if colors.contains_key(v) && exists|k: int| 0 <= k < i + 1 && nodes@[k] == v {
                let k = choose|k: int| 0 <= k < i + 1 && nodes@[k] == v;
                if k < i {
                    assert(prior.contains_key(v));
                }
            }
        }
        i = i + 1;
    }
    assert(alloc.locations@ =~= colored_places(colors)) by {
        assert forall|v: usize| alloc.locations@.contains_key(v) == colored_places(
            colors,
        ).contains_key(v) by {
            if colors.contains_key(v) {
                let k = choose|k: int| 0 <= k < nodes@.len() && nodes@[k] == v as int;
                assert(nodes@[k] == v);
            }
        }
    }
    let mut j: usize = 0;
    assert(spilled.take(0) =~= Seq::empty());
    while j < coloring.spilled.len()
        invariant
            j <= spilled.len(),
            colors == coloring.colors@,
            spilled == coloring.spilled@,
            0 <= bytes,
            bytes + 16 * (spilled.len() + 1) <= i64::MAX,
            frame.wf(),
            bytes <= frame.bytes() <= bytes + 16 * j,
            frame.allocas() == old(frame).allocas(),
            (alloc.locations@, frame.bytes()) == places(
                colors,
                spilled.take(j as int),
                sizes@,
                bytes,
            ),
        decreases spilled.len() - j,
    {
        assert(spilled.take(j + 1).drop_last() =~= spilled.take(j as int));
        assert(spilled.take(j + 1).last() == spilled[j as int]);
        let v: usize = coloring.spilled[j];
        let size = match sizes.get(&v) {
            Some(size) => *size,
            None => RegisterSize::X64,
        };
        proof {
            lemma_aligned_is_least(frame.bytes(), spill_bytes(size));
        }
        let slot = frame.alloc_spill(size);
        alloc.locations.insert(v, Location::Spill(slot));
        j = j + 1;
    }
    assert(spilled.take(j as int) =~= spilled);
    alloc
}

/// At most as many registers are spilled as there are without a colour.
proof fn lemma_spill_count(s: Set<int>, first: Set<int>, n: nat)
    requires
        s.finite(),
    ensures
        spill_order(s, first, n).len() <= s.len(),
{
    let below = Set::new(|x: int| s.contains(x) && x < n);
    lemma_spills_below(s, first, n);
    assert(below.subset_of(s));
    vstd::set_lib::lemma_len_subset(below, s);
}

proof fn lemma_spills_below(s: Set<int>, first: Set<int>, n: nat)
    requires
        s.finite(),
    ensures
        spill_order(s, first, n).len() <= Set::new(|x: int| s.contains(x) && x < n).len(),
    decreases n,
{
    let below = Set::new(|x: int| s.contains(x) && x < n);
    assert(below.subset_of(s));
    vstd::set_lib::lemma_set_subset_finite(s, below);
    if n > 0 {
        let m = (n - 1) as nat;
        lemma_spills_below(s, first, m);
        let fewer = Set::new(|x: int| s.contains(x) && x < m);
        if s.contains(m as int) {
            assert(fewer =~= below.remove(m as int));
        } else {
            assert(fewer =~= below);
        }
    }
}

proof fn lemma_edges_are_interference(
    insts: Seq<InstModel>,
    outs: Seq<Set<int>>,
    adj: Seq<Set<int>>,
    n: nat,
)
    requires
        outs.len() == insts.len(),
        adj.len() == n,
        forall|i: int, v: int|
            0 <= i < insts.len() ==> (#[trigger] outs[i].contains(v) <==> live_after(insts, i, v)),
        forall|u: int, v: int|
            0 <= u < n ==> (#[trigger] adj[u].contains(v) <==> edge(
                insts,
                outs,
                insts.len() as int,
                u,
                v,
            )),
    ensures
        adj == interference(insts, n),
{
    assert forall|u: int| 0 <= u < n implies #[trigger] adj[u] == interference(insts, n)[u] by {
        assert forall|v: int| adj[u].contains(v) == interference(insts, n)[u].contains(v) by {
            assert(adj[u].contains(v) <==> edge(insts, outs, insts.len() as int, u, v));
            assert(interference(insts, n)[u].contains(v) <==> interferes(insts, u, v));
            if edge(insts, outs, insts.len() as int, u, v) {
                let i = lemma_edge_witness(insts, outs, insts.len() as int, u, v);
                assert(meets(insts, outs, i, u, v) ==> clashes_at(insts, i, u, v)) by {
                    assert(outs[i].contains(v) ==> live_after(insts, i, v));
                }
                assert(meets(insts, outs, i, v, u) ==> clashes_at(insts, i, v, u)) by {
                    assert(outs[i].contains(u) ==> live_after(insts, i, u));
                }
                assert(clashes_at(insts, i, u, v) || clashes_at(insts, i, v, u));
                if !clashes_at(insts, i, u, v) {
                    assert(clashes_at(insts, i, v, u));
                }
                assert(interferes(insts, u, v));
            }
            if interferes(insts, u, v) {
                let i = lemma_clash_witness(insts, u, v);
                assert(outs[i].contains(v) <==> live_after(insts, i, v));
                assert(outs[i].contains(u) <==> live_after(insts, i, u));
                assert(meets(insts, outs, i, u, v) || meets(insts, outs, i, v, u));
                if !meets(insts, outs, i, u, v) {
                    assert(meets(insts, outs, i, v, u));
                }
                assert(edge(insts, outs, insts.len() as int, u, v));
            }
        }
        assert(adj[u] =~= interference(insts, n)[u]);
    }
    assert(adj =~= interference(insts, n));
}

/// Rewrites instructions with the places of an allocation.
struct InstRewriter<'a> {
    alloc: &'a RegisterAllocation,
    output: Vec<Instruction>,
}

impl<'a> InstRewriter<'a> {
    spec fn model(&self) -> Map<usize, Location> {
        self.alloc.locations@
    }

    spec fn out(&self) -> Seq<InstModel> {
        inst_models(self.output@)
    }

    fn new(alloc: &'a RegisterAllocation) -> (w: Self)
        ensures
            w.model() == alloc.locations@,
            w.out() == Seq::<InstModel>::empty(),
    {
        let w = InstRewriter { alloc, output: Vec::new() };
        assert(w.out() =~= Seq::empty());
        w
    }

    /// Rewrites the whole stream.
    fn rewrite(self, insts: &[Instruction]) -> (r: Result<Vec<Instruction>, Error>)
        requires
            self.out() == Seq::<InstModel>::empty(),
            forall|i: int|
                0 <= i < insts.len() ==> integral(#[trigger] inst_models(insts@)[i]),
        ensures
            rewritten_all(self.model(), inst_models(insts@)) == match r {
                Ok(v) => Ok::<Seq<InstModel>, ErrorModel>(inst_models(v@)),
                Err(e) => Err::<Seq<InstModel>, ErrorModel>(e@),
            },
    {
        let mut w = self;
        let ghost alloc = self.model();
        let ghost models = inst_models(insts@);
        let mut i: usize = 0;
        assert(models.take(0) =~= Seq::empty());
        while i < insts.len()
            invariant
                i <= insts.len(),
                models == inst_models(insts@),
                alloc == self.model(),
                w.model() == alloc,
                forall|k: int| 0 <= k < insts.len() ==> integral(#[trigger] models[k]),
                rewritten_all(alloc, models.take(i as int)) == Ok::<Seq<InstModel>, ErrorModel>(
                    w.out(),
                ),
            decreases insts.len() - i,
        {
            assert(models.take(i + 1).drop_last() =~= models.take(i as int));
            assert(models.take(i + 1).last() == insts@[i as int]@);
            match w.rewrite_inst(&insts[i]) {
                Ok(_) => {},
                Err(e) => {
                    proof {
                        lemma_rewritten_all_stops(alloc, models, i + 1);
                    }
                    return Err(e);
                },
            }
            i = i + 1;
        }
        assert(models.take(i as int) =~= models);
        Ok(w.output)
    }

    fn push(&mut self, inst: Instruction)
        ensures
            final(self).model() == old(self).model(),
            final(self).out() == old(self).out().push(inst@),
    {
        let ghost before_out = self.out();
        self.output.push(inst);
        assert(self.out() =~= before_out.push(inst@));
    }

    fn map_reg(&self, r: Register) -> (m: Result<MappedReg, Error>)
        ensures
            plain(m) == mapped(self.model(), r),
    {
        match r {
            Register::Virtual(v) => match self.alloc.location(v) {
                Some(Location::Register(p)) => Ok(MappedReg::InReg(Register::Physical(p))),
                Some(Location::Spill(slot)) => Ok(MappedReg::Spilled(slot)),
                None => {
                    let mut what = owned("vreg ");
                    what.append(usize_to_text(v).as_str());
                    what.append(" has no register allocation");
                    Err(Error::Internal(what))
                },
            },
            _ => Ok(MappedReg::InReg(r)),
        }
    }

    fn emit_spill_load(&mut self, slot: StackSlot, size: RegisterSize, into: u8)
        ensures
            final(self).model() == old(self).model(),
            final(self).out() == old(self).out().push(spill_load(slot, size, into)),
    {
        self.push(
            Instruction::Ldr {
                size,
                dst: Register::Physical(into),
                addr: FrameLayout::local_addr(slot),
            },
        );
    }

    fn emit_spill_store(&mut self, slot: StackSlot, size: RegisterSize, from: u8)
        ensures
            final(self).model() == old(self).model(),
            final(self).out() == old(self).out().push(spill_store(slot, size, from)),
    {
        self.push(
            Instruction::Str {
                size,
                src: Register::Physical(from),
                addr: FrameLayout::local_addr(slot),
            },
        );
    }

    fn load_src_reg(&mut self, r: Register, size: RegisterSize, scratch: u8) -> (reg: Result<
        Register,
        Error,
    >)
        ensures
            final(self).model() == old(self).model(),
            match reg {
                Ok(x) => source(old(self).model(), r, size, scratch) matches Ok((y, load)) && x == y
                    && final(self).out() == old(self).out() + load,
                Err(e) => source(old(self).model(), r, size, scratch) == Err::<
                    (Register, Seq<InstModel>),
                    ErrorModel,
                >(e@) && final(self).out() == old(self).out(),
            },
    {
        let ghost start = self.out();
        match self.map_reg(r) {
            Err(e) => Err(e),
            Ok(MappedReg::InReg(reg)) => {
                assert(start + Seq::<InstModel>::empty() =~= start);
                Ok(reg)
            },
            Ok(MappedReg::Spilled(slot)) => {
                self.emit_spill_load(slot, size, scratch);
                assert(self.out() =~= start + seq![spill_load(slot, size, scratch)]);
                Ok(Register::Physical(scratch))
            },
        }
    }

    fn load_src_operand(&mut self, op: InstOperand, size: RegisterSize, scratch: u8) -> (r: Result<
        InstOperand,
        Error,
    >)
        ensures
            final(self).model() == old(self).model(),
            match r {
                Ok(x) => source_operand(old(self).model(), op, size, scratch) matches Ok((y, load))
                    && x == y && final(self).out() == old(self).out() + load,
                Err(e) => source_operand(old(self).model(), op, size, scratch) == Err::<
                    (InstOperand, Seq<InstModel>),
                    ErrorModel,
                >(e@) && final(self).out() == old(self).out(),
            },
    {
        match op {
            InstOperand::Immediate(i) => {
                assert(self.out() + Seq::<InstModel>::empty() =~= self.out());
                Ok(InstOperand::Immediate(i))
            },
            InstOperand::Register(r) => match self.load_src_reg(r, size, scratch) {
                Ok(reg) => Ok(InstOperand::Register(reg)),
                Err(e) => Err(e),
            },
        }
    }

    /// The register that a result goes to, and the slot it is stored in.
    fn target(&self, dst: Register, scratch: u8) -> (r: Result<(Register, Option<StackSlot>), Error>)
        ensures
            match r {
                Ok((reg, None)) => mapped(self.model(), dst) == Ok::<MappedReg, ErrorModel>(
                    MappedReg::InReg(reg),
                ),
                Ok((reg, Some(slot))) => mapped(self.model(), dst) == Ok::<MappedReg, ErrorModel>(
                    MappedReg::Spilled(slot),
                ) && reg == Register::Physical(scratch),
                Err(e) => mapped(self.model(), dst) == Err::<MappedReg, ErrorModel>(e@),
            },
    {
        match self.map_reg(dst) {
            Ok(MappedReg::InReg(reg)) => Ok((reg, None)),
            Ok(MappedReg::Spilled(slot)) => Ok((Register::Physical(scratch), Some(slot))),
            Err(e) => Err(e),
        }
    }

    /// Puts out an instruction and the store of its result.
    fn write_to_dst(
        &mut self,
        dst: Register,
        spill_to: Option<StackSlot>,
        size: RegisterSize,
        scratch: u8,
        inst: Instruction,
    )
        requires
            match spill_to {
                None => mapped(old(self).model(), dst) matches Ok(MappedReg::InReg(_)),
                Some(slot) => mapped(old(self).model(), dst) == Ok::<MappedReg, ErrorModel>(
                    MappedReg::Spilled(slot),
                ),
            },
        ensures
            final(self).model() == old(self).model(),
            sink(old(self).model(), dst, size, scratch) matches Ok((_, store))
                && final(self).out() == old(self).out().push(inst@) + store,
    {
        let ghost start = self.out();
        let ghost m = inst@;
        self.push(inst);
        match spill_to {
            None => {
                assert(start.push(m) + Seq::<InstModel>::empty() =~= start.push(m));
            },
            Some(slot) => {
                self.emit_spill_store(slot, size, scratch);
                assert(self.out() =~= start.push(m) + seq![spill_store(slot, size, scratch)]);
            },
        }
    }

    fn rewrite_inst(&mut self, inst: &Instruction) -> (r: Result<(), Error>)
        requires
            integral(inst@),
        ensures
            final(self).model() == old(self).model(),
            match r {
                Ok(_) => rewritten(old(self).model(), inst@) matches Ok(out) && final(self).out()
                    == old(self).out() + out,
                Err(e) => rewritten(old(self).model(), inst@) == Err::<
                    Seq<InstModel>,
                    ErrorModel,
                >(e@) && final(self).out() == old(self).out() + rewritten_left(
                    old(self).model(),
                    inst@,
                ),
            },
    {
        proof {
            lemma_appended(self.out());
        }
        match inst {
            Instruction::Mov { size, dst, src } => self.rewrite_mov(*size, *dst, *src),
            Instruction::BinOp { op, size, dst, lhs, rhs } => self.rewrite_binop(
                *op,
                *size,
                *dst,
                *lhs,
                *rhs,
            ),
            Instruction::Cmp { size, lhs, rhs } => self.rewrite_cmp(*size, *lhs, *rhs),
            Instruction::Ldr { size, dst, addr } => self.rewrite_ldr(*size, *dst, addr),
            Instruction::Str { size, src, addr } => self.rewrite_str(*size, *src, addr),
            Instruction::Lea { dst, addr } => self.rewrite_lea(*dst, addr),
            Instruction::Gep { dst, base, index, scale } => self.rewrite_gep(
                *dst,
                *base,
                *index,
                *scale,
            ),
            _ => {
                let ghost start = self.out();
                self.push(inst.clone());
                assert(self.out() =~= start + seq![inst@]);
                Ok(())
            },
        }
    }

    fn rewrite_mov(&mut self, size: RegisterSize, dst: Register, src: InstOperand) -> (r: Result<
        (),
        Error,
    >)
        ensures
            final(self).model() == old(self).model(),
            match r {
                Ok(_) => rewritten_mov(old(self).model(), size, dst, src) matches Ok(out)
                    && final(self).out() == old(self).out() + out,
                Err(e) => rewritten_mov(old(self).model(), size, dst, src) == Err::<
                    Seq<InstModel>,
                    ErrorModel,
                >(e@) && final(self).out() == old(self).out() + loads(
                    source_operand(old(self).model(), src, size, SCRATCH1),
                ),
            },
    {
        proof {
            lemma_appended(self.out());
        }
        let ghost start = self.out();
        let op = self.load_src_operand(src, size, SCRATCH1)?;
        match self.map_reg(dst)? {
            MappedReg::InReg(reg) => {
                self.push(Instruction::Mov { size, dst: reg, src: op });
            },
            MappedReg::Spilled(slot) => {
                let from: u8 = self.operand_to_phys_reg(op, size, SCRATCH0)?;
                self.emit_spill_store(slot, size, from);
            },
        }
        proof {
            let out = rewritten_mov(old(self).model(), size, dst, src)->Ok_0;
            assert(self.out() =~= start + out);
        }
        Ok(())
    }

    fn operand_to_phys_reg(&mut self, op: InstOperand, size: RegisterSize, scratch: u8) -> (r:
        Result<u8, Error>)
        ensures
            final(self).model() == old(self).model(),
            match op {
                InstOperand::Immediate(_) => r matches Ok(n) && n == scratch && final(self).out()
                    == old(self).out().push(
                    InstModel::Mov { size, dst: Register::Physical(scratch), src: op },
                ),
                InstOperand::Register(Register::Physical(p)) => r matches Ok(n) && n == p
                    && final(self).out() == old(self).out(),
                InstOperand::Register(Register::StackPointer) => r matches Err(e) && e@
                    == ErrorModel::Internal("cannot use SP as source"@) && final(self).out()
                    == old(self).out(),
                InstOperand::Register(Register::Virtual(_)) => r matches Err(e) && e@
                    == ErrorModel::Internal("unexpected vreg in operand"@) && final(self).out()
                    == old(self).out(),
            },
    {
        match op {
            InstOperand::Immediate(_) => {
                self.push(Instruction::Mov { size, dst: Register::Physical(scratch), src: op });
                Ok(scratch)
            },
            InstOperand::Register(Register::Physical(n)) => Ok(n),
            InstOperand::Register(Register::StackPointer) => Err(
                Error::Internal(owned("cannot use SP as source")),
            ),
            InstOperand::Register(Register::Virtual(_)) => Err(
                Error::Internal(owned("unexpected vreg in operand")),
            ),
        }
    }

    fn rewrite_binop(
        &mut self,
        op: InstBinOp,
        size: RegisterSize,
        dst: Register,
        lhs: Register,
        rhs: InstOperand,
    ) -> (r: Result<(), Error>)
        ensures
            final(self).model() == old(self).model(),
            match r {
                Ok(_) => rewritten_binop(old(self).model(), op, size, dst, lhs, rhs) matches Ok(out)
                    && final(self).out() == old(self).out() + out,
                Err(e) => rewritten_binop(old(self).model(), op, size, dst, lhs, rhs) == Err::<
                    Seq<InstModel>,
                    ErrorModel,
                >(e@) && final(self).out() == old(self).out() + operands_left(
                    old(self).model(),
                    size,
                    lhs,
                    rhs,
                ),
            },
    {
        proof {
            lemma_appended(self.out());
        }
        let ghost start = self.out();
        let lhs_reg = self.load_src_reg(lhs, size, SCRATCH0)?;
        let rhs_op = self.load_src_operand(rhs, size, SCRATCH1)?;
        let (target, spill_to) = self.target(dst, SCRATCH0)?;
        self.write_to_dst(
            dst,
            spill_to,
            size,
            SCRATCH0,
            Instruction::BinOp { op, size, dst: target, lhs: lhs_reg, rhs: rhs_op },
        );
        proof {
            let out = rewritten_binop(old(self).model(), op, size, dst, lhs, rhs)->Ok_0;
            assert(self.out() =~= start + out);
        }
        Ok(())
    }

    fn rewrite_cmp(&mut self, size: RegisterSize, lhs: Register, rhs: InstOperand) -> (r: Result<
        (),
        Error,
    >)
        ensures
            final(self).model() == old(self).model(),
            match r {
                Ok(_) => rewritten_compare(old(self).model(), size, lhs, rhs) matches Ok(out)
                    && final(self).out() == old(self).out() + out,
                Err(e) => rewritten_compare(old(self).model(), size, lhs, rhs) == Err::<
                    Seq<InstModel>,
                    ErrorModel,
                >(e@) && final(self).out() == old(self).out() + operands_left(
                    old(self).model(),
                    size,
                    lhs,
                    rhs,
                ),
            },
    {
        proof {
            lemma_appended(self.out());
        }
        let ghost start = self.out();
        let lhs_reg = self.load_src_reg(lhs, size, SCRATCH0)?;
        let rhs_op = self.load_src_operand(rhs, size, SCRATCH1)?;
        self.push(Instruction::Cmp { size, lhs: lhs_reg, rhs: rhs_op });
        proof {
            let out = rewritten_compare(old(self).model(), size, lhs, rhs)->Ok_0;
            assert(self.out() =~= start + out);
        }
        Ok(())
    }

    fn rewrite_addr(&mut self, addr: &Addr, scratch: u8) -> (r: Result<(Addr, bool), Error>)
        ensures
            final(self).model() == old(self).model(),
            match r {
                Ok((a, used)) => source_addr(old(self).model(), addr@, scratch) matches Ok(
                    (b, u, load),
                ) && a@ == b && used == u && final(self).out() == old(self).out() + load,
                Err(e) => source_addr(old(self).model(), addr@, scratch) == Err::<
                    (AddrModel, bool, Seq<InstModel>),
                    ErrorModel,
                >(e@) && final(self).out() == old(self).out(),
            },
    {
        let ghost start = self.out();
        match addr {
            Addr::Global(sym) => {
                assert(start + Seq::<InstModel>::empty() =~= start);
                Ok((Addr::Global(sym.clone()), false))
            },
            Addr::BaseOff { base, offset } => match self.map_reg(*base) {
                Err(e) => Err(e),
                Ok(MappedReg::InReg(reg)) => {
                    assert(start + Seq::<InstModel>::empty() =~= start);
                    Ok((Addr::BaseOff { base: reg, offset: *offset }, false))
                },
                Ok(MappedReg::Spilled(slot)) => {
                    self.emit_spill_load(slot, RegisterSize::X64, scratch);
                    assert(self.out() =~= start + seq![
                        spill_load(slot, RegisterSize::X64, scratch),
                    ]);
                    Ok(
                        (
                            Addr::BaseOff { base: Register::Physical(scratch), offset: *offset },
                            true,
                        ),
                    )
                },
            },
        }
    }

    fn rewrite_ldr(&mut self, size: RegisterSize, dst: Register, addr: &Addr) -> (r: Result<
        (),
        Error,
    >)
        ensures
            final(self).model() == old(self).model(),
            match r {
                Ok(_) => rewritten_ldr(old(self).model(), size, dst, addr@) matches Ok(out)
                    && final(self).out() == old(self).out() + out,
                Err(e) => rewritten_ldr(old(self).model(), size, dst, addr@) == Err::<
                    Seq<InstModel>,
                    ErrorModel,
                >(e@) && final(self).out() == old(self).out() + addr_left(
                    old(self).model(),
                    addr@,
                ),
            },
    {
        proof {
            lemma_appended(self.out());
        }
        let ghost start = self.out();
        let (a, used) = self.rewrite_addr(addr, SCRATCH0)?;
        let scratch: u8 = scratch_after_base(used);
        let (target, spill_to) = self.target(dst, scratch)?;
        self.write_to_dst(
            dst,
            spill_to,
            size,
            scratch,
            Instruction::Ldr { size, dst: target, addr: a },
        );
        proof {
            let out = rewritten_ldr(old(self).model(), size, dst, addr@)->Ok_0;
            assert(self.out() =~= start + out);
        }
        Ok(())
    }

    fn rewrite_str(&mut self, size: RegisterSize, src: Register, addr: &Addr) -> (r: Result<
        (),
        Error,
    >)
        ensures
            final(self).model() == old(self).model(),
            match r {
                Ok(_) => rewritten_str(old(self).model(), size, src, addr@) matches Ok(out)
                    && final(self).out() == old(self).out() + out,
                Err(e) => rewritten_str(old(self).model(), size, src, addr@) == Err::<
                    Seq<InstModel>,
                    ErrorModel,
                >(e@) && final(self).out() == old(self).out() + addr_left(
                    old(self).model(),
                    addr@,
                ),
            },
    {
        proof {
            lemma_appended(self.out());
        }
        let ghost start = self.out();
        let (a, used) = self.rewrite_addr(addr, SCRATCH0)?;
        let src_reg = self.load_src_reg(src, size, scratch_after_base(used))?;
        self.push(Instruction::Str { size, src: src_reg, addr: a });
        proof {
            let out = rewritten_str(old(self).model(), size, src, addr@)->Ok_0;
            assert(self.out() =~= start + out);
        }
        Ok(())
    }

    fn rewrite_lea(&mut self, dst: Register, addr: &Addr) -> (r: Result<(), Error>)
        ensures
            final(self).model() == old(self).model(),
            match r {
                Ok(_) => rewritten_lea(old(self).model(), dst, addr@) matches Ok(out)
                    && final(self).out() == old(self).out() + out,
                Err(e) => rewritten_lea(old(self).model(), dst, addr@) == Err::<
                    Seq<InstModel>,
                    ErrorModel,
                >(e@) && final(self).out() == old(self).out() + addr_left(
                    old(self).model(),
                    addr@,
                ),
            },
    {
        proof {
            lemma_appended(self.out());
        }
        let ghost start = self.out();
        let (a, used) = self.rewrite_addr(addr, SCRATCH0)?;
        let scratch: u8 = scratch_after_base(used);
        let (target, spill_to) = self.target(dst, scratch)?;
        self.write_to_dst(
            dst,
            spill_to,
            RegisterSize::X64,
            scratch,
            Instruction::Lea { dst: target, addr: a },
        );
        proof {
            let out = rewritten_lea(old(self).model(), dst, addr@)->Ok_0;
            assert(self.out() =~= start + out);
        }
        Ok(())
    }

    fn rewrite_gep(&mut self, dst: Register, base: Register, index: InstOperand, scale: i64) -> (r:
        Result<(), Error>)
        ensures
            final(self).model() == old(self).model(),
            match r {
                Ok(_) => rewritten_gep(
                    old(self).model(),
                    dst,
                    base,
                    index,
                    scale as int,
                ) matches Ok(out) && final(self).out() == old(self).out() + out,
                Err(e) => rewritten_gep(old(self).model(), dst, base, index, scale as int) == Err::<
                    Seq<InstModel>,
                    ErrorModel,
                >(e@) && final(self).out() == old(self).out() + gep_left(
                    old(self).model(),
                    base,
                    index,
                ),
            },
    {
        proof {
            lemma_appended(self.out());
        }
        let ghost start = self.out();
        let base_reg = self.load_src_reg(base, RegisterSize::X64, SCRATCH0)?;
        let scratch: u8 = scratch_after_base(base_reg == Register::Physical(SCRATCH0));
        let index_op = self.load_src_operand(index, RegisterSize::W32, scratch)?;
        let (target, spill_to) = self.target(dst, scratch)?;
        self.write_to_dst(
            dst,
            spill_to,
            RegisterSize::X64,
            scratch,
            Instruction::Gep { dst: target, base: base_reg, index: index_op, scale },
        );
        proof {
            let out = rewritten_gep(old(self).model(), dst, base, index, scale as int)->Ok_0;
            assert(self.out() =~= start + out);
        }
        Ok(())
    }
}

proof fn lemma_appended(out: Seq<InstModel>)
    ensures
        out + Seq::<InstModel>::empty() == out,
        forall|a: Seq<InstModel>, b: Seq<InstModel>| #[trigger] (out + (a + b)) == (out + a) + b,
{
    assert(out + Seq::<InstModel>::empty() =~= out);
    assert forall|a: Seq<InstModel>, b: Seq<InstModel>| #[trigger] (out + (a + b)) == (out + a)
        + b by {
        assert(out + (a + b) =~= (out + a) + b);
    }
}

fn scratch_after_base(base_used_scratch: bool) -> (s: u8)
    ensures
        s == scratch_behind(base_used_scratch),
{
    if base_used_scratch {
        SCRATCH1
    } else {
        SCRATCH0
    }
}

proof fn lemma_rewritten_all_stops(
    alloc: Map<usize, Location>,
    insts: Seq<InstModel>,
    k: int,
)
    requires
        0 <= k <= insts.len(),
        rewritten_all(alloc, insts.take(k)) is Err,
    ensures
        rewritten_all(alloc, insts) == rewritten_all(alloc, insts.take(k)),
    decreases insts.len() - k,
{
    if k < insts.len() {
        assert(insts.take(k + 1).drop_last() =~= insts.take(k));
        lemma_rewritten_all_stops(alloc, insts, k + 1);
    } else {
        assert(insts.take(k) =~= insts);
    }
}

} // verus!
