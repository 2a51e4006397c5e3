//! Allocated code does what the code with virtual registers does.
//!
//! Two runs are compared: one in which each virtual register has a cell of its
//! own, and one in which each instruction is replaced by what register
//! allocation makes of it.

use super::coloring::{spill_order, uncolored, COLORS_END, FIRST_COLOR};
use super::execution::{goes, lemma_steps_are_edges, Cpu, World};
use super::frame::{frame_addr, spill_bytes};
use super::inst::{addr_use, operand_use, reg_use, InstModel};
use super::machine::{wide, wrapped};
use super::register_allocator::{
    allocates, clashes_at, gen_of, gens, integral, interferes, is_allocation, kill_of, kills,
    lemma_allocation_is_valid, live_after, mapped, places, reads_ahead, rewritten,
    scratch_behind, sink, source, source_addr, source_operand, spill_load, spill_store, stream_succ, vregs, widths,
    width_of, Location, MappedReg,
};
use super::types::{
    AddrModel, InstOperand, Register, RegisterSize, REG_FP, SCRATCH0, SCRATCH1,
};
use crate::backend::common::layout::lemma_aligned_is_least;
use crate::backend::common::stack::StackSlot;
use crate::common::graph::reaches_use;
use vstd::prelude::*;

verus! {

/// The frame pointer.
pub open spec fn frame_pointer() -> Register {
    Register::Physical(REG_FP)
}

/// The register is left to the program: values are not kept in it, and it is
/// no scratch register.
pub open spec fn plain(r: Register) -> bool {
    match r {
        Register::Virtual(_) => false,
        Register::Physical(n) => n < FIRST_COLOR || n > SCRATCH1,
        Register::StackPointer => true,
    }
}

/// The address of a slot.
pub open spec fn slot_address(fp: int, slot: StackSlot) -> int {
    (fp % wide() + slot.offset_from_fp) % wide()
}

/// The addresses of the slots of spilled registers.
pub open spec fn spill_cells(alloc: Map<usize, Location>, fp: int) -> Set<int> {
    Set::new(
        |a: int|
            exists|v: usize| #[trigger]
                alloc.contains_key(v) && (alloc[v] matches Location::Spill(s) && slot_address(fp, s)
                    == a),
    )
}

/// The value kept for a virtual register.
pub open spec fn kept(alloc: Map<usize, Location>, m: Cpu, v: usize) -> int {
    match alloc[v] {
        Location::Register(c) => m.regs[Register::Physical(c)],
        Location::Spill(slot) => m.cells[slot_address(m.regs[frame_pointer()], slot)],
    }
}

/// Every virtual register that is still read keeps its value in its place,
/// and all else that the program can see is the same.
pub open spec fn agree(
    insts: Seq<InstModel>,
    alloc: Map<usize, Location>,
    i: int,
    v: Cpu,
    m: Cpu,
) -> bool {
    &&& m.flags == v.flags
    &&& forall|r: Register| plain(r) ==> #[trigger] m.regs[r] == v.regs[r]
    &&& forall|a: int|
        !spill_cells(alloc, v.regs[frame_pointer()]).contains(a) ==> #[trigger] m.cells[a]
            == v.cells[a]
    &&& forall|x: usize| #[trigger]
        reads_ahead(insts, i, x as int) ==> kept(alloc, m, x) == v.regs[Register::Virtual(x)]
}

/// A register that the program may read.
pub open spec fn readable(r: Register) -> bool {
    r is Virtual || plain(r)
}

/// A register that the program may write: not the frame pointer either.
pub open spec fn writable(r: Register) -> bool {
    readable(r) && r != frame_pointer()
}

/// An operand that the program may read.
pub open spec fn readable_operand(op: InstOperand) -> bool {
    op matches InstOperand::Register(r) ==> readable(r)
}

/// An address that the program may use.
pub open spec fn readable_addr(a: AddrModel) -> bool {
    a matches AddrModel::BaseOff { base, .. } ==> readable(base)
}

/// The instruction keeps to the registers that are left to the program.
pub open spec fn tame(inst: InstModel) -> bool {
    match inst {
        InstModel::Mov { dst, src, .. } => writable(dst) && readable_operand(src),
        InstModel::BinOp { dst, lhs, rhs, .. } => writable(dst) && readable(lhs)
            && readable_operand(rhs),
        InstModel::Ldr { dst, addr, .. } => writable(dst) && readable_addr(addr),
        InstModel::Str { src, addr, .. } => readable(src) && readable_addr(addr),
        InstModel::Lea { dst, addr } => writable(dst) && readable_addr(addr),
        InstModel::Gep { dst, base, index, .. } => writable(dst) && readable(base)
            && readable_operand(index),
        InstModel::Cmp { lhs, rhs, .. } => readable(lhs) && readable_operand(rhs),
        _ => integral(inst),
    }
}

/// The instruction does not touch the slots of spilled registers.
pub open spec fn keeps_off(w: World, alloc: Map<usize, Location>, v: Cpu, inst: InstModel) -> bool {
    match inst {
        InstModel::Ldr { addr, .. } => !spill_cells(alloc, v.regs[frame_pointer()]).contains(
            v.address(w, addr),
        ),
        InstModel::Str { addr, .. } => !spill_cells(alloc, v.regs[frame_pointer()]).contains(
            v.address(w, addr),
        ),
        _ => true,
    }
}

/// Calls neither read nor write the given cells.
pub open spec fn calls_keep_off(w: World, cells: Set<int>) -> bool {
    forall|func: Seq<char>, args: Seq<int>, sp: int, a: Map<int, int>, b: Map<int, int>|
        (forall|x: int| !cells.contains(x) ==> a[x] == b[x]) ==> {
            let ra = #[trigger] (w.calls)(func, args, sp, a);
            let rb = #[trigger] (w.calls)(func, args, sp, b);
            &&& ra.regs == rb.regs
            &&& forall|x: int| !cells.contains(x) ==> ra.cells[x] == rb.cells[x]
            &&& forall|x: int| cells.contains(x) ==> ra.cells[x] == a[x] && rb.cells[x] == b[x]
        }
}

proof fn lemma_wrapped_twice(size: RegisterSize, n: int)
    ensures
        wrapped(size, wrapped(size, n)) == wrapped(size, n),
        0 <= wrapped(size, n) < wide(),
        wrapped(RegisterSize::X64, wrapped(size, n)) == wrapped(size, n),
{
}

proof fn lemma_none(w: World, m: Cpu)
    ensures
        m.after_all(w, Seq::empty()) == m,
{
}

proof fn lemma_push(w: World, m: Cpu, a: Seq<InstModel>, inst: InstModel)
    ensures
        m.after_all(w, a.push(inst)) == m.after_all(w, a).after(w, inst),
{
    assert(a.push(inst).drop_last() =~= a);
}

proof fn lemma_concat(w: World, m: Cpu, a: Seq<InstModel>, b: Seq<InstModel>)
    ensures
        m.after_all(w, a + b) == m.after_all(w, a).after_all(w, b),
    decreases b.len(),
{
    if b.len() == 0 {
        assert(a + b =~= a);
    } else {
        lemma_concat(w, m, a, b.drop_last());
        assert((a + b).drop_last() =~= a + b.drop_last());
    }
}

proof fn lemma_one(w: World, m: Cpu, inst: InstModel)
    ensures
        m.after_all(w, seq![inst]) == m.after(w, inst),
{
    assert(seq![inst] =~= Seq::<InstModel>::empty().push(inst));
    lemma_push(w, m, Seq::empty(), inst);
    lemma_none(w, m);
}

/// The places of spilled registers are apart, and behind what the frame held
/// before.
proof fn lemma_slots_apart(
    colors: Map<usize, u8>,
    spilled: Seq<usize>,
    widths: Map<usize, RegisterSize>,
    bytes: int,
)
    requires
        bytes >= 0,
    ensures
        places(colors, spilled, widths, bytes).1 >= bytes,
        places(colors, spilled, widths, bytes).1 <= i64::MAX ==> {
            let (alloc, end) = places(colors, spilled, widths, bytes);
            &&& forall|v: usize|
                #![trigger alloc[v]]
                alloc.contains_key(v) && alloc[v] is Spill ==> -end
                    <= alloc[v]->Spill_0.offset_from_fp < -bytes
            &&& forall|u: usize, v: usize|
                #![trigger alloc[u], alloc[v]]
                u != v && alloc.contains_key(u) && alloc.contains_key(v) && alloc[u] is Spill
                    && alloc[v] is Spill ==> alloc[u]->Spill_0.offset_from_fp
                    != alloc[v]->Spill_0.offset_from_fp
        },
    decreases spilled.len(),
{
    if spilled.len() > 0 {
        let front = spilled.drop_last();
        lemma_slots_apart(colors, front, widths, bytes);
        let (old_alloc, size) = places(colors, front, widths, bytes);
        let width = spill_bytes(width_of(widths, spilled.last()));
        lemma_aligned_is_least(size, width);
        let (alloc, end) = places(colors, spilled, widths, bytes);
        assert(end > size);
        if end <= i64::MAX {
            assert(alloc[spilled.last()]->Spill_0.offset_from_fp == -end);
            assert forall|v: usize|
                #![trigger alloc[v]]
                alloc.contains_key(v) && alloc[v] is Spill implies -end
                <= alloc[v]->Spill_0.offset_from_fp < -bytes by {
                if v != spilled.last() {
                    assert(old_alloc.contains_key(v));
                    assert(alloc[v] == old_alloc[v]);
                }
            }
            assert forall|u: usize, v: usize|
                #![trigger alloc[u], alloc[v]]
                u != v && alloc.contains_key(u) && alloc.contains_key(v) && alloc[u] is Spill
                    && alloc[v] is Spill implies alloc[u]->Spill_0.offset_from_fp
                != alloc[v]->Spill_0.offset_from_fp by {
                if u != spilled.last() {
                    assert(old_alloc.contains_key(u));
                    assert(alloc[u] == old_alloc[u]);
                }
                if v != spilled.last() {
                    assert(old_alloc.contains_key(v));
                    assert(alloc[v] == old_alloc[v]);
                }
            }
        }
    }
}

/// Spilled registers do not share a cell.
proof fn lemma_spills_apart(
    insts: Seq<InstModel>,
    bytes: int,
    alloc: Map<usize, Location>,
    end: int,
    fp: int,
    u: usize,
    v: usize,
)
    requires
        is_allocation(insts, bytes, alloc, end),
        0 <= bytes,
        end <= i64::MAX,
        u != v,
        alloc.contains_key(u),
        alloc.contains_key(v),
        alloc[u] is Spill,
        alloc[v] is Spill,
    ensures
        slot_address(fp, alloc[u]->Spill_0) != slot_address(fp, alloc[v]->Spill_0),
{
    let (n, order, spills, colors) = choose|
        n: nat,
        order: Seq<usize>,
        spills: Set<int>,
        colors: Map<usize, u8>,
    | #[trigger] allocates(insts, n, order, spills, colors, bytes, alloc, end);
    lemma_slots_apart(
        colors,
        spill_order(uncolored(vregs(insts), colors), spills, n),
        widths(insts),
        bytes,
    );
    let a = alloc[u]->Spill_0.offset_from_fp as int;
    let b = alloc[v]->Spill_0.offset_from_fp as int;
    let f = fp % wide();
    assert(a != b);
    assert((f + a) % wide() != (f + b) % wide());
}

/// What is read on the way from `i` is a register of the stream.
proof fn lemma_read_is_vreg(insts: Seq<InstModel>, i: int, x: int, path: Seq<int>)
    requires
        reaches_use(stream_succ(insts), gens(insts), kills(insts), i, x, path),
    ensures
        vregs(insts).contains(x),
    decreases path.len(),
{
    if path.len() == 1 {
        assert(gen_of(insts[i]).contains(x));
    } else {
        lemma_read_is_vreg(insts, path[1], x, path.drop_first());
    }
}

/// What an instruction reads is read ahead of it.
proof fn lemma_use_is_read(insts: Seq<InstModel>, i: int, x: usize)
    requires
        0 <= i < insts.len(),
        insts[i].uses().contains(x),
    ensures
        reads_ahead(insts, i, x as int),
        vregs(insts).contains(x as int),
{
    let path = seq![i];
    assert(gen_of(insts[i]).contains(x as int));
    assert(reaches_use(stream_succ(insts), gens(insts), kills(insts), i, x as int, path));
}

/// What is read ahead of a successor is read ahead of the instruction, unless
/// the instruction writes it.
proof fn lemma_read_before(insts: Seq<InstModel>, i: int, j: int, x: usize)
    requires
        0 <= i < insts.len(),
        0 <= j < insts.len() <= usize::MAX,
        stream_succ(insts)[i].contains(j as usize),
        reads_ahead(insts, j, x as int),
    ensures
        live_after(insts, i, x as int),
        vregs(insts).contains(x as int),
        kill_of(insts[i]).contains(x as int) || reads_ahead(insts, i, x as int),
{
    let succ = stream_succ(insts);
    let k = choose|k: int| 0 <= k < succ[i].len() && succ[i][k] == j as usize;
    assert(reads_ahead(insts, succ[i][k] as int, x as int));
    let path = choose|path: Seq<int>|
        reaches_use(succ, gens(insts), kills(insts), j, x as int, path);
    lemma_read_is_vreg(insts, j, x as int, path);
    if !kill_of(insts[i]).contains(x as int) {
        let longer = seq![i] + path;
        assert(longer.drop_first() =~= path);
        assert(longer[1] == j);
        assert(reaches_use(succ, gens(insts), kills(insts), i, x as int, longer));
    }
}

/// The states differ at most in the scratch registers.
pub open spec fn scratched(m: Cpu, n: Cpu) -> bool {
    &&& n.cells == m.cells
    &&& n.flags == m.flags
    &&& forall|r: Register|
        r != Register::Physical(SCRATCH0) && r != Register::Physical(SCRATCH1)
            ==> #[trigger] n.regs[r] == m.regs[r]
}

/// The register holds what the virtual one does.
proof fn lemma_kept(
    insts: Seq<InstModel>,
    alloc: Map<usize, Location>,
    i: int,
    v: Cpu,
    m: Cpu,
    x: usize,
)
    requires
        0 <= i < insts.len(),
        insts[i].uses().contains(x),
        agree(insts, alloc, i, v, m),
    ensures
        kept(alloc, m, x) == v.regs[Register::Virtual(x)],
{
    lemma_use_is_read(insts, i, x);
}

/// A source is loaded: the register that stands for it has its value.
proof fn lemma_source(
    w: World,
    insts: Seq<InstModel>,
    alloc: Map<usize, Location>,
    i: int,
    v: Cpu,
    m: Cpu,
    now: Cpu,
    r: Register,
    size: RegisterSize,
    scratch: u8,
)
    requires
        0 <= i < insts.len(),
        agree(insts, alloc, i, v, m),
        scratched(m, now),
        readable(r),
        reg_use(r).subset_of(insts[i].uses()),
        scratch == SCRATCH0 || scratch == SCRATCH1,
        source(alloc, r, size, scratch) is Ok,
        forall|x: usize|
            #![trigger alloc[x]]
            alloc.contains_key(x) && vregs(insts).contains(x as int) ==> (alloc[x] matches
                Location::Register(c) ==> FIRST_COLOR <= c < COLORS_END),
    ensures
        ({
            let (reg, load) = source(alloc, r, size, scratch)->Ok_0;
            let n = now.after_all(w, load);
            &&& n.read(reg, size) == v.read(r, size)
            &&& scratched(m, n)
            &&& load.len() == 0 ==> n == now && reg != Register::Physical(SCRATCH0) && reg
                != Register::Physical(SCRATCH1)
            &&& load.len() > 0 ==> reg == Register::Physical(scratch) && forall|q: Register|
                q != reg ==> #[trigger] n.regs[q] == now.regs[q]
            &&& !(reg is Virtual)
        }),
{
    let (reg, load) = source(alloc, r, size, scratch)->Ok_0;
    match r {
        Register::Virtual(x) => {
            assert(reg_use(r).contains(x));
            lemma_use_is_read(insts, i, x);
            match alloc[x] {
                Location::Register(c) => {
                    lemma_none(w, now);
                },
                Location::Spill(slot) => {
                    let inst = spill_load(slot, size, scratch);
                    lemma_one(w, now, inst);
                    lemma_wrapped_twice(size, kept(alloc, m, x));
                    assert(now.regs[frame_pointer()] == m.regs[frame_pointer()]);
                    assert(now.address(w, frame_addr(slot.offset_from_fp as int)) == slot_address(
                        m.regs[frame_pointer()],
                        slot,
                    ));
                },
            }
        },
        _ => {
            lemma_none(w, now);
            assert(m.regs[r] == v.regs[r]);
        },
    }
}

/// The place of a register holds the value, and but for scratch registers all
/// else is as before.
pub open spec fn put(
    alloc: Map<usize, Location>,
    m: Cpu,
    n: Cpu,
    dst: Register,
    val: int,
) -> bool {
    let (r, at) = match dst {
        Register::Virtual(x) => match alloc[x] {
            Location::Register(c) => (Some(Register::Physical(c)), None),
            Location::Spill(slot) => (
                None,
                Some(slot_address(m.regs[frame_pointer()], slot)),
            ),
        },
        _ => (Some(dst), None::<int>),
    };
    &&& n.flags == m.flags
    &&& r matches Some(p) ==> n.regs[p] == val
    &&& forall|q: Register|
        r != Some(q) && q != Register::Physical(SCRATCH0) && q != Register::Physical(SCRATCH1)
            ==> #[trigger] n.regs[q] == m.regs[q]
    &&& n.cells == match at {
        Some(a) => m.cells.insert(a, val),
        None => m.cells,
    }
}

/// The allocation gives every register of the stream a place of its own where
/// it must.
pub open spec fn allocated(
    insts: Seq<InstModel>,
    bytes: int,
    alloc: Map<usize, Location>,
    end: int,
) -> bool {
    &&& is_allocation(insts, bytes, alloc, end)
    &&& 0 <= bytes
    &&& end <= i64::MAX
    &&& insts.len() <= usize::MAX
}

/// A value that is written to the place of a register leaves the values that
/// are still read in theirs.
proof fn lemma_put_agrees(
    insts: Seq<InstModel>,
    bytes: int,
    alloc: Map<usize, Location>,
    end: int,
    i: int,
    j: int,
    v: Cpu,
    m: Cpu,
    n: Cpu,
    dst: Register,
    val: int,
)
    requires
        allocated(insts, bytes, alloc, end),
        0 <= i < insts.len(),
        0 <= j < insts.len(),
        stream_succ(insts)[i].contains(j as usize),
        agree(insts, alloc, i, v, m),
        writable(dst),
        insts[i].target() matches Some((r, _)) && r == dst,
        put(alloc, m, n, dst, val),
    ensures
        agree(insts, alloc, j, v.with(dst, val), n),
{
    let v2 = v.with(dst, val);
    let fp = v.regs[frame_pointer()];
    lemma_allocation_is_valid(insts, bytes, alloc, end);
    assert(m.regs[frame_pointer()] == fp);
    assert(n.regs[frame_pointer()] == fp) by {
        if let Register::Virtual(x) = dst {
            assert(kill_of(insts[i]).contains(x as int));
            assert(vregs(insts).contains(x as int));
            assert(alloc.contains_key(x));
            assert(alloc[x] matches Location::Register(c) ==> FIRST_COLOR <= c < COLORS_END);
        }
    }
    assert(v2.regs[frame_pointer()] == fp);
    assert forall|r: Register| plain(r) implies #[trigger] n.regs[r] == v2.regs[r] by {
        assert(m.regs[r] == v.regs[r]);
        if let Register::Virtual(x) = dst {
            assert(kill_of(insts[i]).contains(x as int));
            assert(vregs(insts).contains(x as int));
            assert(alloc.contains_key(x));
            assert(alloc[x] matches Location::Register(c) ==> FIRST_COLOR <= c < COLORS_END);
        }
    }
    assert forall|a: int| !spill_cells(alloc, fp).contains(a) implies #[trigger] n.cells[a]
        == v2.cells[a] by {
        assert(m.cells[a] == v.cells[a]);
        if let Register::Virtual(x) = dst {
            assert(kill_of(insts[i]).contains(x as int));
            assert(vregs(insts).contains(x as int));
            assert(alloc.contains_key(x));
        }
    }
    assert forall|x: usize| #[trigger] reads_ahead(insts, j, x as int) implies kept(alloc, n, x)
        == v2.regs[Register::Virtual(x)] by {
        lemma_read_before(insts, i, j, x);
        assert(alloc.contains_key(x));
        assert(alloc[x] matches Location::Register(c) ==> FIRST_COLOR <= c < COLORS_END);
        if dst == Register::Virtual(x) {
        } else {
            assert(!kill_of(insts[i]).contains(x as int));
            assert(reads_ahead(insts, i, x as int));
            assert(kept(alloc, m, x) == v.regs[Register::Virtual(x)]);
            if let Register::Virtual(d) = dst {
                assert(kill_of(insts[i]).contains(d as int));
                assert(vregs(insts).contains(d as int));
                assert(alloc.contains_key(d));
                assert(clashes_at(insts, i, d as int, x as int));
                assert(interferes(insts, d as int, x as int));
                if alloc[d] is Register && alloc[x] is Register {
                    assert(alloc[d] != alloc[x]);
                }
                if alloc[d] is Spill && alloc[x] is Spill {
                    lemma_spills_apart(insts, bytes, alloc, end, fp, d, x);
                }
            }
        }
    }
}

/// An instruction that writes no register leaves the values that are still
/// read in their places, where it leaves these alone.
proof fn lemma_carried(
    insts: Seq<InstModel>,
    bytes: int,
    alloc: Map<usize, Location>,
    end: int,
    i: int,
    j: int,
    v: Cpu,
    m: Cpu,
    v2: Cpu,
    n: Cpu,
)
    requires
        allocated(insts, bytes, alloc, end),
        0 <= i < insts.len(),
        0 <= j < insts.len(),
        stream_succ(insts)[i].contains(j as usize),
        agree(insts, alloc, i, v, m),
        insts[i].target() is None,
        n.flags == v2.flags,
        v2.regs[frame_pointer()] == v.regs[frame_pointer()],
        n.regs[frame_pointer()] == m.regs[frame_pointer()],
        forall|r: Register| plain(r) ==> #[trigger] n.regs[r] == v2.regs[r],
        forall|x: usize| #[trigger]
            v2.regs[Register::Virtual(x)] == v.regs[Register::Virtual(x)],
        forall|c: u8|
            FIRST_COLOR <= c < COLORS_END ==> #[trigger] n.regs[Register::Physical(c)]
                == m.regs[Register::Physical(c)],
        forall|a: int|
            !spill_cells(alloc, v.regs[frame_pointer()]).contains(a) ==> #[trigger] n.cells[a]
                == v2.cells[a],
        forall|a: int|
            spill_cells(alloc, v.regs[frame_pointer()]).contains(a) ==> #[trigger] n.cells[a]
                == m.cells[a],
    ensures
        agree(insts, alloc, j, v2, n),
{
    lemma_allocation_is_valid(insts, bytes, alloc, end);
    let fp = v.regs[frame_pointer()];
    assert(m.regs[frame_pointer()] == fp);
    assert forall|x: usize| #[trigger] reads_ahead(insts, j, x as int) implies kept(alloc, n, x)
        == v2.regs[Register::Virtual(x)] by {
        lemma_read_before(insts, i, j, x);
        assert(!kill_of(insts[i]).contains(x as int));
        assert(alloc.contains_key(x));
        assert(kept(alloc, m, x) == v.regs[Register::Virtual(x)]);
        match alloc[x] {
            Location::Register(c) => {
                assert(n.regs[Register::Physical(c)] == m.regs[Register::Physical(c)]);
            },
            Location::Spill(slot) => {
                let a = slot_address(fp, slot);
                assert(spill_cells(alloc, fp).contains(a));
                assert(n.cells[a] == m.cells[a]);
            },
        }
        assert(v2.regs[Register::Virtual(x)] == v.regs[Register::Virtual(x)]);
    }
}

/// A result is stored: the place of the target has the value.
proof fn lemma_sink(
    w: World,
    insts: Seq<InstModel>,
    alloc: Map<usize, Location>,
    m: Cpu,
    now: Cpu,
    dst: Register,
    size: RegisterSize,
    scratch: u8,
    val: int,
)
    requires
        scratched(m, now),
        writable(dst),
        scratch == SCRATCH0 || scratch == SCRATCH1,
        sink(alloc, dst, size, scratch) is Ok,
        wrapped(size, val) == val,
        dst matches Register::Virtual(x) ==> (alloc[x] matches Location::Register(c)
            ==> FIRST_COLOR <= c < COLORS_END),
    ensures
        ({
            let (d, store) = sink(alloc, dst, size, scratch)->Ok_0;
            put(alloc, m, now.with(d, val).after_all(w, store), dst, val)
        }),
{
    let (d, store) = sink(alloc, dst, size, scratch)->Ok_0;
    let n = now.with(d, val);
    match dst {
        Register::Virtual(x) => match alloc[x] {
            Location::Register(c) => {
                lemma_none(w, n);
            },
            Location::Spill(slot) => {
                lemma_one(w, n, spill_store(slot, size, scratch));
                assert(n.regs[frame_pointer()] == m.regs[frame_pointer()]);
                assert(n.address(w, frame_addr(slot.offset_from_fp as int)) == slot_address(
                    m.regs[frame_pointer()],
                    slot,
                ));
                assert(n.cells.insert(slot_address(m.regs[frame_pointer()], slot), val)
                    == m.cells.insert(slot_address(m.regs[frame_pointer()], slot), val));
            },
        },
        _ => {
            lemma_none(w, n);
        },
    }
}

/// An operand is loaded: what stands for it has its value.
proof fn lemma_source_operand(
    w: World,
    insts: Seq<InstModel>,
    alloc: Map<usize, Location>,
    i: int,
    v: Cpu,
    m: Cpu,
    now: Cpu,
    op: InstOperand,
    size: RegisterSize,
    scratch: u8,
)
    requires
        0 <= i < insts.len(),
        agree(insts, alloc, i, v, m),
        scratched(m, now),
        readable_operand(op),
        operand_use(op).subset_of(insts[i].uses()),
        scratch == SCRATCH0 || scratch == SCRATCH1,
        source_operand(alloc, op, size, scratch) is Ok,
        forall|x: usize|
            #![trigger alloc[x]]
            alloc.contains_key(x) && vregs(insts).contains(x as int) ==> (alloc[x] matches
                Location::Register(c) ==> FIRST_COLOR <= c < COLORS_END),
    ensures
        ({
            let (res, load) = source_operand(alloc, op, size, scratch)->Ok_0;
            let n = now.after_all(w, load);
            &&& n.operand(res, size) == v.operand(op, size)
            &&& scratched(m, n)
            &&& forall|q: Register|
                q != Register::Physical(scratch) ==> #[trigger] n.regs[q] == now.regs[q]
            &&& res matches InstOperand::Register(r) ==> !(r is Virtual)
        }),
{
    match op {
        InstOperand::Register(r) => {
            lemma_source(w, insts, alloc, i, v, m, now, r, size, scratch);
        },
        InstOperand::Immediate(_) => {
            lemma_none(w, now);
        },
    }
}

/// An address is loaded: what stands for it is the same address.
proof fn lemma_source_addr(
    w: World,
    insts: Seq<InstModel>,
    alloc: Map<usize, Location>,
    i: int,
    v: Cpu,
    m: Cpu,
    addr: AddrModel,
)
    requires
        0 <= i < insts.len(),
        agree(insts, alloc, i, v, m),
        readable_addr(addr),
        addr_use(addr).subset_of(insts[i].uses()),
        source_addr(alloc, addr, SCRATCH0) is Ok,
        forall|x: usize|
            #![trigger alloc[x]]
            alloc.contains_key(x) && vregs(insts).contains(x as int) ==> (alloc[x] matches
                Location::Register(c) ==> FIRST_COLOR <= c < COLORS_END),
    ensures
        ({
            let (a, used, load) = source_addr(alloc, addr, SCRATCH0)->Ok_0;
            let n = m.after_all(w, load);
            &&& n.address(w, a) == v.address(w, addr)
            &&& scratched(m, n)
            &&& a matches AddrModel::BaseOff { base, .. } ==> base == Register::Physical(SCRATCH0)
                && used || base != Register::Physical(SCRATCH0) && base != Register::Physical(
                SCRATCH1,
            )
        }),
{
    match addr {
        AddrModel::BaseOff { base, .. } => {
            lemma_source(w, insts, alloc, i, v, m, m, base, RegisterSize::X64, SCRATCH0);
        },
        AddrModel::Global(_) => {
            lemma_none(w, m);
        },
    }
}

/// An address does not depend on registers that it does not name.
proof fn lemma_same_address(w: World, a: Cpu, b: Cpu, addr: AddrModel, but: Register)
    requires
        forall|q: Register| q != but ==> #[trigger] a.regs[q] == b.regs[q],
        addr matches AddrModel::BaseOff { base, .. } ==> base != but,
    ensures
        a.address(w, addr) == b.address(w, addr),
{
}

/// What an instruction that writes a register leaves in it.
pub open spec fn outcome(w: World, v: Cpu, inst: InstModel) -> int {
    match inst.target() {
        Some((dst, _)) => v.after(w, inst).regs[dst],
        None => 0,
    }
}

proof fn lemma_moves(
    w: World,
    insts: Seq<InstModel>,
    alloc: Map<usize, Location>,
    i: int,
    v: Cpu,
    m: Cpu,
)
    requires
        0 <= i < insts.len(),
        agree(insts, alloc, i, v, m),
        tame(insts[i]),
        insts[i] is Mov,
        rewritten(alloc, insts[i]) is Ok,
        insts[i].target() matches Some((Register::Virtual(x), _)) ==> alloc.contains_key(x)
            && vregs(insts).contains(x as int),
        forall|x: usize|
            #![trigger alloc[x]]
            alloc.contains_key(x) && vregs(insts).contains(x as int) ==> (alloc[x] matches
                Location::Register(c) ==> FIRST_COLOR <= c < COLORS_END),
    ensures
        put(
            alloc,
            m,
            m.after_all(w, rewritten(alloc, insts[i])->Ok_0),
            insts[i].target()->Some_0.0,
            outcome(w, v, insts[i]),
        ),
{
    if let InstModel::Mov { size, dst, src } = insts[i] {
        let val = v.operand(src, size);
        let (op, load) = source_operand(alloc, src, size, SCRATCH1)->Ok_0;
        lemma_source_operand(w, insts, alloc, i, v, m, m, src, size, SCRATCH1);
        let now = m.after_all(w, load);
        lemma_wrapped_twice(
            size,
            match src {
                InstOperand::Register(r) => v.regs[r],
                InstOperand::Immediate(k) => k as int,
            },
        );
        match mapped(alloc, dst)->Ok_0 {
            MappedReg::InReg(reg) => {
                lemma_push(w, m, load, InstModel::Mov { size, dst: reg, src: op });
                if let Register::Virtual(x) = dst {
                    assert(alloc[x] is Register);
                }
            },
            MappedReg::Spilled(slot) => {
                let at = slot_address(m.regs[frame_pointer()], slot);
                assert(now.regs[frame_pointer()] == m.regs[frame_pointer()]);
                match op {
                    InstOperand::Immediate(_) => {
                        let first = InstModel::Mov {
                            size,
                            dst: Register::Physical(SCRATCH0),
                            src: op,
                        };
                        lemma_push(w, m, load, first);
                        lemma_push(w, m, load.push(first), spill_store(slot, size, SCRATCH0));
                        let mid = now.after(w, first);
                        assert(mid.regs[frame_pointer()] == m.regs[frame_pointer()]);
                        assert(mid.address(w, frame_addr(slot.offset_from_fp as int)) == at);
                    },
                    InstOperand::Register(Register::Physical(k)) => {
                        lemma_push(w, m, load, spill_store(slot, size, k));
                        assert(now.address(w, frame_addr(slot.offset_from_fp as int)) == at);
                    },
                    _ => {},
                }
            },
        }
    }
}

#[verifier::rlimit(50)]
proof fn lemma_operates(
    w: World,
    insts: Seq<InstModel>,
    alloc: Map<usize, Location>,
    i: int,
    v: Cpu,
    m: Cpu,
)
    requires
        0 <= i < insts.len(),
        agree(insts, alloc, i, v, m),
        tame(insts[i]),
        insts[i] is BinOp,
        rewritten(alloc, insts[i]) is Ok,
        insts[i].target() matches Some((Register::Virtual(x), _)) ==> alloc.contains_key(x)
            && vregs(insts).contains(x as int),
        forall|x: usize|
            #![trigger alloc[x]]
            alloc.contains_key(x) && vregs(insts).contains(x as int) ==> (alloc[x] matches
                Location::Register(c) ==> FIRST_COLOR <= c < COLORS_END),
    ensures
        put(
            alloc,
            m,
            m.after_all(w, rewritten(alloc, insts[i])->Ok_0),
            insts[i].target()->Some_0.0,
            outcome(w, v, insts[i]),
        ),
{
    match insts[i] {
        InstModel::BinOp { op, size, dst, lhs, rhs } => {
            let (l, load_l) = source(alloc, lhs, size, SCRATCH0)->Ok_0;
            let (r, load_r) = source_operand(alloc, rhs, size, SCRATCH1)->Ok_0;
            let (d, store) = sink(alloc, dst, size, SCRATCH0)->Ok_0;
            assert(reg_use(lhs).subset_of(insts[i].uses()));
            assert(operand_use(rhs).subset_of(insts[i].uses()));
            lemma_source(w, insts, alloc, i, v, m, m, lhs, size, SCRATCH0);
            let one = m.after_all(w, load_l);
            lemma_source_operand(w, insts, alloc, i, v, m, one, rhs, size, SCRATCH1);
            lemma_concat(w, m, load_l, load_r);
            let two = one.after_all(w, load_r);
            assert(l != Register::Physical(SCRATCH1));
            assert(two.regs[l] == one.regs[l]);
            let inst = InstModel::BinOp { op, size, dst: d, lhs: l, rhs: r };
            lemma_push(w, m, load_l + load_r, inst);
            lemma_concat(w, m, (load_l + load_r).push(inst), store);
            let val = outcome(w, v, insts[i]);
            assert(two.after(w, inst) == two.with(d, val));
            lemma_wrapped_twice(
                size,
                super::execution::operated(op, size, v.read(lhs, size), v.operand(rhs, size)),
            );
            lemma_sink(w, insts, alloc, m, two, dst, size, SCRATCH0, val);
        },
        _ => {},
    }
}

#[verifier::rlimit(50)]
proof fn lemma_computes_address(
    w: World,
    insts: Seq<InstModel>,
    alloc: Map<usize, Location>,
    i: int,
    v: Cpu,
    m: Cpu,
)
    requires
        0 <= i < insts.len(),
        agree(insts, alloc, i, v, m),
        tame(insts[i]),
        insts[i] is Gep,
        rewritten(alloc, insts[i]) is Ok,
        insts[i].target() matches Some((Register::Virtual(x), _)) ==> alloc.contains_key(x)
            && vregs(insts).contains(x as int),
        forall|x: usize|
            #![trigger alloc[x]]
            alloc.contains_key(x) && vregs(insts).contains(x as int) ==> (alloc[x] matches
                Location::Register(c) ==> FIRST_COLOR <= c < COLORS_END),
    ensures
        put(
            alloc,
            m,
            m.after_all(w, rewritten(alloc, insts[i])->Ok_0),
            insts[i].target()->Some_0.0,
            outcome(w, v, insts[i]),
        ),
{
    match insts[i] {
        InstModel::Gep { dst, base, index, scale } => {
            let (b, load_b) = source(alloc, base, RegisterSize::X64, SCRATCH0)->Ok_0;
            let scratch = scratch_behind(b == Register::Physical(SCRATCH0));
            let (x, load_x) = source_operand(alloc, index, RegisterSize::W32, scratch)->Ok_0;
            let (d, store) = sink(alloc, dst, RegisterSize::X64, scratch)->Ok_0;
            assert(reg_use(base).subset_of(insts[i].uses()));
            assert(operand_use(index).subset_of(insts[i].uses()));
            lemma_source(w, insts, alloc, i, v, m, m, base, RegisterSize::X64, SCRATCH0);
            let one = m.after_all(w, load_b);
            lemma_source_operand(w, insts, alloc, i, v, m, one, index, RegisterSize::W32, scratch);
            lemma_concat(w, m, load_b, load_x);
            let two = one.after_all(w, load_x);
            assert(b != Register::Physical(scratch));
            assert(two.regs[b] == one.regs[b]);
            let inst = InstModel::Gep { dst: d, base: b, index: x, scale };
            lemma_push(w, m, load_b + load_x, inst);
            lemma_concat(w, m, (load_b + load_x).push(inst), store);
            let val = outcome(w, v, insts[i]);
            assert(two.after(w, inst) == two.with(d, val));
            lemma_sink(w, insts, alloc, m, two, dst, RegisterSize::X64, scratch, val);
        },
        _ => {},
    }
}

proof fn lemma_loads(
    w: World,
    insts: Seq<InstModel>,
    alloc: Map<usize, Location>,
    i: int,
    v: Cpu,
    m: Cpu,
)
    requires
        0 <= i < insts.len(),
        agree(insts, alloc, i, v, m),
        tame(insts[i]),
        keeps_off(w, alloc, v, insts[i]),
        insts[i] is Ldr || insts[i] is Lea,
        rewritten(alloc, insts[i]) is Ok,
        insts[i].target() matches Some((Register::Virtual(x), _)) ==> alloc.contains_key(x)
            && vregs(insts).contains(x as int),
        forall|x: usize|
            #![trigger alloc[x]]
            alloc.contains_key(x) && vregs(insts).contains(x as int) ==> (alloc[x] matches
                Location::Register(c) ==> FIRST_COLOR <= c < COLORS_END),
    ensures
        put(
            alloc,
            m,
            m.after_all(w, rewritten(alloc, insts[i])->Ok_0),
            insts[i].target()->Some_0.0,
            outcome(w, v, insts[i]),
        ),
{
    match insts[i] {
        InstModel::Ldr { size, dst, addr } => {
            let (a, used, load) = source_addr(alloc, addr, SCRATCH0)->Ok_0;
            let scratch = scratch_behind(used);
            let (d, store) = sink(alloc, dst, size, scratch)->Ok_0;
            lemma_source_addr(w, insts, alloc, i, v, m, addr);
            let now = m.after_all(w, load);
            let inst = InstModel::Ldr { size, dst: d, addr: a };
            lemma_push(w, m, load, inst);
            lemma_concat(w, m, load.push(inst), store);
            let at = v.address(w, addr);
            assert(m.cells[at] == v.cells[at]);
            let val = outcome(w, v, insts[i]);
            assert(now.after(w, inst) == now.with(d, val));
            lemma_wrapped_twice(size, v.cells[at]);
            lemma_sink(w, insts, alloc, m, now, dst, size, scratch, val);
        },
        InstModel::Lea { dst, addr } => {
            let (a, used, load) = source_addr(alloc, addr, SCRATCH0)->Ok_0;
            let scratch = scratch_behind(used);
            let (d, store) = sink(alloc, dst, RegisterSize::X64, scratch)->Ok_0;
            lemma_source_addr(w, insts, alloc, i, v, m, addr);
            let now = m.after_all(w, load);
            let inst = InstModel::Lea { dst: d, addr: a };
            lemma_push(w, m, load, inst);
            lemma_concat(w, m, load.push(inst), store);
            let val = outcome(w, v, insts[i]);
            assert(now.after(w, inst) == now.with(d, val));
            lemma_sink(w, insts, alloc, m, now, dst, RegisterSize::X64, scratch, val);
        },
        _ => {},
    }
}

/// What a store or a comparison leaves besides the scratch registers is what
/// it leaves with virtual registers.
proof fn lemma_stores(
    w: World,
    insts: Seq<InstModel>,
    alloc: Map<usize, Location>,
    i: int,
    v: Cpu,
    m: Cpu,
)
    requires
        0 <= i < insts.len(),
        agree(insts, alloc, i, v, m),
        tame(insts[i]),
        insts[i] is Str || insts[i] is Cmp,
        rewritten(alloc, insts[i]) is Ok,
        forall|x: usize|
            #![trigger alloc[x]]
            alloc.contains_key(x) && vregs(insts).contains(x as int) ==> (alloc[x] matches
                Location::Register(c) ==> FIRST_COLOR <= c < COLORS_END),
    ensures
        ({
            let n = m.after_all(w, rewritten(alloc, insts[i])->Ok_0);
            &&& forall|r: Register|
                r != Register::Physical(SCRATCH0) && r != Register::Physical(SCRATCH1)
                    ==> #[trigger] n.regs[r] == m.regs[r]
            &&& insts[i] is Cmp ==> n.cells == m.cells && n.flags == v.after(w, insts[i]).flags
            &&& insts[i] matches InstModel::Str { size, src, addr } ==> n.flags == m.flags
                && n.cells == m.cells.insert(v.address(w, addr), v.read(src, size))
        }),
{
    match insts[i] {
        InstModel::Str { size, src, addr } => {
            let (a, used, load) = source_addr(alloc, addr, SCRATCH0)->Ok_0;
            let scratch = scratch_behind(used);
            let (s, load_s) = source(alloc, src, size, scratch)->Ok_0;
            assert(reg_use(src).subset_of(insts[i].uses()));
            assert(addr_use(addr).subset_of(insts[i].uses()));
            lemma_source_addr(w, insts, alloc, i, v, m, addr);
            let one = m.after_all(w, load);
            lemma_source(w, insts, alloc, i, v, m, one, src, size, scratch);
            lemma_concat(w, m, load, load_s);
            let two = one.after_all(w, load_s);
            lemma_same_address(w, two, one, a, Register::Physical(scratch));
            lemma_push(w, m, load + load_s, InstModel::Str { size, src: s, addr: a });
        },
        InstModel::Cmp { size, lhs, rhs } => {
            let (l, load_l) = source(alloc, lhs, size, SCRATCH0)->Ok_0;
            let (r, load_r) = source_operand(alloc, rhs, size, SCRATCH1)->Ok_0;
            assert(reg_use(lhs).subset_of(insts[i].uses()));
            assert(operand_use(rhs).subset_of(insts[i].uses()));
            lemma_source(w, insts, alloc, i, v, m, m, lhs, size, SCRATCH0);
            let one = m.after_all(w, load_l);
            lemma_source_operand(w, insts, alloc, i, v, m, one, rhs, size, SCRATCH1);
            lemma_concat(w, m, load_l, load_r);
            let two = one.after_all(w, load_r);
            assert(l != Register::Physical(SCRATCH1));
            assert(two.regs[l] == one.regs[l]);
            lemma_push(w, m, load_l + load_r, InstModel::Cmp { size, lhs: l, rhs: r });
        },
        _ => {},
    }
}

/// One instruction: what allocation makes of it leaves the same flags and the
/// same values, wherever control goes.
pub proof fn lemma_step_agrees(
    w: World,
    insts: Seq<InstModel>,
    bytes: int,
    alloc: Map<usize, Location>,
    end: int,
    i: int,
    j: int,
    v: Cpu,
    m: Cpu,
)
    requires
        allocated(insts, bytes, alloc, end),
        0 <= i < insts.len(),
        tame(insts[i]),
        rewritten(alloc, insts[i]) is Ok,
        agree(insts, alloc, i, v, m),
        keeps_off(w, alloc, v, insts[i]),
        calls_keep_off(w, spill_cells(alloc, v.regs[frame_pointer()])),
        goes(insts, i, v.flags, j),
    ensures
        agree(
            insts,
            alloc,
            j,
            v.after(w, insts[i]),
            m.after_all(w, rewritten(alloc, insts[i])->Ok_0),
        ),
{
    lemma_steps_are_edges(insts, i, v.flags, j);
    lemma_allocation_is_valid(insts, bytes, alloc, end);
    let inst = insts[i];
    let v2 = v.after(w, inst);
    let n = m.after_all(w, rewritten(alloc, inst)->Ok_0);
    let fp = v.regs[frame_pointer()];
    if let Some((Register::Virtual(x), _)) = inst.target() {
        assert(kill_of(inst).contains(x as int));
        assert(vregs(insts).contains(x as int));
        assert(alloc.contains_key(x));
    }
    match inst {
        InstModel::Mov { dst, .. } => {
            lemma_moves(w, insts, alloc, i, v, m);
            lemma_put_agrees(insts, bytes, alloc, end, i, j, v, m, n, dst, outcome(w, v, inst));
        },
        InstModel::BinOp { dst, .. } => {
            lemma_operates(w, insts, alloc, i, v, m);
            lemma_put_agrees(insts, bytes, alloc, end, i, j, v, m, n, dst, outcome(w, v, inst));
        },
        InstModel::Gep { dst, .. } => {
            lemma_computes_address(w, insts, alloc, i, v, m);
            lemma_put_agrees(insts, bytes, alloc, end, i, j, v, m, n, dst, outcome(w, v, inst));
        },
        InstModel::Ldr { dst, .. } => {
            lemma_loads(w, insts, alloc, i, v, m);
            lemma_put_agrees(insts, bytes, alloc, end, i, j, v, m, n, dst, outcome(w, v, inst));
        },
        InstModel::Lea { dst, .. } => {
            lemma_loads(w, insts, alloc, i, v, m);
            lemma_put_agrees(insts, bytes, alloc, end, i, j, v, m, n, dst, outcome(w, v, inst));
        },
        InstModel::Str { .. } => {
            lemma_stores(w, insts, alloc, i, v, m);
            assert forall|r: Register| plain(r) implies #[trigger] n.regs[r] == v2.regs[r] by {
                assert(m.regs[r] == v.regs[r]);
            }
            assert forall|a: int| !spill_cells(alloc, fp).contains(a) implies #[trigger] n.cells[a]
                == v2.cells[a] by {
                assert(m.cells[a] == v.cells[a]);
            }
            lemma_carried(insts, bytes, alloc, end, i, j, v, m, v2, n);
        },
        InstModel::Cmp { .. } => {
            lemma_stores(w, insts, alloc, i, v, m);
            assert forall|r: Register| plain(r) implies #[trigger] n.regs[r] == v2.regs[r] by {
                assert(m.regs[r] == v.regs[r]);
            }
            lemma_carried(insts, bytes, alloc, end, i, j, v, m, v2, n);
        },
        InstModel::Bl { func } => {
            lemma_one(w, m, inst);
            assert(m.arguments() =~= v.arguments()) by {
                assert forall|k: int| 0 <= k < 8 implies m.arguments()[k] == v.arguments()[k] by {
                    assert(plain(Register::Physical(k as u8)));
                }
            }
            let sp = v.regs[Register::StackPointer];
            assert(m.regs[Register::StackPointer] == sp);
            let ra = (w.calls)(func, v.arguments(), sp, m.cells);
            let rb = (w.calls)(func, v.arguments(), sp, v.cells);
            let cells = spill_cells(alloc, fp);
            assert(forall|x: int| !cells.contains(x) ==> m.cells[x] == v.cells[x]);
            assert(ra.regs == rb.regs);
            assert forall|r: Register| plain(r) implies #[trigger] n.regs[r] == v2.regs[r] by {
                assert(m.regs[r] == v.regs[r]);
            }
            lemma_carried(insts, bytes, alloc, end, i, j, v, m, v2, n);
        },
        _ => {
            lemma_one(w, m, inst);
            assert forall|r: Register| plain(r) implies #[trigger] n.regs[r] == v2.regs[r] by {
                assert(m.regs[r] == v.regs[r]);
            }
            lemma_carried(insts, bytes, alloc, end, i, j, v, m, v2, n);
        },
    }
}

/// Control and the state after `k` instructions of a run that starts at
/// instruction `i`: `path` are the instructions that it comes by.
pub open spec fn runs(
    w: World,
    insts: Seq<InstModel>,
    v: Cpu,
    path: Seq<int>,
) -> bool
    decreases path.len(),
{
    &&& path.len() > 0
    &&& 0 <= path[0] < insts.len()
    &&& path.len() > 1 ==> goes(insts, path[0], v.flags, path[1]) && runs(
        w,
        insts,
        v.after(w, insts[path[0]]),
        path.drop_first(),
    )
}

/// The state at the end of a run, before its last instruction.
pub open spec fn reached(w: World, insts: Seq<InstModel>, v: Cpu, path: Seq<int>) -> Cpu
    decreases path.len(),
{
    if path.len() <= 1 {
        v
    } else {
        reached(w, insts, v.after(w, insts[path[0]]), path.drop_first())
    }
}

/// The same with each instruction replaced by what allocation makes of it.
pub open spec fn reached_allocated(
    w: World,
    insts: Seq<InstModel>,
    alloc: Map<usize, Location>,
    m: Cpu,
    path: Seq<int>,
) -> Cpu
    decreases path.len(),
{
    if path.len() <= 1 {
        m
    } else {
        reached_allocated(
            w,
            insts,
            alloc,
            m.after_all(w, rewritten(alloc, insts[path[0]])->Ok_0),
            path.drop_first(),
        )
    }
}

/// The instructions on a run keep off the slots of spilled registers.
pub open spec fn run_keeps_off(
    w: World,
    insts: Seq<InstModel>,
    alloc: Map<usize, Location>,
    v: Cpu,
    path: Seq<int>,
) -> bool
    decreases path.len(),
{
    path.len() > 1 ==> keeps_off(w, alloc, v, insts[path[0]]) && run_keeps_off(
        w,
        insts,
        alloc,
        v.after(w, insts[path[0]]),
        path.drop_first(),
    )
}

proof fn lemma_frame_stays(w: World, v: Cpu, inst: InstModel)
    requires
        tame(inst),
    ensures
        v.after(w, inst).regs[frame_pointer()] == v.regs[frame_pointer()],
{
}

/// However long a run is: with the registers of the allocation the same
/// instructions follow each other, and flags, memory and values are the same
/// as when each virtual register has a cell of its own.
pub proof fn lemma_runs_agree(
    w: World,
    insts: Seq<InstModel>,
    bytes: int,
    alloc: Map<usize, Location>,
    end: int,
    v: Cpu,
    m: Cpu,
    path: Seq<int>,
)
    requires
        allocated(insts, bytes, alloc, end),
        forall|i: int| 0 <= i < insts.len() ==> tame(#[trigger] insts[i]),
        forall|i: int| 0 <= i < insts.len() ==> rewritten(alloc, #[trigger] insts[i]) is Ok,
        runs(w, insts, v, path),
        agree(insts, alloc, path[0], v, m),
        run_keeps_off(w, insts, alloc, v, path),
        calls_keep_off(w, spill_cells(alloc, v.regs[frame_pointer()])),
    ensures
        agree(
            insts,
            alloc,
            path.last(),
            reached(w, insts, v, path),
            reached_allocated(w, insts, alloc, m, path),
        ),
    decreases path.len(),
{
    if path.len() > 1 {
        let i = path[0];
        let v2 = v.after(w, insts[i]);
        let m2 = m.after_all(w, rewritten(alloc, insts[i])->Ok_0);
        lemma_step_agrees(w, insts, bytes, alloc, end, i, path[1], v, m);
        lemma_frame_stays(w, v, insts[i]);
        lemma_runs_agree(w, insts, bytes, alloc, end, v2, m2, path.drop_first());
    }
}

} // verus!
