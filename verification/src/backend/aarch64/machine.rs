//! What lines of assembly do, and that the lines printed for an instruction
//! do what the instruction says.
//!
//! A machine has 64-bit registers and a memory of cells.  Only the lines that
//! compute values and addresses and that use the stack are modelled.

use super::frame::SCRATCH_SPILL_SLOT;
use super::lines::{
    add_offset_lines, address_lines, addsub_encodable, bounced_index_lines, bounced_store_lines,
    chunk, chunk_lines, free_scratch, gep_lines, held, is_scratch, lea_lines, load_lines, magnitude,
    mov_imm_lines, other_scratch, scaled_index_lines, scratch_or, shift_of, sp_lines, store_lines,
    via_scratch_lines, AsmLine, MemOp,
};
use super::types::{
    AddrModel, InstBinOp, InstOperand, Register, RegisterSize, SCRATCH0, SCRATCH1,
};
use crate::common::target::Target;
use crate::ir::gen::static_eval::quotient;
use vstd::prelude::*;

verus! {

/// The number of values of a 64-bit register.
#[verifier::inline]
pub open spec fn wide() -> int {
    0x1_0000_0000_0000_0000
}

/// The number of values of 32 bits.
#[verifier::inline]
pub open spec fn half() -> int {
    0x1_0000_0000
}

/// The state of the machine.
#[verifier::ext_equal]
pub struct Machine {
    /// The value of each register.
    pub regs: Map<Register, int>,
    /// The value of each cell of memory that has been written.
    pub cells: Map<int, int>,
}

/// `n` as a register of the given width holds it.
pub open spec fn wrapped(size: RegisterSize, n: int) -> int {
    match size {
        RegisterSize::X64 => n % wide(),
        _ => n % half(),
    }
}

/// The number that the low 32 bits stand for, with a sign.
pub open spec fn signed(n: int) -> int {
    let low = n % half();
    if low >= half() / 2 {
        low - half()
    } else {
        low
    }
}

/// The register holds a value of its own: it is neither virtual nor the zero
/// register.
pub open spec fn holds(r: Register) -> bool {
    match r {
        Register::Virtual(_) => false,
        Register::Physical(n) => n != 31,
        Register::StackPointer => true,
    }
}

/// The result of an operation.
pub open spec fn computed(op: InstBinOp, a: int, b: int) -> int {
    match op {
        InstBinOp::Add => a + b,
        InstBinOp::Sub => a - b,
        InstBinOp::Mul => a * b,
        InstBinOp::SDiv => if b == 0 {
            0
        } else {
            quotient(a, b)
        },
    }
}

/// The value of the position of the 16 bits with number `i`.
pub open spec fn place(i: int) -> int {
    if i <= 0 {
        1
    } else if i == 1 {
        0x1_0000
    } else if i == 2 {
        0x1_0000_0000
    } else if i == 3 {
        0x1_0000_0000_0000
    } else {
        wide()
    }
}

impl Machine {
    /// Every register that holds a value holds 64 bits.
    pub open spec fn wf(self) -> bool {
        forall|r: Register| holds(r) ==> 0 <= #[trigger] self.regs[r] < wide()
    }

    /// The machine with another value in a register.
    pub open spec fn with(self, r: Register, v: int) -> Machine {
        Machine { regs: self.regs.insert(r, v), cells: self.cells }
    }

    /// The machine after a line.
    pub open spec fn step(self, line: AsmLine) -> Machine {
        match line {
            AsmLine::MovImm { size, dst, imm } => self.with(dst, wrapped(size, imm)),
            AsmLine::MovReg { size, dst, src } => self.with(dst, wrapped(size, self.regs[src])),
            AsmLine::MovZ { dst, imm, shift, .. } => self.with(
                dst,
                imm * place(shift as int / 16),
            ),
            AsmLine::MovK { dst, imm, shift, .. } => {
                let i = shift as int / 16;
                self.with(
                    dst,
                    self.regs[dst] - chunk(self.regs[dst], i) * place(i) + imm * place(i),
                )
            },
            AsmLine::OpImm { op, size, dst, lhs, imm } => self.with(
                dst,
                wrapped(size, computed(op, self.regs[lhs], imm)),
            ),
            AsmLine::OpReg { op, size, dst, lhs, rhs } => self.with(
                dst,
                wrapped(size, computed(op, self.regs[lhs], self.regs[rhs])),
            ),
            AsmLine::Sxtw { dst, src } => self.with(
                dst,
                wrapped(RegisterSize::X64, signed(self.regs[src])),
            ),
            AsmLine::AddExt { dst, base, index, shift } => self.with(
                dst,
                wrapped(
                    RegisterSize::X64,
                    self.regs[base] + signed(self.regs[index]) * scale_of(shift),
                ),
            ),
            AsmLine::Mem { op, size, reg, base, offset } => {
                let at = (self.regs[base] + offset) % wide();
                if op is Ldr || op is Ldur {
                    self.with(reg, wrapped(size, self.cells[at]))
                } else {
                    Machine {
                        regs: self.regs,
                        cells: self.cells.insert(at, wrapped(size, self.regs[reg])),
                    }
                }
            },
            AsmLine::Push(n) => {
                let at = (self.regs[Register::StackPointer] - 16) % wide();
                Machine {
                    regs: self.regs.insert(Register::StackPointer, at),
                    cells: self.cells.insert(at, self.regs[Register::Physical(n)]),
                }
            },
            AsmLine::PushPair(n, k) => {
                let at = (self.regs[Register::StackPointer] - 16) % wide();
                Machine {
                    regs: self.regs.insert(Register::StackPointer, at),
                    cells: self.cells.insert(at, self.regs[Register::Physical(n)]).insert(
                        (at + 8) % wide(),
                        self.regs[Register::Physical(k)],
                    ),
                }
            },
            AsmLine::Pop(n) => {
                let at = self.regs[Register::StackPointer];
                self.with(Register::Physical(n), self.cells[at]).with(
                    Register::StackPointer,
                    (at + 16) % wide(),
                )
            },
            AsmLine::PopPair(n, k) => {
                let at = self.regs[Register::StackPointer];
                self.with(Register::Physical(n), self.cells[at]).with(
                    Register::Physical(k),
                    self.cells[(at + 8) % wide()],
                ).with(Register::StackPointer, (at + 16) % wide())
            },
            _ => self,
        }
    }

    /// The machine after some lines.
    pub open spec fn run(self, lines: Seq<AsmLine>) -> Machine
        decreases lines.len(),
    {
        if lines.len() == 0 {
            self
        } else {
            self.run(lines.drop_last()).step(lines.last())
        }
    }
}

/// The factor of a shift.
pub open spec fn scale_of(shift: nat) -> int {
    if shift == 0 {
        1
    } else if shift == 1 {
        2
    } else if shift == 2 {
        4
    } else {
        8
    }
}

/// The machines agree on all registers but those in `except`.
pub open spec fn same_but(a: Machine, b: Machine, except: Set<Register>) -> bool {
    forall|r: Register| holds(r) && !except.contains(r) ==> #[trigger] b.regs[r] == a.regs[r]
}

/// Running no lines changes nothing.
pub broadcast proof fn lemma_run_none(m: Machine)
    ensures
        #[trigger] m.run(Seq::empty()) == m,
{
}

/// Running a line more is one more step.
pub broadcast proof fn lemma_run_push(m: Machine, lines: Seq<AsmLine>, line: AsmLine)
    ensures
        #[trigger] m.run(lines.push(line)) == m.run(lines).step(line),
{
    assert(lines.push(line).drop_last() =~= lines);
}

/// Running two lists of lines is running one after the other.
pub broadcast proof fn lemma_run_concat(m: Machine, a: Seq<AsmLine>, b: Seq<AsmLine>)
    ensures
        #[trigger] m.run(a + b) == m.run(a).run(b),
    decreases b.len(),
{
    if b.len() == 0 {
        assert(a + b =~= a);
    } else {
        lemma_run_concat(m, a, b.drop_last());
        assert((a + b).drop_last() =~= a + b.drop_last());
    }
}

/// A value of 64 bits keeps the machine well formed, and the other registers
/// as they were.
pub broadcast proof fn lemma_with(m: Machine, r: Register, v: int)
    requires
        m.wf(),
        0 <= v < wide(),
    ensures
        (#[trigger] m.with(r, v)).wf(),
        m.with(r, v).regs[r] == v,
        forall|q: Register| q != r ==> #[trigger] m.with(r, v).regs[q] == m.regs[q],
{
    assert forall|q: Register| holds(q) implies 0 <= #[trigger] m.with(r, v).regs[q] < wide() by {
        if q != r {
            assert(m.with(r, v).regs[q] == m.regs[q]);
        }
    }
}

proof fn lemma_chunk_adds(v: int, i: int)
    requires
        0 <= i < 4,
        0 <= v < wide(),
    ensures
        v % place(i + 1) == v % place(i) + chunk(v, i) * place(i),
        0 <= chunk(v, i) < 0x1_0000,
        0 <= v % place(i) < place(i),
        v % place(4) == v,
        v % place(0) == 0,
{
    assert(place(4) == 0x1_0000_0000_0000_0000);
    if i == 0 {
        assert(v % 0x1_0000 == v % 1 + (v % 0x1_0000) * 1);
    } else if i == 1 {
        assert(v % 0x1_0000_0000 == v % 0x1_0000 + ((v / 0x1_0000) % 0x1_0000) * 0x1_0000);
    } else if i == 2 {
        assert(v % 0x1_0000_0000_0000 == v % 0x1_0000_0000 + ((v / 0x1_0000_0000) % 0x1_0000)
            * 0x1_0000_0000);
    } else {
        assert(v % 0x1_0000_0000_0000_0000 == v % 0x1_0000_0000_0000 + ((v
            / 0x1_0000_0000_0000) % 0x1_0000) * 0x1_0000_0000_0000);
    }
}

proof fn lemma_chunk_above(w: int, i: int)
    requires
        1 <= i < 4,
        0 <= w < place(i),
    ensures
        chunk(w, i) == 0,
{
    if i == 1 {
    } else if i == 2 {
    } else {
    }
}

proof fn lemma_chunk_lines(m: Machine, dst: Register, size: RegisterSize, v: int, i: int, first: bool)
    requires
        0 <= i <= 4,
        0 < v < wide(),
        if first {
            v % place(i) == 0
        } else {
            m.regs[dst] == v % place(i) && i >= 1
        },
    ensures
        m.run(chunk_lines(dst, size, v, i, first)) == m.with(dst, v) || (!first && m.regs[dst] == v
            && m.run(chunk_lines(dst, size, v, i, first)) == m),
    decreases 4 - i,
{
    broadcast use {lemma_run_none, lemma_run_push, lemma_run_concat, lemma_with};

    if i < 4 {
        lemma_chunk_adds(v, i);
        let c = chunk(v, i);
        if c == 0 {
            lemma_chunk_lines(m, dst, size, v, i + 1, first);
        } else if first {
            let line = AsmLine::MovZ { size, dst, imm: c as nat, shift: (16 * i) as nat };
            let next = m.step(line);
            assert((16 * i) / 16 == i);
            assert(next == m.with(dst, c * place(i)));
            lemma_chunk_lines(next, dst, size, v, i + 1, false);
            assert(m.run(seq![line]) == next);
            assert(next.with(dst, v) =~= m.with(dst, v));
        } else {
            let line = AsmLine::MovK { size, dst, imm: c as nat, shift: (16 * i) as nat };
            let next = m.step(line);
            assert((16 * i) / 16 == i);
            lemma_chunk_above(m.regs[dst], i);
            assert(next == m.with(dst, m.regs[dst] + c * place(i)));
            lemma_chunk_lines(next, dst, size, v, i + 1, false);
            assert(m.run(seq![line]) == next);
            assert(next.with(dst, v) =~= m.with(dst, v));
        }
    } else {
        lemma_chunk_adds(v, 0);
    }
}

/// The lines for a number put just that number in the register: all of it, or
/// its low 32 bits where the register is written as a 32-bit register.
pub proof fn lemma_mov_imm(m: Machine, dst: Register, size: RegisterSize, value: int)
    requires
        m.wf(),
        holds(dst),
        0 <= value < wide(),
        size is S32 ==> value < half(),
        size is W32 ==> dst is Physical,
    ensures
        m.run(mov_imm_lines(dst, size, value)) == m.with(dst, held(dst, size, value)),
{
    broadcast use {lemma_run_none, lemma_run_push, lemma_run_concat, lemma_with};

    let v = held(dst, size, value);
    if v > 0xFFFF {
        lemma_chunk_lines(m, dst, size, v, 0, true);
    } else {
        assert(wrapped(size, v) == v);
    }
}

/// The lines that add an offset to a base leave the sum in the destination,
/// and change no other register but the scratch register.
pub proof fn lemma_add_offset(
    m: Machine,
    dst: Register,
    base: Register,
    offset: int,
    scratch: Register,
)
    requires
        m.wf(),
        holds(dst),
        holds(base),
        holds(scratch),
        scratch != base || addsub_encodable(magnitude(offset)),
        i64::MIN < offset <= i64::MAX,
    ensures
        ({
            let n = m.run(add_offset_lines(dst, base, offset, scratch));
            &&& n.regs[dst] == (m.regs[base] + offset) % wide()
            &&& same_but(m, n, set![dst, scratch])
            &&& n.cells == m.cells
            &&& n.wf()
        }),
{
    broadcast use {lemma_run_none, lemma_run_push, lemma_run_concat, lemma_with};

    let size = RegisterSize::X64;
    if offset == 0 {
    } else if addsub_encodable(magnitude(offset)) {
    } else {
        lemma_mov_imm(m, scratch, size, magnitude(offset));
    }
}

/// An address computed for an instruction is the sum of base and offset.
pub proof fn lemma_lea(
    m: Machine,
    target: Target,
    dst: Register,
    base: Register,
    offset: int,
)
    requires
        m.wf(),
        holds(dst),
        holds(base),
        i64::MIN < offset <= i64::MAX,
    ensures
        ({
            let n = m.run(lea_lines(target, dst, AddrModel::BaseOff { base, offset }));
            &&& n.regs[dst] == (m.regs[base] + offset) % wide()
            &&& same_but(
                m,
                n,
                set![dst, Register::Physical(SCRATCH0), Register::Physical(SCRATCH1)],
            )
            &&& n.cells == m.cells
        }),
{
    let scratch = scratch_or(dst, base, dst);
    lemma_add_offset(m, dst, base, offset, scratch);
}

proof fn lemma_wrapped_product(a: int, b: int, d: int)
    requires
        d > 0,
    ensures
        ((a % d) * (b % d)) % d == (a * b) % d,
        (a % d + b % d) % d == (a + b) % d,
        (a + b % d) % d == (a + b) % d,
{
    vstd::arithmetic::div_mod::lemma_mul_mod_noop(a, b, d);
    vstd::arithmetic::div_mod::lemma_add_mod_noop(a, b, d);
    vstd::arithmetic::div_mod::lemma_add_mod_noop_right(a, b, d);
}

/// The 64 bits of a number stand for it modulo the number of values.
proof fn lemma_bits_wrap(n: int)
    requires
        i64::MIN <= n <= i64::MAX,
    ensures
        super::lines::bits(n) == n % wide(),
        0 <= super::lines::bits(n) < wide(),
{
}

proof fn lemma_scaled_index(
    m: Machine,
    acc: Register,
    tmp: Register,
    index: Register,
    scale: int,
)
    requires
        m.wf(),
        holds(acc),
        holds(tmp),
        holds(index),
        acc != tmp,
        i64::MIN <= scale <= i64::MAX,
    ensures
        ({
            let n = m.run(scaled_index_lines(acc, tmp, index, scale));
            &&& n.regs[acc] == (signed(m.regs[index]) * scale) % wide()
            &&& same_but(m, n, set![acc, tmp])
            &&& n.cells == m.cells
            &&& n.wf()
        }),
{
    broadcast use {lemma_run_none, lemma_run_push, lemma_run_concat, lemma_with};

    let size = RegisterSize::X64;
    let a = m.step(AsmLine::Sxtw { dst: acc, src: index });
    assert(m.run(seq![AsmLine::Sxtw { dst: acc, src: index }]) == a);
    lemma_bits_wrap(scale);
    assert(a.wf());
    lemma_mov_imm(a, tmp, size, super::lines::bits(scale));
    lemma_wrapped_product(signed(m.regs[index]), scale, wide());
}

proof fn lemma_move_sp(m: Machine, op: InstBinOp)
    requires
        m.wf(),
        op is Add || op is Sub,
    ensures
        m.run(sp_lines(op, SCRATCH_SPILL_SLOT as int)) == m.with(
            Register::StackPointer,
            computed(op, m.regs[Register::StackPointer], SCRATCH_SPILL_SLOT as int) % wide(),
        ),
{
    broadcast use {lemma_run_none, lemma_run_push, lemma_run_concat, lemma_with};

}

proof fn lemma_bounced_index(
    m: Machine,
    acc: Register,
    tmp: Register,
    kept: Register,
    back: Register,
    index: Register,
    scale: int,
)
    requires
        m.wf(),
        is_scratch(acc),
        is_scratch(tmp),
        is_scratch(kept),
        is_scratch(back),
        acc != tmp,
        acc != back,
        holds(index),
        index is Physical,
        i64::MIN <= scale <= i64::MAX,
    ensures
        ({
            let n = m.run(bounced_index_lines(acc, tmp, kept, back, index, scale));
            &&& n.regs[acc] == (signed(m.regs[index]) * scale) % wide()
            &&& n.regs[back] == m.regs[kept]
            &&& same_but(m, n, set![acc, tmp, back])
            &&& n.wf()
        }),
{
    broadcast use {lemma_run_none, lemma_run_push, lemma_run_concat, lemma_with};

    let size = RegisterSize::X64;
    let sp = Register::StackPointer;
    let slot = SCRATCH_SPILL_SLOT as int;
    lemma_move_sp(m, InstBinOp::Sub);
    let a = m.run(sp_lines(InstBinOp::Sub, slot));
    assert(a.wf());
    let save = AsmLine::Mem { op: MemOp::Str, size, reg: kept, base: sp, offset: 0 };
    let b = a.step(save);
    assert(a.run(seq![save]) == b);
    assert(b.wf());
    lemma_scaled_index(b, acc, tmp, index, scale);
    let c = b.run(scaled_index_lines(acc, tmp, index, scale));
    let load = AsmLine::Mem { op: MemOp::Ldr, size, reg: back, base: sp, offset: 0 };
    let d = c.step(load);
    assert(c.run(seq![load]) == d);
    assert(c.regs[sp] == b.regs[sp]);
    let at = (a.regs[sp] + 0) % wide();
    assert(c.cells[at] == m.regs[kept] % wide());
    assert(d.wf());
    lemma_move_sp(d, InstBinOp::Add);
    let e = d.run(sp_lines(InstBinOp::Add, slot));
    assert(e.regs[sp] == m.regs[sp]) by {
        assert((m.regs[sp] - slot) % wide() + slot == m.regs[sp] || (m.regs[sp] - slot) % wide()
            + slot == m.regs[sp] + wide());
    }
    assert(m.run(bounced_index_lines(acc, tmp, kept, back, index, scale)) == e);
}

/// The address of an element is the base plus the scaled index, whatever
/// registers hold them; only the destination and the scratch registers
/// change, and the stack pointer comes back to where it was.
pub proof fn lemma_gep(m: Machine, dst: Register, base: Register, index: InstOperand, scale: int)
    requires
        m.wf(),
        holds(dst),
        dst is Physical,
        holds(base),
        i64::MIN <= scale <= i64::MAX,
        match index {
            InstOperand::Register(r) => holds(r) && r is Physical,
            InstOperand::Immediate(i) => i64::MIN < i * scale <= i64::MAX,
        },
    ensures
        ({
            let n = m.run(gep_lines(dst, base, index, scale));
            &&& n.regs[dst] == (m.regs[base] + match index {
                InstOperand::Register(r) => signed(m.regs[r]),
                InstOperand::Immediate(i) => i as int,
            } * scale) % wide()
            &&& same_but(
                m,
                n,
                set![dst, Register::Physical(SCRATCH0), Register::Physical(SCRATCH1)],
            )
        }),
{
    broadcast use {lemma_run_none, lemma_run_push, lemma_run_concat, lemma_with};

    let s0 = Register::Physical(SCRATCH0);
    let s1 = Register::Physical(SCRATCH1);
    match index {
        InstOperand::Immediate(i) => {
            lemma_add_offset(m, dst, base, i * scale, scratch_or(dst, base, dst));
        },
        InstOperand::Register(r) => {
            let product = signed(m.regs[r]) * scale;
            match shift_of(scale) {
                Some(shift) => {},
                None => {
                    if dst != base {
                        match free_scratch(dst, base) {
                            Some(tmp) => lemma_scaled_index(m, dst, tmp, r, scale),
                            None => lemma_bounced_index(m, dst, base, base, base, r, scale),
                        }
                    } else if is_scratch(base) {
                        lemma_bounced_index(
                            m,
                            base,
                            other_scratch(base),
                            base,
                            other_scratch(base),
                            r,
                            scale,
                        );
                    } else {
                        lemma_scaled_index(m, s0, s1, r, scale);
                    }
                    lemma_wrapped_product(m.regs[base], product, wide());
                },
            }
        },
    }
}

/// A load reads the cell at the sum of base and offset, and changes no
/// register but its destination.
pub proof fn lemma_load(
    m: Machine,
    target: Target,
    size: RegisterSize,
    reg: Register,
    base: Register,
    offset: int,
)
    requires
        m.wf(),
        holds(reg),
        reg is Physical,
        holds(base),
        reg != base || offset == 0 || super::lines::scaled_encodable(size, offset)
            || super::lines::unscaled_encodable(offset),
        i64::MIN < offset <= i64::MAX,
    ensures
        ({
            let n = m.run(load_lines(target, size, reg, AddrModel::BaseOff { base, offset }));
            &&& n == m.with(reg, wrapped(size, m.cells[(m.regs[base] + offset) % wide()]))
        }),
{
    broadcast use {lemma_run_none, lemma_run_push, lemma_run_concat, lemma_with};

    if offset == 0 || super::lines::scaled_encodable(size, offset)
        || super::lines::unscaled_encodable(offset) {
    } else {
        lemma_mov_imm(m, reg, RegisterSize::X64, magnitude(offset));
        let n = m.run(load_lines(target, size, reg, AddrModel::BaseOff { base, offset }));
        let a = m.run(address_lines(reg, base, offset));
        let at = (m.regs[base] + offset) % wide();
        assert(a.regs[reg] == at);
        assert((at + 0) % wide() == at);
        assert(n.regs =~= m.with(
            reg,
            wrapped(size, m.cells[(m.regs[base] + offset) % wide()]),
        ).regs);
    }
}

/// A store writes its register to the cell at the sum of base and offset; of
/// the registers only the scratch registers change, and of the cells beside
/// only the one below the stack pointer.
pub proof fn lemma_store(
    m: Machine,
    target: Target,
    size: RegisterSize,
    reg: Register,
    base: Register,
    offset: int,
)
    requires
        m.wf(),
        holds(reg),
        reg is Physical,
        holds(base),
        i64::MIN < offset <= i64::MAX,
    ensures
        ({
            let n = m.run(store_lines(target, size, reg, AddrModel::BaseOff { base, offset }));
            let at = (m.regs[base] + offset) % wide();
            let below = (m.regs[Register::StackPointer] - SCRATCH_SPILL_SLOT) % wide();
            &&& n.cells.contains_key(at)
            &&& n.cells[at] == wrapped(size, m.regs[reg])
            &&& forall|k: int| k != at && k != below ==> #[trigger] n.cells[k] == m.cells[k]
            &&& same_but(
                m,
                n,
                set![Register::Physical(SCRATCH0), Register::Physical(SCRATCH1)],
            )
        }),
{
    broadcast use {lemma_run_none, lemma_run_push, lemma_run_concat, lemma_with};

    let at = (m.regs[base] + offset) % wide();
    assert((at + 0) % wide() == at);
    if offset == 0 || super::lines::scaled_encodable(size, offset)
        || super::lines::unscaled_encodable(offset) {
    } else {
        match free_scratch(reg, base) {
            Some(scratch) => {
                lemma_add_offset(m, scratch, base, offset, scratch);
            },
            None => {
                lemma_bounced_store(m, size, reg, base, offset);
            },
        }
    }
}

proof fn lemma_bounced_store(
    m: Machine,
    size: RegisterSize,
    reg: Register,
    base: Register,
    offset: int,
)
    requires
        m.wf(),
        is_scratch(reg),
        is_scratch(base),
        reg != base,
        i64::MIN < offset <= i64::MAX,
    ensures
        ({
            let n = m.run(bounced_store_lines(size, reg, base, offset));
            let at = (m.regs[base] + offset) % wide();
            let below = (m.regs[Register::StackPointer] - SCRATCH_SPILL_SLOT) % wide();
            &&& n.cells.contains_key(at)
            &&& n.cells[at] == wrapped(size, m.regs[reg])
            &&& forall|k: int| k != at && k != below ==> #[trigger] n.cells[k] == m.cells[k]
            &&& same_but(
                m,
                n,
                set![Register::Physical(SCRATCH0), Register::Physical(SCRATCH1)],
            )
        }),
{
    broadcast use {lemma_run_none, lemma_run_push, lemma_run_concat, lemma_with};

    let sp = Register::StackPointer;
    let slot = SCRATCH_SPILL_SLOT as int;
    lemma_move_sp(m, InstBinOp::Sub);
    let a = m.run(sp_lines(InstBinOp::Sub, slot));
    assert(a.wf());
    let save = AsmLine::Mem { op: MemOp::Str, size, reg, base: sp, offset: 0 };
    let b = a.step(save);
    assert(a.run(seq![save]) == b);
    assert(b.wf());
    lemma_mov_imm(b, reg, RegisterSize::X64, magnitude(offset));
    let c = b.run(address_lines(reg, base, offset));
    assert(c.regs[reg] == (m.regs[base] + offset) % wide());
    let load = AsmLine::Mem { op: MemOp::Ldr, size, reg: base, base: sp, offset: 0 };
    let d = c.step(load);
    assert(c.run(seq![load]) == d);
    assert(d.regs[base] == wrapped(size, wrapped(size, m.regs[reg])));
    assert(d.wf());
    lemma_move_sp(d, InstBinOp::Add);
    let e = d.run(sp_lines(InstBinOp::Add, slot));
    assert(e.regs[sp] == m.regs[sp]) by {
        assert((m.regs[sp] - slot) % wide() + slot == m.regs[sp] || (m.regs[sp] - slot) % wide()
            + slot == m.regs[sp] + wide());
    }
    let store = AsmLine::Mem { op: MemOp::Str, size, reg: base, base: reg, offset: 0 };
    assert(e.run(seq![store]) == e.step(store));
    assert(m.run(bounced_store_lines(size, reg, base, offset)) == e.step(store));
}

/// An operation with an immediate that cannot be encoded computes with just
/// that immediate, and changes no other register but a scratch register.
pub proof fn lemma_via_scratch(
    m: Machine,
    op: InstBinOp,
    size: RegisterSize,
    dst: Register,
    lhs: Register,
    value: int,
)
    requires
        m.wf(),
        holds(dst),
        dst is Physical,
        holds(lhs),
        !(size is S32),
        0 <= value < wide(),
    ensures
        ({
            let n = m.run(via_scratch_lines(op, size, dst, lhs, value));
            &&& n.regs[dst] == wrapped(size, computed(op, m.regs[lhs], held(dst, size, value)))
            &&& same_but(
                m,
                n,
                set![dst, Register::Physical(SCRATCH0), Register::Physical(SCRATCH1)],
            )
            &&& n.cells == m.cells
        }),
{
    broadcast use {lemma_run_none, lemma_run_push, lemma_run_concat, lemma_with};

    let tmp = if dst != lhs {
        dst
    } else {
        other_scratch(dst)
    };
    lemma_mov_imm(m, tmp, size, value);
}

} // verus!
