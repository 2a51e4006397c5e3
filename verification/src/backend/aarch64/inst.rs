//! Instructions over virtual and physical registers.

use super::types::{
    Addr, AddrModel, Cond, FBinOp, InstBinOp, InstOperand, Register, RegisterSize,
};
use crate::common::graph::{label_positions, CfgNode};
use crate::common::names::NameMap;
use vstd::prelude::*;

verus! {

/// An instruction.
#[derive(Debug)]
pub enum Instruction {
    /// The start of a piece of code.
    Label(String),
    /// A move.
    Mov { size: RegisterSize, dst: Register, src: InstOperand },
    /// An operation on integers.
    BinOp { op: InstBinOp, size: RegisterSize, dst: Register, lhs: Register, rhs: InstOperand },
    /// An operation on single-precision numbers.
    FBinOp { op: FBinOp, dst: Register, lhs: Register, rhs: Register },
    /// A load.
    Ldr { size: RegisterSize, dst: Register, addr: Addr },
    /// A store.
    Str { size: RegisterSize, src: Register, addr: Addr },
    /// The computation of an address.
    Lea { dst: Register, addr: Addr },
    /// The computation of the address of an element.
    Gep { dst: Register, base: Register, index: InstOperand, scale: i64 },
    /// A comparison of integers.
    Cmp { size: RegisterSize, lhs: Register, rhs: InstOperand },
    /// A comparison of single-precision numbers.
    FCmp { lhs: Register, rhs: Register },
    /// The conversion of an integer to a single-precision number.
    Scvtf { dst: Register, src: Register },
    /// The conversion of a single-precision number to an integer.
    Fcvtzs { dst: Register, src: Register },
    /// A move of a single-precision number.
    Fmov { dst: Register, src: InstOperand },
    /// A jump.
    B { label: String },
    /// A jump under a condition.
    BCond { cond: Cond, label: String },
    /// A call.
    Bl { func: String },
    /// The registers that a call may change are saved.
    SaveCallerRegs,
    /// The registers that a call may change are restored.
    RestoreCallerRegs,
    /// The stack grows.
    SubSp { imm: i64 },
    /// The stack shrinks.
    AddSp { imm: i64 },
    /// The function returns.
    Ret,
}

/// The mathematical model of an [`Instruction`].
pub enum InstModel {
    Label(Seq<char>),
    Mov { size: RegisterSize, dst: Register, src: InstOperand },
    BinOp { op: InstBinOp, size: RegisterSize, dst: Register, lhs: Register, rhs: InstOperand },
    FBinOp { op: FBinOp, dst: Register, lhs: Register, rhs: Register },
    Ldr { size: RegisterSize, dst: Register, addr: AddrModel },
    Str { size: RegisterSize, src: Register, addr: AddrModel },
    Lea { dst: Register, addr: AddrModel },
    Gep { dst: Register, base: Register, index: InstOperand, scale: int },
    Cmp { size: RegisterSize, lhs: Register, rhs: InstOperand },
    FCmp { lhs: Register, rhs: Register },
    Scvtf { dst: Register, src: Register },
    Fcvtzs { dst: Register, src: Register },
    Fmov { dst: Register, src: InstOperand },
    B { label: Seq<char> },
    BCond { cond: Cond, label: Seq<char> },
    Bl { func: Seq<char> },
    SaveCallerRegs,
    RestoreCallerRegs,
    SubSp { imm: int },
    AddSp { imm: int },
    Ret,
}

impl View for Instruction {
    type V = InstModel;

    open spec fn view(&self) -> InstModel {
        match *self {
            Instruction::Label(name) => InstModel::Label(name@),
            Instruction::Mov { size, dst, src } => InstModel::Mov { size, dst, src },
            Instruction::BinOp { op, size, dst, lhs, rhs } => InstModel::BinOp { op, size, dst, lhs, rhs },
            Instruction::FBinOp { op, dst, lhs, rhs } => InstModel::FBinOp { op, dst, lhs, rhs },
            Instruction::Ldr { size, dst, addr } => InstModel::Ldr { size, dst, addr: addr@ },
            Instruction::Str { size, src, addr } => InstModel::Str { size, src, addr: addr@ },
            Instruction::Lea { dst, addr } => InstModel::Lea { dst, addr: addr@ },
            Instruction::Gep { dst, base, index, scale } => InstModel::Gep { dst, base, index, scale: scale as int },
            Instruction::Cmp { size, lhs, rhs } => InstModel::Cmp { size, lhs, rhs },
            Instruction::FCmp { lhs, rhs } => InstModel::FCmp { lhs, rhs },
            Instruction::Scvtf { dst, src } => InstModel::Scvtf { dst, src },
            Instruction::Fcvtzs { dst, src } => InstModel::Fcvtzs { dst, src },
            Instruction::Fmov { dst, src } => InstModel::Fmov { dst, src },
            Instruction::B { label } => InstModel::B { label: label@ },
            Instruction::BCond { cond, label } => InstModel::BCond { cond, label: label@ },
            Instruction::Bl { func } => InstModel::Bl { func: func@ },
            Instruction::SaveCallerRegs => InstModel::SaveCallerRegs,
            Instruction::RestoreCallerRegs => InstModel::RestoreCallerRegs,
            Instruction::SubSp { imm } => InstModel::SubSp { imm: imm as int },
            Instruction::AddSp { imm } => InstModel::AddSp { imm: imm as int },
            Instruction::Ret => InstModel::Ret,
        }
    }
}

impl Clone for Instruction {
    fn clone(&self) -> (copy: Self)
        ensures
            copy == *self,
    {
        match self {
            Instruction::Label(name) => Instruction::Label(name.clone()),
            Instruction::Mov { size, dst, src } => Instruction::Mov { size: *size, dst: *dst, src: *src },
            Instruction::BinOp { op, size, dst, lhs, rhs } => Instruction::BinOp { op: *op, size: *size, dst: *dst, lhs: *lhs, rhs: *rhs },
            Instruction::FBinOp { op, dst, lhs, rhs } => Instruction::FBinOp { op: *op, dst: *dst, lhs: *lhs, rhs: *rhs },
            Instruction::Ldr { size, dst, addr } => Instruction::Ldr { size: *size, dst: *dst, addr: addr.clone() },
            Instruction::Str { size, src, addr } => Instruction::Str { size: *size, src: *src, addr: addr.clone() },
            Instruction::Lea { dst, addr } => Instruction::Lea { dst: *dst, addr: addr.clone() },
            Instruction::Gep { dst, base, index, scale } => Instruction::Gep { dst: *dst, base: *base, index: *index, scale: *scale },
            Instruction::Cmp { size, lhs, rhs } => Instruction::Cmp { size: *size, lhs: *lhs, rhs: *rhs },
            Instruction::FCmp { lhs, rhs } => Instruction::FCmp { lhs: *lhs, rhs: *rhs },
            Instruction::Scvtf { dst, src } => Instruction::Scvtf { dst: *dst, src: *src },
            Instruction::Fcvtzs { dst, src } => Instruction::Fcvtzs { dst: *dst, src: *src },
            Instruction::Fmov { dst, src } => Instruction::Fmov { dst: *dst, src: *src },
            Instruction::B { label } => Instruction::B { label: label.clone() },
            Instruction::BCond { cond, label } => Instruction::BCond { cond: *cond, label: label.clone() },
            Instruction::Bl { func } => Instruction::Bl { func: func.clone() },
            Instruction::SaveCallerRegs => Instruction::SaveCallerRegs,
            Instruction::RestoreCallerRegs => Instruction::RestoreCallerRegs,
            Instruction::SubSp { imm } => Instruction::SubSp { imm: *imm },
            Instruction::AddSp { imm } => Instruction::AddSp { imm: *imm },
            Instruction::Ret => Instruction::Ret,
        }
    }
}

/// The models of a list of instructions.
pub open spec fn inst_models(insts: Seq<Instruction>) -> Seq<InstModel> {
    Seq::new(insts.len(), |i: int| insts[i]@)
}

/// The virtual register that `r` is, if it is one.
pub open spec fn reg_use(r: Register) -> Set<usize> {
    match r {
        Register::Virtual(v) => set![v],
        _ => Set::empty(),
    }
}

/// The virtual register in an operand.
pub open spec fn operand_use(op: InstOperand) -> Set<usize> {
    match op {
        InstOperand::Register(r) => reg_use(r),
        InstOperand::Immediate(_) => Set::empty(),
    }
}

/// The virtual register in an address.
pub open spec fn addr_use(a: AddrModel) -> Set<usize> {
    match a {
        AddrModel::BaseOff { base, .. } => reg_use(base),
        AddrModel::Global(_) => Set::empty(),
    }
}

impl InstModel {
    /// The virtual registers that the instruction reads.
    pub open spec fn uses(self) -> Set<usize> {
        match self {
            InstModel::Mov { src, .. } => operand_use(src),
            InstModel::BinOp { lhs, rhs, .. } => reg_use(lhs).union(operand_use(rhs)),
            InstModel::FBinOp { lhs, rhs, .. } => reg_use(lhs).union(reg_use(rhs)),
            InstModel::Ldr { addr, .. } => addr_use(addr),
            InstModel::Str { src, addr, .. } => reg_use(src).union(addr_use(addr)),
            InstModel::Lea { addr, .. } => addr_use(addr),
            InstModel::Gep { base, index, .. } => reg_use(base).union(operand_use(index)),
            InstModel::Cmp { lhs, rhs, .. } => reg_use(lhs).union(operand_use(rhs)),
            InstModel::FCmp { lhs, rhs } => reg_use(lhs).union(reg_use(rhs)),
            InstModel::Scvtf { src, .. } => reg_use(src),
            InstModel::Fcvtzs { src, .. } => reg_use(src),
            InstModel::Fmov { src, .. } => operand_use(src),
            _ => Set::empty(),
        }
    }

    /// The register that the instruction writes, with the width of what it
    /// writes.
    pub open spec fn target(self) -> Option<(Register, RegisterSize)> {
        match self {
            InstModel::Mov { size, dst, .. } => Some((dst, size)),
            InstModel::BinOp { size, dst, .. } => Some((dst, size)),
            InstModel::FBinOp { dst, .. } => Some((dst, RegisterSize::S32)),
            InstModel::Ldr { size, dst, .. } => Some((dst, size)),
            InstModel::Lea { dst, .. } => Some((dst, RegisterSize::X64)),
            InstModel::Gep { dst, .. } => Some((dst, RegisterSize::X64)),
            InstModel::Scvtf { dst, .. } => Some((dst, RegisterSize::S32)),
            InstModel::Fcvtzs { dst, .. } => Some((dst, RegisterSize::W32)),
            InstModel::Fmov { dst, .. } => Some((dst, RegisterSize::S32)),
            _ => None,
        }
    }

    /// The virtual register that the instruction writes, with its width.
    pub open spec fn def(self) -> Option<(usize, RegisterSize)> {
        match self.target() {
            Some((Register::Virtual(v), size)) => Some((v, size)),
            _ => None,
        }
    }
}

fn note(list: &mut Vec<usize>, v: usize)
    requires
        old(list)@.no_duplicates(),
    ensures
        final(list)@.no_duplicates(),
        final(list)@.to_set() == old(list)@.to_set().insert(v),
{
    let mut i: usize = 0;
    while i < list.len()
        invariant
            i <= list.len(),
            list@ == old(list)@,
            list@.no_duplicates(),
            forall|j: int| 0 <= j < i ==> #[trigger] list@[j] != v,
        decreases list.len() - i,
    {
        if list[i] == v {
            assert(list@.to_set().contains(v)) by {
                assert(list@[i as int] == v);
            }
            assert(list@.to_set().insert(v) =~= list@.to_set());
            return ;
        }
        i = i + 1;
    }
    let ghost before = list@;
    list.push(v);
    assert(list@.to_set() =~= before.to_set().insert(v)) by {
        assert forall|x: usize| before.to_set().insert(v).contains(x) implies #[trigger] list@.to_set().contains(
            x,
        ) by {
            if x == v {
                assert(list@[before.len() as int] == v);
            } else {
                let k = choose|k: int| 0 <= k < before.len() && before[k] == x;
                assert(list@[k] == x);
            }
        }
    }
}

fn note_reg(list: &mut Vec<usize>, r: &Register)
    requires
        old(list)@.no_duplicates(),
    ensures
        final(list)@.no_duplicates(),
        final(list)@.to_set() == old(list)@.to_set().union(reg_use(*r)),
{
    if let Register::Virtual(v) = r {
        note(list, *v);
    }
    assert(list@.to_set() =~= old(list)@.to_set().union(reg_use(*r)));
}

fn note_operand(list: &mut Vec<usize>, op: &InstOperand)
    requires
        old(list)@.no_duplicates(),
    ensures
        final(list)@.no_duplicates(),
        final(list)@.to_set() == old(list)@.to_set().union(operand_use(*op)),
{
    if let InstOperand::Register(r) = op {
        note_reg(list, r);
    }
    assert(list@.to_set() =~= old(list)@.to_set().union(operand_use(*op)));
}

fn note_addr(list: &mut Vec<usize>, addr: &Addr)
    requires
        old(list)@.no_duplicates(),
    ensures
        final(list)@.no_duplicates(),
        final(list)@.to_set() == old(list)@.to_set().union(addr_use(addr@)),
{
    if let Addr::BaseOff { base, .. } = addr {
        note_reg(list, base);
    }
    assert(list@.to_set() =~= old(list)@.to_set().union(addr_use(addr@)));
}

impl Instruction {
    /// The virtual registers that the instruction reads, each once.
    pub fn used_vregs(&self) -> (used: Vec<usize>)
        ensures
            used@.no_duplicates(),
            used@.to_set() == self@.uses(),
    {
        let mut used: Vec<usize> = Vec::new();
        match self {
            Instruction::Mov { src, .. } => note_operand(&mut used, src),
            Instruction::BinOp { lhs, rhs, .. } => {
                note_reg(&mut used, lhs);
                note_operand(&mut used, rhs);
            },
            Instruction::FBinOp { lhs, rhs, .. } => {
                note_reg(&mut used, lhs);
                note_reg(&mut used, rhs);
            },
            Instruction::Ldr { addr, .. } => note_addr(&mut used, addr),
            Instruction::Str { src, addr, .. } => {
                note_reg(&mut used, src);
                note_addr(&mut used, addr);
            },
            Instruction::Lea { addr, .. } => note_addr(&mut used, addr),
            Instruction::Gep { base, index, .. } => {
                note_reg(&mut used, base);
                note_operand(&mut used, index);
            },
            Instruction::Cmp { lhs, rhs, .. } => {
                note_reg(&mut used, lhs);
                note_operand(&mut used, rhs);
            },
            Instruction::FCmp { lhs, rhs } => {
                note_reg(&mut used, lhs);
                note_reg(&mut used, rhs);
            },
            Instruction::Scvtf { src, .. } => note_reg(&mut used, src),
            Instruction::Fcvtzs { src, .. } => note_reg(&mut used, src),
            Instruction::Fmov { src, .. } => note_operand(&mut used, src),
            _ => {},
        }
        assert(used@.to_set() =~= self@.uses());
        used
    }

    /// The virtual register that the instruction writes, with its width.
    pub fn defined_vreg_with_size(&self) -> (def: Option<(usize, RegisterSize)>)
        ensures
            def == self@.def(),
    {
        let (dst, size) = match self {
            Instruction::Mov { size, dst, .. } => (dst, *size),
            Instruction::BinOp { size, dst, .. } => (dst, *size),
            Instruction::FBinOp { dst, .. } => (dst, RegisterSize::S32),
            Instruction::Ldr { size, dst, .. } => (dst, *size),
            Instruction::Lea { dst, .. } => (dst, RegisterSize::X64),
            Instruction::Gep { dst, .. } => (dst, RegisterSize::X64),
            Instruction::Scvtf { dst, .. } => (dst, RegisterSize::S32),
            Instruction::Fcvtzs { dst, .. } => (dst, RegisterSize::W32),
            Instruction::Fmov { dst, .. } => (dst, RegisterSize::S32),
            _ => return None,
        };
        if let Register::Virtual(v) = dst {
            Some((*v, size))
        } else {
            None
        }
    }
}

/// The instruction that follows in the stream, if there is one.
pub open spec fn next_in_stream(idx: nat, num_nodes: nat) -> Seq<usize> {
    if idx + 1 < num_nodes {
        seq![(idx + 1) as usize]
    } else {
        Seq::empty()
    }
}

/// The instruction with the given label, if there is one.
pub open spec fn label_target(label: Seq<char>, labels: Map<Seq<char>, usize>) -> Seq<usize> {
    if labels.contains_key(label) {
        seq![labels[label]]
    } else {
        Seq::empty()
    }
}

impl InstModel {
    /// The label that the instruction sets.
    pub open spec fn label(self) -> Option<Seq<char>> {
        match self {
            InstModel::Label(name) => Some(name),
            _ => None,
        }
    }

    /// The positions of the instructions that may follow this one, which
    /// stands at position `idx`.
    pub open spec fn followers(
        self,
        idx: nat,
        num_nodes: nat,
        labels: Map<Seq<char>, usize>,
    ) -> Seq<usize> {
        match self {
            InstModel::Ret => Seq::empty(),
            InstModel::B { label } => label_target(label, labels),
            InstModel::BCond { label, .. } => label_target(label, labels) + next_in_stream(
                idx,
                num_nodes,
            ),
            _ => next_in_stream(idx, num_nodes),
        }
    }
}

/// The positions of the labels of the first `k` instructions; where a label
/// occurs more than once, its last position.
pub open spec fn inst_positions(insts: Seq<InstModel>, k: nat) -> Map<Seq<char>, usize>
    decreases k,
{
    if k == 0 {
        Map::empty()
    } else {
        let rest = inst_positions(insts, (k - 1) as nat);
        match insts[k - 1].label() {
            Some(l) => rest.insert(l, (k - 1) as usize),
            None => rest,
        }
    }
}

/// The positions of the labels depend on the models alone.
pub proof fn lemma_inst_positions(insts: Seq<Instruction>, k: nat)
    requires
        k <= insts.len(),
    ensures
        label_positions(insts, k) == inst_positions(inst_models(insts), k),
    decreases k,
{
    if k > 0 {
        lemma_inst_positions(insts, (k - 1) as nat);
    }
}

impl CfgNode for Instruction {
    open spec fn label_of(&self) -> Option<Seq<char>> {
        self@.label()
    }

    open spec fn resolvable(&self, labels: Map<Seq<char>, usize>) -> bool {
        true
    }

    open spec fn successors_of(
        &self,
        idx: nat,
        num_nodes: nat,
        labels: Map<Seq<char>, usize>,
    ) -> Seq<usize> {
        self@.followers(idx, num_nodes, labels)
    }

    proof fn lemma_successors_in_range(
        &self,
        idx: nat,
        num_nodes: nat,
        labels: Map<Seq<char>, usize>,
    ) {
    }

    fn label(&self) -> (label: Option<String>) {
        match self {
            Instruction::Label(name) => Some(name.clone()),
            _ => None,
        }
    }

    fn successors(&self, idx: usize, num_nodes: usize, label_map: &NameMap<usize>) -> (succs: Vec<
        usize,
    >) {
        let mut succs: Vec<usize> = Vec::new();
        let falls = match self {
            Instruction::Ret => false,
            Instruction::B { label } => {
                if let Some(target) = label_map.number_of(label.as_str()) {
                    succs.push(target);
                }
                false
            },
            Instruction::BCond { label, .. } => {
                if let Some(target) = label_map.number_of(label.as_str()) {
                    succs.push(target);
                }
                true
            },
            _ => true,
        };
        if falls && idx + 1 < num_nodes {
            succs.push(idx + 1);
        }
        assert(succs@ =~= self.successors_of(idx as nat, num_nodes as nat, label_map@));
        succs
    }
}

} // verus!
