//! Instruction selection for the body of a function.

use super::aapcs::{classified, classify_args, dtype_models, ArgumentLocation};
use super::frame::{outgoing_arg_addr, outgoing_stack_bytes, FrameLayout};
use super::inst::{inst_models, InstModel, Instruction};
use super::phi_lowering::{
    all_placed, can_plan, copy_models, find_ready_copy, first_ready, parsed_blocks, parsed_models,
    patched, pending_models, plan, plannable, same, same_operand, split_models, CopyModel,
    ParallelCopy, ParsedModel, SplitEdge, SplitModel,
};
use super::selection::{
    binop_of, biop_code, block_label, body_code, branch_label, by_address, call_code, call_left, cjump_code,
    comparison_code, cond_of, copies_code, copy_code, element_code, field_code, gep_code, imm,
    int_operand, int_register, is_terminator_model, label_code, last_terminator,
    lemma_rerouted_ready, load_code, local_vreg, offset_code, operand_left, pointer, pointer_code,
    ptr_addr, register_arg_code, register_args_code, register_args_left, rerouted, result_code, return_code,
    splits_code, stack_arg_code, stack_args_code, stack_args_left, stmt_code, stmt_fits, stmt_left, stmts_code, store_code,
    temporary, types_of, value_operand, vreg, Code, PtrModel, Setting,
};
use super::types::{Addr, Cond, InstBinOp, InstOperand, Register, RegisterSize, REG_IP0, REG_X0};
use crate::backend::common::layout::{size_fits, StructLayouts};
use crate::backend::common::stack::StackSlot;
use crate::backend::error::{plain, Error, ErrorModel};
use crate::common::target::Target;
use crate::common::text::{group_text, owned, usize_to_text};
use crate::ir::function::{block_models, stmt_models, BasicBlock, BlockLabel, BlockModel};
use crate::ir::stmt::{
    operand_models, option_model, ArithBinOp, BiOpStmt, CJumpStmt, CallStmt, CmpPredicate, CmpStmt,
    GepStmt, JumpStmt, LoadStmt, ReturnStmt, Stmt, StmtInner, StmtModel, StoreStmt,
};
use crate::ir::types::Dtype;
use crate::ir::value::{Local, LocalId, Operand, OperandModel};
use std::collections::HashMap;
use vstd::prelude::*;
use vstd::string::*;

verus! {

broadcast use group_text;

/// Where a pointer comes from.
#[derive(Debug)]
pub enum PtrBase {
    /// A slot of the frame.
    Stack(StackSlot),
    /// A symbol.
    Global(String),
    /// A register that holds the address.
    Register(usize),
}

impl View for PtrBase {
    type V = PtrModel;

    open spec fn view(&self) -> PtrModel {
        match *self {
            PtrBase::Stack(slot) => PtrModel::Stack(slot),
            PtrBase::Global(sym) => PtrModel::Global(sym@),
            PtrBase::Register(v) => PtrModel::Register(v),
        }
    }
}

/// Selects the instructions of one function.
pub struct AsmFunctionGenerator<'a> {
    func_id: &'a str,
    frame: &'a FrameLayout,
    layouts: &'a StructLayouts,
    target: Target,
    insts: Vec<Instruction>,
    next_vreg: usize,
    cond_map: HashMap<usize, Cond>,
}

/// The copies and statements of a block.
pub open spec fn block_work(body: Seq<StmtModel>, copies: Seq<CopyModel>) -> nat {
    body.len() + copies.len()
}

/// The number of statements and copies of the first `k` blocks.
pub open spec fn blocks_work(
    blocks: Seq<ParsedModel>,
    pending: Seq<Seq<CopyModel>>,
    k: nat,
) -> nat
    decreases k,
{
    if k == 0 {
        0
    } else {
        blocks_work(blocks, pending, (k - 1) as nat) + block_work(
            blocks[k - 1].body,
            pending[k - 1],
        )
    }
}

/// The number of copies of some new blocks, and of the blocks themselves.
pub open spec fn splits_work(splits: Seq<SplitModel>) -> nat
    decreases splits.len(),
{
    if splits.len() == 0 {
        0
    } else {
        splits_work(splits.drop_last()) + splits.last().copies.len() + 1
    }
}

/// The blocks of a function: each with its label, its statements and the
/// copies at its end.
pub open spec fn blocks_code(
    cx: Setting,
    code: Code,
    blocks: Seq<ParsedModel>,
    pending: Seq<Seq<CopyModel>>,
    k: nat,
) -> Result<Code, ErrorModel>
    decreases k,
{
    if k == 0 {
        Ok(code)
    } else {
        match blocks_code(cx, code, blocks, pending, (k - 1) as nat) {
            Err(e) => Err(e),
            Ok(c) => body_code(
                cx,
                label_code(cx, c, blocks[k - 1].label),
                blocks[k - 1].body,
                pending[k - 1],
            ),
        }
    }
}

/// The blocks of a function after it has left SSA form.
pub open spec fn lowered_blocks(blocks: Seq<BlockModel>) -> Seq<ParsedModel> {
    patched(parsed_blocks(blocks), all_placed(blocks).splits)
}

/// The instructions of a function.
pub open spec fn function_code(cx: Setting, code: Code, blocks: Seq<BlockModel>) -> Result<
    Code,
    ErrorModel,
> {
    match blocks_code(
        cx,
        code,
        lowered_blocks(blocks),
        all_placed(blocks).pending,
        blocks.len(),
    ) {
        Err(e) => Err(e),
        Ok(c) => splits_code(cx, c, all_placed(blocks).splits),
    }
}

/// Every local value that a copy writes has a number below `next`.
pub open spec fn copies_below(copies: Seq<CopyModel>, next: nat) -> bool {
    forall|i: int|
        0 <= i < copies.len() ==> ((#[trigger] copies[i]).dst matches OperandModel::Local(l)
            ==> l.id < next)
}

/// What a function must be for its instructions to be selected: its numbers
/// fit, and fresh registers are left.
pub open spec fn selectable(cx: Setting, next: nat, blocks: Seq<BlockModel>) -> bool {
    let placed = all_placed(blocks);
    let lowered = lowered_blocks(blocks);
    &&& plannable(blocks)
    &&& lowered.len() == blocks.len()
    &&& placed.pending.len() == blocks.len()
    &&& forall|b: int, i: int|
        0 <= b < lowered.len() && 0 <= i < lowered[b].body.len() ==> stmt_fits(
            cx,
            #[trigger] lowered[b].body[i],
        )
    &&& forall|b: int|
        0 <= b < placed.pending.len() ==> copies_below(#[trigger] placed.pending[b], next)
    &&& forall|i: int|
        0 <= i < placed.splits.len() ==> copies_below((#[trigger] placed.splits[i]).copies, next)
    &&& next + blocks_work(lowered, placed.pending, blocks.len()) + splits_work(placed.splits)
        <= usize::MAX
}

impl<'a> AsmFunctionGenerator<'a> {
    /// What the selection depends on.
    pub closed spec fn setting(&self) -> Setting {
        Setting {
            func: self.func_id@,
            allocas: self.frame.allocas(),
            layouts: self.layouts@,
            target: self.target,
        }
    }

    /// The instructions selected so far.
    pub closed spec fn code(&self) -> Code {
        Code {
            insts: inst_models(self.insts@),
            next: self.next_vreg as nat,
            conds: self.cond_map@,
        }
    }

    /// The tables are well formed.
    pub closed spec fn inv(&self) -> bool {
        self.frame.wf() && self.layouts.wf()
    }

    /// The step from `before` did what `want` says.
    pub open spec fn did(
        &self,
        before: &Self,
        r: Result<(), Error>,
        want: Result<Code, ErrorModel>,
    ) -> bool {
        &&& self.setting() == before.setting()
        &&& self.inv()
        &&& match r {
            Ok(_) => want == Ok::<Code, ErrorModel>(self.code()),
            Err(e) => want == Err::<Code, ErrorModel>(e@),
        }
    }

    /// The step from `before` did what `want` says, or left `left` when it
    /// failed.
    pub open spec fn did_or_left(
        &self,
        before: &Self,
        r: Result<(), Error>,
        want: Result<Code, ErrorModel>,
        left: Code,
    ) -> bool {
        &&& self.did(before, r, want)
        &&& r is Err ==> self.code() == left
    }

    /// A generator that has selected nothing.
    pub fn new(
        func_id: &'a str,
        frame: &'a FrameLayout,
        layouts: &'a StructLayouts,
        target: Target,
        next_vreg: usize,
    ) -> (g: Self)
        requires
            frame.wf(),
            layouts.wf(),
        ensures
            g.inv(),
            g.setting() == (Setting {
                func: func_id@,
                allocas: frame.allocas(),
                layouts: layouts@,
                target,
            }),
            g.code() == (Code {
                insts: Seq::empty(),
                next: next_vreg as nat,
                conds: Map::empty(),
            }),
    {
        let g = AsmFunctionGenerator {
            func_id,
            frame,
            layouts,
            target,
            insts: Vec::new(),
            next_vreg,
            cond_map: HashMap::new(),
        };
        assert(g.code() =~= (Code {
            insts: Seq::empty(),
            next: next_vreg as nat,
            conds: Map::empty(),
        }));
        g
    }

    fn put(&mut self, inst: Instruction)
        requires
            old(self).inv(),
        ensures
            final(self).inv(),
            final(self).setting() == old(self).setting(),
            final(self).code() == old(self).code().put(inst@),
    {
        let ghost start = self.code();
        self.insts.push(inst);
        assert(self.code() =~= start.put(inst@));
    }

    /// Whether what the selection for a statement computes fits in 64 bits.
    fn is_stmt_fitting(&self, stmt: &Stmt) -> (b: bool)
        requires
            self.inv(),
        ensures
            b == stmt_fits(self.setting(), stmt@),
    {
        match &stmt.inner {
            StmtInner::Gep(s) => {
                proof {
                    reveal_with_fuel(Dtype::model, 3);
                }
                match s.base_ptr.dtype() {
                    Dtype::Pointer { pointee } => match &**pointee {
                        Dtype::Struct { .. } => !s.new_ptr.dtype().same(s.base_ptr.dtype())
                            || self.layouts.size_fits_for(pointee),
                        Dtype::Array { element, .. } => self.layouts.size_fits_for(element),
                        _ => self.layouts.size_fits_for(pointee),
                    },
                    Dtype::Array { element, .. } => self.layouts.size_fits_for(element),
                    other => self.layouts.size_fits_for(other),
                }
            },
            StmtInner::Call(s) => s.args.len() as i128 * 8 + 16 <= i64::MAX as i128,
            _ => true,
        }
    }

    /// Whether every local value that a copy writes has a number below `next`.
    fn are_copies_below(copies: &Vec<ParallelCopy>, next: usize) -> (b: bool)
        ensures
            b == copies_below(copy_models(copies@), next as nat),
    {
        let ghost models = copy_models(copies@);
        let mut i: usize = 0;
        while i < copies.len()
            invariant
                i <= copies.len(),
                models == copy_models(copies@),
                forall|k: int|
                    0 <= k < i ==> ((#[trigger] models[k]).dst matches OperandModel::Local(l)
                        ==> l.id < next),
            decreases copies.len() - i,
        {
            assert(models[i as int].dst == copies@[i as int].dst@);
            if let Operand::Local(l) = &copies[i].dst {
                if l.id.0 >= next {
                    return false;
                }
            }
            i = i + 1;
        }
        true
    }

    /// Whether the instructions of a function can be selected.
    pub fn can_generate(&self, blocks: &[BasicBlock]) -> (b: bool)
        requires
            self.inv(),
        ensures
            b == selectable(self.setting(), self.code().next, block_models(blocks@)),
    {
        if !can_plan(blocks) {
            return false;
        }
        let p = plan(blocks);
        let ghost cx = self.setting();
        let ghost lowered = lowered_blocks(block_models(blocks@));
        let ghost placed = all_placed(block_models(blocks@));
        if p.blocks.len() != blocks.len() || p.pending_inserts.len() != blocks.len() {
            return false;
        }
        assert(parsed_models(p.blocks@) == lowered);
        assert(pending_models(p.pending_inserts@) == placed.pending);
        let mut work: usize = self.next_vreg;
        let mut b: usize = 0;
        while b < blocks.len()
            invariant
                b <= blocks.len(),
                self.inv(),
                cx == self.setting(),
                lowered == lowered_blocks(block_models(blocks@)),
                placed == all_placed(block_models(blocks@)),
                p.blocks.len() == blocks.len(),
                p.pending_inserts.len() == blocks.len(),
                parsed_models(p.blocks@) == lowered,
                pending_models(p.pending_inserts@) == placed.pending,
                work == self.next_vreg + blocks_work(lowered, placed.pending, b as nat),
                forall|k: int, i: int|
                    0 <= k < b && 0 <= i < lowered[k].body.len() ==> stmt_fits(
                        cx,
                        #[trigger] lowered[k].body[i],
                    ),
                forall|k: int|
                    0 <= k < b ==> copies_below(
                        #[trigger] placed.pending[k],
                        self.next_vreg as nat,
                    ),
            decreases blocks.len() - b,
        {
            assert(lowered[b as int] == p.blocks@[b as int]@);
            assert(placed.pending[b as int] == copy_models(p.pending_inserts@[b as int]@));
            let body = &p.blocks[b].body;
            let mut i: usize = 0;
            while i < body.len()
                invariant
                    i <= body.len(),
                    self.inv(),
                    cx == self.setting(),
                    lowered == lowered_blocks(block_models(blocks@)),
                    b < lowered.len(),
                    lowered[b as int].body == stmt_models(body@),
                    forall|k: int|
                        0 <= k < i ==> stmt_fits(cx, #[trigger] lowered[b as int].body[k]),
                decreases body.len() - i,
            {
                assert(lowered[b as int].body[i as int] == body@[i as int]@);
                if !self.is_stmt_fitting(&body[i]) {
                    assert(!stmt_fits(cx, lowered[b as int].body[i as int]));
                    return false;
                }
                i = i + 1;
            }
            let copies = &p.pending_inserts[b];
            if !Self::are_copies_below(copies, self.next_vreg) {
                assert(!copies_below(placed.pending[b as int], self.code().next));
                return false;
            }
            proof {
                lemma_blocks_work_grows(
                    lowered,
                    placed.pending,
                    blocks@.len(),
                    (b + 1) as nat,
                );
            }
            if work > usize::MAX - body.len() || work + body.len() > usize::MAX - copies.len() {
                return false;
            }
            work = work + body.len() + copies.len();
            b = b + 1;
        }
        let ghost splits = placed.splits;
        assert(split_models(p.splits@) == splits);
        assert(splits.take(0) =~= Seq::empty());
        let ghost before = work;
        assert(before == self.next_vreg + blocks_work(lowered, placed.pending, blocks@.len()));
        let mut k: usize = 0;
        while k < p.splits.len()
            invariant
                k <= p.splits.len(),
                placed == all_placed(block_models(blocks@)),
                lowered == lowered_blocks(block_models(blocks@)),
                splits == placed.splits,
                split_models(p.splits@) == splits,
                before == self.next_vreg + blocks_work(lowered, placed.pending, blocks@.len()),
                work == before + splits_work(splits.take(k as int)),
                forall|i: int|
                    0 <= i < k ==> copies_below(
                        (#[trigger] splits[i]).copies,
                        self.next_vreg as nat,
                    ),
            decreases p.splits.len() - k,
        {
            assert(splits[k as int] == p.splits@[k as int]@);
            assert(splits.take(k + 1).drop_last() =~= splits.take(k as int));
            assert(splits.take(k + 1).last() == splits[k as int]);
            proof {
                lemma_splits_work_grows(splits, k + 1);
            }
            let copies = &p.splits[k].copies;
            if !Self::are_copies_below(copies, self.next_vreg) {
                assert(!copies_below(splits[k as int].copies, self.code().next));
                return false;
            }
            if work == usize::MAX || work + 1 > usize::MAX - copies.len() {
                return false;
            }
            work = work + copies.len() + 1;
            k = k + 1;
        }
        assert(splits.take(k as int) =~= splits);
        true
    }

    /// Selects the instructions of a function.
    pub fn generate(self, blocks: &[BasicBlock]) -> (r: Result<Vec<Instruction>, Error>)
        requires
            self.inv(),
            selectable(self.setting(), self.code().next, block_models(blocks@)),
        ensures
            match r {
                Ok(v) => function_code(self.setting(), self.code(), block_models(blocks@)) matches Ok(c)
                    && inst_models(v@) == c.insts,
                Err(e) => function_code(self.setting(), self.code(), block_models(blocks@)) == Err::<
                    Code,
                    ErrorModel,
                >(e@),
            },
    {
        let mut g = self;
        let p = plan(blocks);
        let ghost cx = self.setting();
        let ghost start = self.code();
        let ghost lowered = lowered_blocks(block_models(blocks@));
        let ghost placed = all_placed(block_models(blocks@));
        proof {
            assert(super::phi_lowering::parsed_models(p.blocks@).len() == blocks.len());
            assert(pending_models(p.pending_inserts@).len() == blocks.len());
            lemma_blocks_work_grows(lowered, placed.pending, blocks@.len(), 0);
        }
        let mut b: usize = 0;
        while b < p.blocks.len()
            invariant
                b <= p.blocks.len(),
                p.blocks.len() == blocks.len(),
                p.pending_inserts.len() == blocks.len(),
                lowered == lowered_blocks(block_models(blocks@)),
                placed == all_placed(block_models(blocks@)),
                cx == self.setting(),
                start == self.code(),
                super::phi_lowering::parsed_models(p.blocks@) == lowered,
                pending_models(p.pending_inserts@) == placed.pending,
                g.inv(),
                g.setting() == cx,
                selectable(cx, start.next, block_models(blocks@)),
                start.next <= g.code().next <= start.next + blocks_work(
                    lowered,
                    placed.pending,
                    b as nat,
                ),
                blocks_code(cx, start, lowered, placed.pending, b as nat) == Ok::<
                    Code,
                    ErrorModel,
                >(g.code()),
            decreases p.blocks.len() - b,
        {
            proof {
                assert(super::phi_lowering::parsed_models(p.blocks@)[b as int]
                    == p.blocks@[b as int]@);
                assert(pending_models(p.pending_inserts@)[b as int] == copy_models(
                    p.pending_inserts@[b as int]@,
                ));
                assert(copies_below(placed.pending[b as int], start.next));
                lemma_blocks_work_grows(lowered, placed.pending, blocks@.len(), (b + 1) as nat);
                assert forall|i: int| 0 <= i < lowered[b as int].body.len() implies stmt_fits(
                    cx,
                    #[trigger] stmt_models(p.blocks@[b as int].body@)[i],
                ) by {
                    assert(lowered[b as int].body[i] == stmt_models(
                        p.blocks@[b as int].body@,
                    )[i]);
                }
            }
            g.emit_label(&p.blocks[b].label);
            match g.emit_block_body(&p.blocks[b].body, &p.pending_inserts[b]) {
                Ok(_) => {},
                Err(e) => {
                    proof {
                        lemma_blocks_code_stops(
                            cx,
                            start,
                            lowered,
                            placed.pending,
                            blocks@.len(),
                            (b + 1) as nat,
                        );
                    }
                    return Err(e);
                },
            }
            b = b + 1;
        }
        match g.emit_split_edges(&p.splits) {
            Ok(_) => Ok(g.insts),
            Err(e) => Err(e),
        }
    }

    fn emit_stmts(&mut self, body: &Vec<Stmt>, from: usize, to: usize) -> (r: Result<(), Error>)
        requires
            old(self).inv(),
            from <= to <= body.len(),
            old(self).code().next + (to - from) <= usize::MAX,
            forall|i: int|
                from <= i < to ==> stmt_fits(
                    old(self).setting(),
                    #[trigger] stmt_models(body@)[i],
                ),
        ensures
            final(self).did(
                old(self),
                r,
                stmts_code(
                    old(self).setting(),
                    old(self).code(),
                    stmt_models(body@).subrange(from as int, to as int),
                ),
            ),
            old(self).code().next <= final(self).code().next <= old(self).code().next + (to
                - from),
    {
        let ghost cx = self.setting();
        let ghost start = self.code();
        let ghost all = stmt_models(body@);
        let ghost part = all.subrange(from as int, to as int);
        let mut i: usize = from;
        assert(part.take(0) =~= Seq::empty());
        while i < to
            invariant
                from <= i <= to,
                to <= body.len(),
                all == stmt_models(body@),
                part == all.subrange(from as int, to as int),
                self.inv(),
                self.setting() == cx,
                cx == old(self).setting(),
                start == old(self).code(),
                start.next + (to - from) <= usize::MAX,
                start.next <= self.code().next <= start.next + (i - from),
                forall|k: int| from <= k < to ==> stmt_fits(cx, #[trigger] all[k]),
                stmts_code(cx, start, part.take(i - from)) == Ok::<Code, ErrorModel>(self.code()),
            decreases to - i,
        {
            assert(part.take(i - from + 1).drop_last() =~= part.take(i - from));
            assert(part.take(i - from + 1).last() == all[i as int]);
            match self.emit_stmt(&body[i]) {
                Ok(_) => {},
                Err(e) => {
                    proof {
                        lemma_stmts_code_stops(cx, start, part, i - from + 1);
                    }
                    return Err(e);
                },
            }
            i = i + 1;
        }
        assert(part.take(i - from) =~= part);
        Ok(())
    }

    /// Puts the copies before the last statement that leaves the block.
    fn emit_block_body(&mut self, body: &Vec<Stmt>, edge_copies: &Vec<ParallelCopy>) -> (r: Result<
        (),
        Error,
    >)
        requires
            old(self).inv(),
            old(self).code().next + block_work(
                stmt_models(body@),
                copy_models(edge_copies@),
            ) <= usize::MAX,
            copies_below(copy_models(edge_copies@), old(self).code().next),
            forall|i: int|
                0 <= i < body.len() ==> stmt_fits(
                    old(self).setting(),
                    #[trigger] stmt_models(body@)[i],
                ),
        ensures
            final(self).did(
                old(self),
                r,
                body_code(
                    old(self).setting(),
                    old(self).code(),
                    stmt_models(body@),
                    copy_models(edge_copies@),
                ),
            ),
            old(self).code().next <= final(self).code().next <= old(self).code().next
                + block_work(stmt_models(body@), copy_models(edge_copies@)),
    {
        let ghost all = stmt_models(body@);
        let mut pos: usize = body.len();
        let mut found = false;
        assert(all.take(pos as int) =~= all);
        while pos > 0 && !found
            invariant
                pos <= body.len(),
                all == stmt_models(body@),
                !found ==> last_terminator(all) == last_terminator(all.take(pos as int)),
                found ==> last_terminator(all) == Some(pos as nat) && pos < body.len(),
            decreases pos,
        {
            assert(all.take(pos as int).drop_last() =~= all.take(pos - 1));
            assert(all.take(pos as int).last() == body@[pos - 1]@);
            pos = pos - 1;
            if is_terminator(&body[pos]) {
                found = true;
            }
        }
        if !found {
            pos = body.len();
        }
        assert(all.subrange(0, pos as int) =~= all.take(pos as int));
        assert(all.subrange(pos as int, all.len() as int) =~= all.skip(pos as int));
        self.emit_stmts(body, 0, pos)?;
        self.emit_parallel_copies(edge_copies)?;
        self.emit_stmts(body, pos, body.len())
    }

    fn emit_split_edges(&mut self, splits: &Vec<SplitEdge>) -> (r: Result<(), Error>)
        requires
            old(self).inv(),
            old(self).code().next + splits_work(split_models(splits@)) <= usize::MAX,
            forall|i: int|
                0 <= i < splits.len() ==> copies_below(
                    (#[trigger] split_models(splits@)[i]).copies,
                    old(self).code().next,
                ),
        ensures
            final(self).did(
                old(self),
                r,
                splits_code(old(self).setting(), old(self).code(), split_models(splits@)),
            ),
    {
        let ghost cx = self.setting();
        let ghost start = self.code();
        let ghost all = split_models(splits@);
        let mut i: usize = 0;
        assert(all.take(0) =~= Seq::empty());
        while i < splits.len()
            invariant
                i <= splits.len(),
                all == split_models(splits@),
                self.inv(),
                self.setting() == cx,
                cx == old(self).setting(),
                start == old(self).code(),
                start.next + splits_work(all) <= usize::MAX,
                start.next <= self.code().next <= start.next + splits_work(all.take(i as int)),
                forall|k: int|
                    0 <= k < splits.len() ==> copies_below((#[trigger] all[k]).copies, start.next),
                splits_code(cx, start, all.take(i as int)) == Ok::<Code, ErrorModel>(self.code()),
            decreases splits.len() - i,
        {
            proof {
                assert(all.take(i + 1).drop_last() =~= all.take(i as int));
                assert(all.take(i + 1).last() == all[i as int]);
                assert(all[i as int] == splits@[i as int]@);
                lemma_splits_work_grows(all, i + 1);
            }
            self.emit_label(&splits[i].label);
            match self.emit_parallel_copies(&splits[i].copies) {
                Ok(_) => {},
                Err(e) => {
                    proof {
                        lemma_splits_code_stops(cx, start, all, i + 1);
                    }
                    return Err(e);
                },
            }
            let jump = Stmt::as_jump(splits[i].succ_label.clone());
            match self.emit_stmt(&jump) {
                Ok(_) => {},
                Err(e) => {
                    proof {
                        lemma_splits_code_stops(cx, start, all, i + 1);
                    }
                    return Err(e);
                },
            }
            i = i + 1;
        }
        assert(all.take(i as int) =~= all);
        Ok(())
    }

    /// Puts copies that run in parallel one after the other.
    fn emit_parallel_copies(&mut self, copies: &Vec<ParallelCopy>) -> (r: Result<(), Error>)
        requires
            old(self).inv(),
            old(self).code().next + copies.len() <= usize::MAX,
            copies_below(copy_models(copies@), old(self).code().next),
        ensures
            final(self).did(
                old(self),
                r,
                copies_code(old(self).code(), copy_models(copies@)),
            ),
            old(self).code().next <= final(self).code().next <= old(self).code().next
                + copies.len(),
    {
        let ghost start = self.code();
        let ghost all = copy_models(copies@);
        let mut pending: Vec<ParallelCopy> = Vec::new();
        let mut i: usize = 0;
        while i < copies.len()
            invariant
                i <= copies.len(),
                pending.len() == i,
                forall|k: int| 0 <= k < i ==> #[trigger] pending@[k] == copies@[k],
            decreases copies.len() - i,
        {
            pending.push(copies[i].clone());
            i = i + 1;
        }
        assert(copy_models(pending@) =~= all);
        while pending.len() > 0
            invariant
                self.inv(),
                self.setting() == old(self).setting(),
                start == old(self).code(),
                all == copy_models(copies@),
                start.next <= self.code().next,
                self.code().next + pending.len() <= start.next + copies.len() + if first_ready(
                    copy_models(pending@),
                    0,
                ) is Some {
                    1int
                } else {
                    0
                },
                start.next + copies.len() <= usize::MAX,
                copies_below(copy_models(pending@), self.code().next),
                copies_code(start, all) == copies_code(self.code(), copy_models(pending@)),
            decreases
                    pending.len(),
                    if first_ready(copy_models(pending@), 0) is Some {
                        0int
                    } else {
                        1int
                    },
        {
            let ghost models = copy_models(pending@);
            let ghost before_code = self.code();
            if let Some(idx) = find_ready_copy(&pending) {
                let copy = pending.remove(idx);
                assert(copy_models(pending@) =~= models.remove(idx as int));
                assert(copy@ == models[idx as int]);
                assert(copies_below(copy_models(pending@), self.code().next)) by {
                    assert forall|k: int| 0 <= k < pending@.len() implies ((
                    #[trigger] copy_models(pending@)[k]).dst matches OperandModel::Local(l)
                        ==> l.id < self.code().next) by {
                        let j = if k < idx {
                            k
                        } else {
                            k + 1
                        };
                        assert(models.remove(idx as int)[k] == models[j]);
                    }
                }
                self.emit_copy(&copy.dst, &copy.src)?;
            } else {
                let cycle_dst = pending[0].dst.clone();
                let id: usize = self.fresh_vreg();
                let temp = Operand::Local(Local::new(cycle_dst.dtype().clone(), LocalId(id)));
                self.emit_copy(&temp, &cycle_dst)?;
                assert(models[0].dst == cycle_dst@);
                assert(temp@ == temporary(before_code, cycle_dst@.ty()));
                reroute(&mut pending, &cycle_dst, &temp);
                proof {
                    lemma_rerouted_ready(models, temp@);
                    assert forall|k: int| 0 <= k < pending@.len() implies ((
                    #[trigger] copy_models(pending@)[k]).dst matches OperandModel::Local(l)
                        ==> l.id < self.code().next) by {
                        assert(copy_models(pending@)[k].dst == models[k].dst);
                    }
                }
            }
        }
        assert(copy_models(pending@) =~= Seq::empty());
        Ok(())
    }

    /// Takes a fresh register.
    pub fn fresh_vreg(&mut self) -> (v: usize)
        requires
            old(self).inv(),
            old(self).code().next < usize::MAX,
        ensures
            final(self).inv(),
            final(self).setting() == old(self).setting(),
            final(self).code() == old(self).code().taken(),
            v == old(self).code().next,
    {
        let v: usize = self.next_vreg;
        self.next_vreg = v + 1;
        v
    }

    /// Puts the label of a block.
    pub fn emit_label(&mut self, label: &BlockLabel)
        requires
            old(self).inv(),
        ensures
            final(self).inv(),
            final(self).setting() == old(self).setting(),
            final(self).code() == label_code(old(self).setting(), old(self).code(), label@),
    {
        if let BlockLabel::BasicBlock(n) = label {
            let name = mangle_bb(self.func_id, *n);
            self.put(Instruction::Label(name));
        }
    }

    /// A store.
    pub fn emit_store(&mut self, s: &StoreStmt) -> (r: Result<(), Error>)
        requires
            old(self).inv(),
            old(self).code().next < usize::MAX,
        ensures
            final(self).did_or_left(
                old(self),
                r,
                store_code(old(self).setting(), old(self).code(), s.src@, s.ptr@),
                old(self).code(),
            ),
            old(self).code().next <= final(self).code().next <= old(self).code().next + 1,
    {
        let (src, size) = self.lower_value(&s.src)?;
        let addr = self.lower_ptr_as_addr(&s.ptr)?;
        match src {
            InstOperand::Register(r) => {
                self.put(Instruction::Str { size, src: r, addr });
            },
            InstOperand::Immediate(_) => {
                let ghost start = self.code();
                let tmp: usize = self.fresh_vreg();
                self.put(Instruction::Mov { size, dst: Register::Virtual(tmp), src });
                self.put(Instruction::Str { size, src: Register::Virtual(tmp), addr });
                assert(self.code() =~= store_code(
                    old(self).setting(),
                    start,
                    s.src@,
                    s.ptr@,
                )->Ok_0);
            },
        }
        Ok(())
    }

    /// A load.
    pub fn emit_load(&mut self, s: &LoadStmt) -> (r: Result<(), Error>)
        requires
            old(self).inv(),
        ensures
            final(self).did_or_left(
                old(self),
                r,
                load_code(old(self).setting(), old(self).code(), s.dst@, s.ptr@),
                old(self).code(),
            ),
            final(self).code().next == old(self).code().next,
    {
        let dst: usize = Self::operand_vreg(&s.dst)?;
        let size = RegisterSize::try_from(s.dst.dtype())?;
        let addr = self.lower_ptr_as_addr(&s.ptr)?;
        self.put(Instruction::Ldr { size, dst: Register::Virtual(dst), addr });
        Ok(())
    }

    /// An arithmetic operation.
    pub fn emit_biop(&mut self, s: &BiOpStmt) -> (r: Result<(), Error>)
        requires
            old(self).inv(),
            old(self).code().next < usize::MAX,
        ensures
            final(self).did_or_left(
                old(self),
                r,
                biop_code(
                    old(self).setting(),
                    old(self).code(),
                    s.kind,
                    s.left@,
                    s.right@,
                    s.dst@,
                ),
                operand_left(old(self).setting(), old(self).code(), s.left@, s.dst@),
            ),
            old(self).code().next <= final(self).code().next <= old(self).code().next + 1,
    {
        let dst: usize = Self::operand_vreg(&s.dst)?;
        let lhs = self.lower_int_to_reg(&s.left)?;
        let rhs = self.lower_int(&s.right)?;
        let op = arith_op_to_binop(&s.kind);
        self.put(
            Instruction::BinOp {
                op,
                size: RegisterSize::W32,
                dst: Register::Virtual(dst),
                lhs,
                rhs,
            },
        );
        Ok(())
    }

    /// A comparison.
    pub fn emit_cmp(&mut self, s: &CmpStmt) -> (r: Result<(), Error>)
        requires
            old(self).inv(),
            old(self).code().next < usize::MAX,
        ensures
            final(self).did_or_left(
                old(self),
                r,
                comparison_code(
                    old(self).setting(),
                    old(self).code(),
                    s.kind,
                    s.left@,
                    s.right@,
                    s.dst@,
                ),
                operand_left(old(self).setting(), old(self).code(), s.left@, s.dst@),
            ),
            old(self).code().next <= final(self).code().next <= old(self).code().next + 1,
    {
        let dst: usize = Self::operand_vreg(&s.dst)?;
        let lhs = self.lower_int_to_reg(&s.left)?;
        let rhs = self.lower_int(&s.right)?;
        let cond = cmp_op_to_cond(&s.kind);
        let ghost mid = self.code();
        self.cond_map.insert(dst, cond);
        let ghost noted = self.code();
        assert(noted =~= (Code {
            insts: mid.insts,
            next: mid.next,
            conds: mid.conds.insert(dst, cond),
        }));
        self.put(Instruction::Cmp { size: RegisterSize::W32, lhs, rhs });
        Ok(())
    }

    /// A conditional branch.
    pub fn emit_cjump(&mut self, s: &CJumpStmt) -> (r: Result<(), Error>)
        requires
            old(self).inv(),
        ensures
            final(self).did_or_left(
                old(self),
                r,
                cjump_code(
                    old(self).setting(),
                    old(self).code(),
                    s.cond@,
                    s.true_label@,
                    s.false_label@,
                ),
                old(self).code(),
            ),
            final(self).code().next == old(self).code().next,
    {
        let cond_v: usize = Self::operand_vreg(&s.cond)?;
        let cond = match self.cond_map.get(&cond_v) {
            Some(c) => *c,
            None => return Err(Error::MissingCond { vreg: cond_v }),
        };
        let true_label = self.mangle_block_label(&s.true_label);
        let false_label = self.mangle_block_label(&s.false_label);
        self.put(Instruction::BCond { cond, label: true_label });
        self.put(Instruction::B { label: false_label });
        Ok(())
    }

    /// A branch.
    pub fn emit_jump(&mut self, s: &JumpStmt)
        requires
            old(self).inv(),
        ensures
            final(self).did(
                old(self),
                Ok(()),
                stmt_code(
                    old(self).setting(),
                    old(self).code(),
                    StmtModel::Jump { target: s.target@ },
                ),
            ),
            final(self).code().next == old(self).code().next,
    {
        let target = self.mangle_block_label(&s.target);
        self.put(Instruction::B { label: target });
    }

    /// The computation of an address.
    pub fn emit_gep(&mut self, s: &GepStmt) -> (r: Result<(), Error>)
        requires
            old(self).inv(),
            stmt_fits(
                old(self).setting(),
                StmtModel::Gep { new_ptr: s.new_ptr@, base_ptr: s.base_ptr@, index: s.index@ },
            ),
        ensures
            final(self).did_or_left(
                old(self),
                r,
                gep_code(
                    old(self).setting(),
                    old(self).code(),
                    s.new_ptr@,
                    s.base_ptr@,
                    s.index@,
                ),
                old(self).code(),
            ),
            final(self).code().next == old(self).code().next,
    {
        proof {
            reveal_with_fuel(Dtype::model, 3);
        }
        let new_ptr: usize = Self::operand_vreg(&s.new_ptr)?;
        let base = self.lower_ptr(&s.base_ptr)?;
        match s.base_ptr.dtype() {
            Dtype::Pointer { pointee } => match &**pointee {
                Dtype::Struct { name } => {
                    if !s.new_ptr.dtype().same(s.base_ptr.dtype()) {
                        self.emit_gep_struct(new_ptr, &s.index, name.as_str(), base)
                    } else {
                        self.emit_gep_array(new_ptr, &s.index, pointee, base)
                    }
                },
                Dtype::Array { element, .. } => self.emit_gep_array(
                    new_ptr,
                    &s.index,
                    element,
                    base,
                ),
                _ => self.emit_gep_array(new_ptr, &s.index, pointee, base),
            },
            Dtype::Array { element, .. } => self.emit_gep_array(new_ptr, &s.index, element, base),
            other => Err(Error::UnsupportedDtype { dtype: other.clone() }),
        }
    }

    /// A call.
    pub fn emit_call(&mut self, s: &CallStmt) -> (r: Result<(), Error>)
        requires
            old(self).inv(),
            s.args.len() * 8 + 16 <= i64::MAX,
        ensures
            final(self).did_or_left(
                old(self),
                r,
                call_code(
                    old(self).setting(),
                    old(self).code(),
                    s.func_name@,
                    option_model(s.res),
                    operand_models(s.args@),
                ),
                call_left(
                    old(self).setting(),
                    old(self).code(),
                    s.func_name@,
                    operand_models(s.args@),
                ),
            ),
            final(self).code().next == old(self).code().next,
    {
        let ghost args = operand_models(s.args@);
        let locs = Self::argument_locations(&s.args)?;
        proof {
            super::aapcs::lemma_classified(types_of(args));
        }
        let stack_bytes: i64 = outgoing_stack_bytes(&locs);
        self.put(Instruction::SaveCallerRegs);
        if stack_bytes > 0 {
            self.put(Instruction::SubSp { imm: stack_bytes });
        }
        self.emit_stack_args(&s.args, &locs)?;
        self.emit_register_args(&s.args, &locs)?;
        let func_name = self.target.mangle_symbol(s.func_name.as_str());
        self.put(Instruction::Bl { func: func_name });
        if stack_bytes > 0 {
            self.put(Instruction::AddSp { imm: stack_bytes });
        }
        self.put(Instruction::RestoreCallerRegs);
        match &s.res {
            None => Ok(()),
            Some(Operand::Local(local)) => self.emit_call_result(local),
            Some(_) => Err(Error::Internal(owned("call result must be a local operand"))),
        }
    }

    fn argument_locations(args: &Vec<Operand>) -> (r: Result<Vec<ArgumentLocation>, Error>)
        requires
            args.len() * 8 + 16 <= i64::MAX,
        ensures
            match r {
                Ok(locs) => classified(types_of(operand_models(args@))) == Ok::<
                    Seq<ArgumentLocation>,
                    ErrorModel,
                >(locs@),
                Err(e) => classified(types_of(operand_models(args@))) == Err::<
                    Seq<ArgumentLocation>,
                    ErrorModel,
                >(e@),
            },
    {
        let mut dtypes: Vec<&Dtype> = Vec::new();
        let mut i: usize = 0;
        while i < args.len()
            invariant
                i <= args.len(),
                dtypes.len() == i,
                forall|k: int| 0 <= k < i ==> (#[trigger] dtypes@[k])@ == args@[k]@.ty(),
            decreases args.len() - i,
        {
            dtypes.push(args[i].dtype());
            i = i + 1;
        }
        assert(dtype_models(dtypes@) =~= types_of(operand_models(args@)));
        classify_args(dtypes.as_slice())
    }

    fn emit_stack_args(&mut self, args: &Vec<Operand>, locs: &Vec<ArgumentLocation>) -> (r: Result<
        (),
        Error,
    >)
        requires
            old(self).inv(),
            locs.len() == args.len(),
        ensures
            final(self).did_or_left(
                old(self),
                r,
                stack_args_code(
                    old(self).setting(),
                    old(self).code(),
                    operand_models(args@),
                    locs@,
                ),
                stack_args_left(
                    old(self).setting(),
                    old(self).code(),
                    operand_models(args@),
                    locs@,
                ),
            ),
            final(self).code().next == old(self).code().next,
    {
        let ghost cx = self.setting();
        let ghost start = self.code();
        let ghost all = operand_models(args@);
        let mut i: usize = 0;
        assert(all.take(0) =~= Seq::empty());
        while i < args.len()
            invariant
                i <= args.len(),
                locs.len() == args.len(),
                all == operand_models(args@),
                self.inv(),
                self.setting() == cx,
                cx == old(self).setting(),
                start == old(self).code(),
                self.code().next == start.next,
                stack_args_code(cx, start, all.take(i as int), locs@) == Ok::<Code, ErrorModel>(
                    self.code(),
                ),
            decreases args.len() - i,
        {
            assert(all.take(i + 1).drop_last() =~= all.take(i as int));
            assert(all.take(i + 1).last() == args@[i as int]@);
            if let ArgumentLocation::Stack { offset } = locs[i] {
                match self.emit_stack_arg(&args[i], offset) {
                    Ok(_) => {},
                    Err(e) => {
                        proof {
                            lemma_stack_args_stop(cx, start, all, locs@, i + 1);
                        }
                        return Err(e);
                    },
                }
            }
            i = i + 1;
        }
        assert(all.take(i as int) =~= all);
        Ok(())
    }

    fn emit_register_args(&mut self, args: &Vec<Operand>, locs: &Vec<ArgumentLocation>) -> (r:
        Result<(), Error>)
        requires
            old(self).inv(),
            locs.len() == args.len(),
        ensures
            final(self).did_or_left(
                old(self),
                r,
                register_args_code(
                    old(self).setting(),
                    old(self).code(),
                    operand_models(args@),
                    locs@,
                ),
                register_args_left(
                    old(self).setting(),
                    old(self).code(),
                    operand_models(args@),
                    locs@,
                ),
            ),
            final(self).code().next == old(self).code().next,
    {
        let ghost cx = self.setting();
        let ghost start = self.code();
        let ghost all = operand_models(args@);
        let mut i: usize = 0;
        assert(all.take(0) =~= Seq::empty());
        while i < args.len()
            invariant
                i <= args.len(),
                locs.len() == args.len(),
                all == operand_models(args@),
                self.inv(),
                self.setting() == cx,
                cx == old(self).setting(),
                start == old(self).code(),
                self.code().next == start.next,
                register_args_code(cx, start, all.take(i as int), locs@) == Ok::<
                    Code,
                    ErrorModel,
                >(self.code()),
            decreases args.len() - i,
        {
            assert(all.take(i + 1).drop_last() =~= all.take(i as int));
            assert(all.take(i + 1).last() == args@[i as int]@);
            if let ArgumentLocation::Gpr(n) = locs[i] {
                match self.emit_gpr_arg(&args[i], n) {
                    Ok(_) => {},
                    Err(e) => {
                        proof {
                            lemma_register_args_stop(cx, start, all, locs@, i + 1);
                        }
                        return Err(e);
                    },
                }
            }
            i = i + 1;
        }
        assert(all.take(i as int) =~= all);
        Ok(())
    }

    /// A return.
    pub fn emit_return(&mut self, s: &ReturnStmt) -> (r: Result<(), Error>)
        requires
            old(self).inv(),
        ensures
            final(self).did_or_left(
                old(self),
                r,
                return_code(old(self).setting(), old(self).code(), option_model(s.val)),
                old(self).code(),
            ),
            final(self).code().next == old(self).code().next,
    {
        if let Some(v) = &s.val {
            let (op, size) = self.lower_value(v)?;
            self.put(return_inst(size, op));
        }
        self.put(Instruction::Ret);
        Ok(())
    }

    fn emit_gep_struct(
        &mut self,
        new_ptr: usize,
        idx: &Operand,
        name: &str,
        base: PtrBase,
    ) -> (r: Result<(), Error>)
        requires
            old(self).inv(),
            base@ matches PtrModel::Stack(slot) ==> slot.offset_from_fp <= 0,
        ensures
            final(self).did_or_left(
                old(self),
                r,
                field_code(
                    old(self).setting(),
                    old(self).code(),
                    new_ptr,
                    idx@,
                    name@,
                    base@,
                ),
                old(self).code(),
            ),
            final(self).code().next == old(self).code().next,
    {
        let field_index: i64 = Self::lower_index_imm(idx)?;
        proof {
            self.layouts.lemma_sensible();
        }
        match self.layouts.get(name) {
            None => Err(Error::MissingStructLayout { name: owned(name) }),
            Some(layout) => {
                assert(layout@.offsets.len() == layout.field_offsets.len());
                if field_index < 0 || field_index as u64 >= layout.field_offsets.len() as u64 {
                    return Err(
                        Error::InvalidStructFieldIndex { name: owned(name), index: field_index },
                    );
                }
                let offset: i64 = layout.field_offsets[field_index as usize];
                assert(layout@.offsets[field_index as int] == offset);
                self.emit_ptr_offset(new_ptr, base, offset);
                Ok(())
            },
        }
    }

    fn emit_gep_array(
        &mut self,
        new_ptr: usize,
        idx: &Operand,
        inner: &Dtype,
        base: PtrBase,
    ) -> (r: Result<(), Error>)
        requires
            old(self).inv(),
            size_fits(inner@, old(self).setting().layouts),
        ensures
            final(self).did_or_left(
                old(self),
                r,
                element_code(
                    old(self).setting(),
                    old(self).code(),
                    new_ptr,
                    idx@,
                    inner@,
                    base@,
                ),
                old(self).code(),
            ),
            final(self).code().next == old(self).code().next,
    {
        let (elem_size, _) = match self.layouts.size_align_of(inner) {
            Ok(sa) => sa,
            Err(e) => return Err(e),
        };
        let index = self.lower_index(idx)?;
        let dst = Register::Virtual(new_ptr);
        match base {
            PtrBase::Stack(slot) => {
                self.put(Instruction::Lea { dst, addr: FrameLayout::local_addr(slot) });
                self.put(Instruction::Gep { dst, base: dst, index, scale: elem_size });
            },
            PtrBase::Global(sym) => {
                self.put(Instruction::Lea { dst, addr: Addr::Global(sym) });
                self.put(Instruction::Gep { dst, base: dst, index, scale: elem_size });
            },
            PtrBase::Register(v) => {
                self.put(
                    Instruction::Gep {
                        dst,
                        base: Register::Virtual(v),
                        index,
                        scale: elem_size,
                    },
                );
            },
        }
        Ok(())
    }

    fn emit_ptr_offset(&mut self, dst: usize, base: PtrBase, offset: i64)
        requires
            old(self).inv(),
            0 <= offset,
            base@ matches PtrModel::Stack(slot) ==> slot.offset_from_fp <= 0,
        ensures
            final(self).inv(),
            final(self).setting() == old(self).setting(),
            final(self).code() == offset_code(old(self).code(), dst, base@, offset as int),
    {
        let d = Register::Virtual(dst);
        match base {
            PtrBase::Stack(slot) => {
                self.put(
                    Instruction::Lea {
                        dst: d,
                        addr: FrameLayout::local_addr_with_offset(slot, offset),
                    },
                );
            },
            PtrBase::Global(sym) => {
                self.put(Instruction::Lea { dst: d, addr: Addr::Global(sym) });
                if offset != 0 {
                    self.put(
                        Instruction::BinOp {
                            op: InstBinOp::Add,
                            size: RegisterSize::X64,
                            dst: d,
                            lhs: d,
                            rhs: InstOperand::Immediate(offset),
                        },
                    );
                }
            },
            PtrBase::Register(v) => {
                self.put(
                    Instruction::Lea {
                        dst: d,
                        addr: Addr::BaseOff { base: Register::Virtual(v), offset },
                    },
                );
            },
        }
    }

    fn emit_gpr_arg(&mut self, arg: &Operand, reg_idx: u8) -> (r: Result<(), Error>)
        requires
            old(self).inv(),
        ensures
            final(self).did_or_left(
                old(self),
                r,
                register_arg_code(old(self).setting(), old(self).code(), arg@, reg_idx),
                old(self).code(),
            ),
            final(self).code().next == old(self).code().next,
    {
        let dst = Register::Physical(reg_idx);
        if Self::passed_by_address(arg) {
            self.emit_ptr_to_reg(arg, dst)
        } else {
            let (op, size) = self.lower_value(arg)?;
            self.put(Instruction::Mov { size, dst, src: op });
            Ok(())
        }
    }

    fn passed_by_address(arg: &Operand) -> (b: bool)
        ensures
            b == by_address(arg@),
    {
        match arg.dtype() {
            Dtype::Pointer { .. } => true,
            Dtype::Array { .. } => true,
            _ => false,
        }
    }

    fn emit_stack_arg(&mut self, arg: &Operand, stack_offset: i64) -> (r: Result<(), Error>)
        requires
            old(self).inv(),
        ensures
            final(self).did_or_left(
                old(self),
                r,
                stack_arg_code(
                    old(self).setting(),
                    old(self).code(),
                    arg@,
                    stack_offset as int,
                ),
                old(self).code(),
            ),
            final(self).code().next == old(self).code().next,
    {
        let addr = outgoing_arg_addr(stack_offset);
        let scratch = Register::Physical(REG_IP0);
        if Self::passed_by_address(arg) {
            self.emit_ptr_to_reg(arg, scratch)?;
            self.put(Instruction::Str { size: RegisterSize::X64, src: scratch, addr });
            return Ok(());
        }
        let (op, size) = self.lower_value(arg)?;
        let src_reg = match op {
            InstOperand::Register(r) => r,
            InstOperand::Immediate(_) => {
                self.put(Instruction::Mov { size, dst: scratch, src: op });
                scratch
            },
        };
        self.put(Instruction::Str { size, src: src_reg, addr });
        Ok(())
    }

    fn emit_call_result(&mut self, res: &Local) -> (r: Result<(), Error>)
        requires
            old(self).inv(),
        ensures
            final(self).did_or_left(
                old(self),
                r,
                result_code(old(self).code(), Some(OperandModel::Local(res@))),
                old(self).code(),
            ),
            final(self).code().next == old(self).code().next,
    {
        let dst = Register::Virtual(res.id.0);
        let size = RegisterSize::try_from(&res.dtype)?;
        self.put(return_value_load(size, dst));
        Ok(())
    }

    fn emit_ptr_to_reg(&mut self, arg: &Operand, dst: Register) -> (r: Result<(), Error>)
        requires
            old(self).inv(),
        ensures
            final(self).did_or_left(
                old(self),
                r,
                pointer_code(old(self).setting(), old(self).code(), arg@, dst),
                old(self).code(),
            ),
            final(self).code().next == old(self).code().next,
    {
        match self.lower_ptr(arg)? {
            PtrBase::Register(v) => {
                self.put(
                    Instruction::Mov {
                        size: RegisterSize::X64,
                        dst,
                        src: InstOperand::Register(Register::Virtual(v)),
                    },
                );
            },
            PtrBase::Stack(slot) => {
                self.put(Instruction::Lea { dst, addr: FrameLayout::local_addr(slot) });
            },
            PtrBase::Global(sym) => {
                self.put(Instruction::Lea { dst, addr: Addr::Global(sym) });
            },
        }
        Ok(())
    }

    fn lower_int_like(&self, val: &Operand, what: &str) -> (r: Result<InstOperand, Error>)
        requires
            self.inv(),
        ensures
            plain(r) == int_operand(self.setting(), val@, what@),
    {
        match val {
            Operand::Const(c) => Ok(InstOperand::Immediate(c.val)),
            Operand::Local(l) => {
                let scalar = match l.dtype {
                    Dtype::I1 => true,
                    Dtype::I32 => true,
                    _ => false,
                };
                if !scalar {
                    return Err(Error::UnsupportedDtype { dtype: l.dtype.clone() });
                }
                if self.frame.has_alloca(l.id.0) {
                    let mut s = owned(what);
                    s.append(" operand references alloca pointer %r");
                    s.append(usize_to_text(l.id.0).as_str());
                    return Err(Error::UnsupportedOperand { what: s });
                }
                Ok(InstOperand::Register(Register::Virtual(l.id.0)))
            },
            Operand::Global(_) => {
                let mut s = owned("unsupported ");
                s.append(what);
                s.append(" operand: ");
                s.append(val.to_text().as_str());
                Err(Error::UnsupportedOperand { what: s })
            },
        }
    }

    fn lower_int(&self, val: &Operand) -> (r: Result<InstOperand, Error>)
        requires
            self.inv(),
        ensures
            plain(r) == int_operand(self.setting(), val@, "int"@),
    {
        self.lower_int_like(val, "int")
    }

    fn lower_int_to_reg(&mut self, val: &Operand) -> (r: Result<Register, Error>)
        requires
            old(self).inv(),
            old(self).code().next < usize::MAX,
        ensures
            final(self).inv(),
            final(self).setting() == old(self).setting(),
            match r {
                Ok(reg) => int_register(old(self).setting(), old(self).code(), val@) == Ok::<
                    (Register, Code),
                    ErrorModel,
                >((reg, final(self).code())),
                Err(e) => int_register(old(self).setting(), old(self).code(), val@) == Err::<
                    (Register, Code),
                    ErrorModel,
                >(e@) && final(self).code() == old(self).code(),
            },
            old(self).code().next <= final(self).code().next <= old(self).code().next + 1,
    {
        match self.lower_int(val)? {
            InstOperand::Register(r) => Ok(r),
            InstOperand::Immediate(i) => {
                let ghost start = self.code();
                let tmp: usize = self.fresh_vreg();
                self.put(
                    Instruction::Mov {
                        size: RegisterSize::W32,
                        dst: Register::Virtual(tmp),
                        src: InstOperand::Immediate(i),
                    },
                );
                assert(self.code() =~= start.put(
                    InstModel::Mov {
                        size: RegisterSize::W32,
                        dst: start.fresh(),
                        src: InstOperand::Immediate(i),
                    },
                ).taken());
                Ok(Register::Virtual(tmp))
            },
        }
    }

    fn lower_value(&self, val: &Operand) -> (r: Result<(InstOperand, RegisterSize), Error>)
        requires
            self.inv(),
        ensures
            plain(r) == value_operand(self.setting(), val@),
    {
        match val {
            Operand::Const(c) => Ok((InstOperand::Immediate(c.val), RegisterSize::W32)),
            Operand::Local(l) => {
                let size = match &l.dtype {
                    Dtype::I1 => RegisterSize::W32,
                    Dtype::I32 => RegisterSize::W32,
                    Dtype::Pointer { .. } => {
                        if self.frame.has_alloca(l.id.0) {
                            let mut s = owned("value operand uses alloca ptr %r");
                            s.append(usize_to_text(l.id.0).as_str());
                            s.append(" directly (need address-of)");
                            return Err(Error::UnsupportedOperand { what: s });
                        }
                        RegisterSize::X64
                    },
                    other => return Err(Error::UnsupportedDtype { dtype: other.clone() }),
                };
                Ok((InstOperand::Register(Register::Virtual(l.id.0)), size))
            },
            Operand::Global(_) => Err(
                Error::UnsupportedOperand {
                    what: owned("unexpected global variable in value position"),
                },
            ),
        }
    }

    fn lower_ptr_as_addr(&self, val: &Operand) -> (r: Result<Addr, Error>)
        requires
            self.inv(),
        ensures
            match r {
                Ok(a) => pointer(self.setting(), val@) matches Ok(p) && a@ == ptr_addr(p),
                Err(e) => pointer(self.setting(), val@) == Err::<PtrModel, ErrorModel>(e@),
            },
    {
        match self.lower_ptr(val) {
            Err(e) => Err(e),
            Ok(PtrBase::Stack(slot)) => Ok(FrameLayout::local_addr(slot)),
            Ok(PtrBase::Global(sym)) => Ok(Addr::Global(sym)),
            Ok(PtrBase::Register(v)) => Ok(
                Addr::BaseOff { base: Register::Virtual(v), offset: 0 },
            ),
        }
    }

    fn lower_ptr(&self, val: &Operand) -> (r: Result<PtrBase, Error>)
        requires
            self.inv(),
        ensures
            match r {
                Ok(p) => pointer(self.setting(), val@) == Ok::<PtrModel, ErrorModel>(p@) && (
                p@ matches PtrModel::Stack(slot) ==> slot.offset_from_fp <= 0),
                Err(e) => pointer(self.setting(), val@) == Err::<PtrModel, ErrorModel>(e@),
            },
    {
        match val {
            Operand::Local(l) => {
                proof {
                    self.frame.lemma_wf();
                    assert(self.frame.allocas().contains_key(l.id.0)
                        ==> self.frame.allocas()[l.id.0].offset_from_fp <= 0);
                }
                if let Some(slot) = self.frame.alloca_slot(l.id.0) {
                    return Ok(PtrBase::Stack(slot));
                }
                if l.dtype.is_pointer() {
                    return Ok(PtrBase::Register(l.id.0));
                }
                Err(Error::UnsupportedDtype { dtype: l.dtype.clone() })
            },
            Operand::Global(g) => Ok(PtrBase::Global(self.target.mangle_symbol(g.name.as_str()))),
            Operand::Const(_) => {
                let mut s = owned("unsupported pointer operand: ");
                s.append(val.to_text().as_str());
                Err(Error::UnsupportedOperand { what: s })
            },
        }
    }

    fn lower_index(&self, val: &Operand) -> (r: Result<InstOperand, Error>)
        requires
            self.inv(),
        ensures
            plain(r) == int_operand(self.setting(), val@, "index"@),
    {
        self.lower_int_like(val, "index")
    }

    fn lower_index_imm(val: &Operand) -> (r: Result<i64, Error>)
        ensures
            match val@ {
                OperandModel::Const { val, .. } => r matches Ok(i) && i == val,
                other => r matches Err(e) && e@ == (ErrorModel::UnsupportedOperand {
                    what: "expected immediate struct field index, got: "@ + other.text(),
                }),
            },
    {
        match val {
            Operand::Const(c) => Ok(c.val),
            _ => {
                let mut s = owned("expected immediate struct field index, got: ");
                s.append(val.to_text().as_str());
                Err(Error::UnsupportedOperand { what: s })
            },
        }
    }

    /// A statement.
    pub fn emit_stmt(&mut self, stmt: &Stmt) -> (r: Result<(), Error>)
        requires
            old(self).inv(),
            old(self).code().next < usize::MAX,
            stmt_fits(old(self).setting(), stmt@),
        ensures
            final(self).did_or_left(
                old(self),
                r,
                stmt_code(old(self).setting(), old(self).code(), stmt@),
                stmt_left(old(self).setting(), old(self).code(), stmt@),
            ),
            old(self).code().next <= final(self).code().next <= old(self).code().next + 1,
    {
        match &stmt.inner {
            StmtInner::Label(l) => {
                self.emit_label(&l.label);
                Ok(())
            },
            StmtInner::Alloca(_) => Ok(()),
            StmtInner::Store(s) => self.emit_store(s),
            StmtInner::Load(s) => self.emit_load(s),
            StmtInner::BiOp(s) => self.emit_biop(s),
            StmtInner::Cmp(s) => self.emit_cmp(s),
            StmtInner::CJump(s) => self.emit_cjump(s),
            StmtInner::Jump(s) => {
                self.emit_jump(s);
                Ok(())
            },
            StmtInner::Gep(s) => self.emit_gep(s),
            StmtInner::Call(s) => self.emit_call(s),
            StmtInner::Return(s) => self.emit_return(s),
            StmtInner::Phi(_) => Err(
                Error::Internal(owned("phi nodes should be lowered before assembly emission")),
            ),
        }
    }

    /// One copy.
    pub fn emit_copy(&mut self, dst: &Operand, src: &Operand) -> (r: Result<(), Error>)
        requires
            old(self).inv(),
        ensures
            final(self).did_or_left(
                old(self),
                r,
                copy_code(old(self).code(), dst@, src@),
                old(self).code(),
            ),
            final(self).code().next == old(self).code().next,
    {
        let dst_vreg: usize = Self::operand_vreg(dst)?;
        let size = RegisterSize::try_from(dst.dtype())?;
        let src_op = match src {
            Operand::Const(c) => InstOperand::Immediate(c.val),
            Operand::Local(l) => InstOperand::Register(Register::Virtual(l.id.0)),
            Operand::Global(_) => {
                return Err(
                    Error::UnsupportedOperand { what: owned("global variable in phi copy") },
                );
            },
        };
        self.put(Instruction::Mov { size, dst: Register::Virtual(dst_vreg), src: src_op });
        Ok(())
    }

    fn mangle_block_label(&self, label: &BlockLabel) -> (s: String)
        ensures
            s@ == branch_label(self.setting().func, label@),
    {
        match label {
            BlockLabel::BasicBlock(n) => mangle_bb(self.func_id, *n),
            BlockLabel::Function(name) => name.clone(),
        }
    }

    fn operand_vreg(op: &Operand) -> (r: Result<usize, Error>)
        ensures
            plain(r) == local_vreg(op@),
    {
        match op.local_id() {
            Some(id) => Ok(id.0),
            None => {
                let mut s = owned("expected local variable, got: ");
                s.append(op.to_text().as_str());
                Err(Error::UnsupportedOperand { what: s })
            },
        }
    }
}

fn mangle_bb(func: &str, bb: usize) -> (s: String)
    ensures
        s@ == block_label(func@, bb as nat),
{
    let mut s = owned(".L");
    s.append(func);
    s.append("_bb");
    s.append(usize_to_text(bb).as_str());
    s
}

fn is_terminator(stmt: &Stmt) -> (b: bool)
    ensures
        b == is_terminator_model(stmt@),
{
    match stmt.inner {
        StmtInner::Jump(_) => true,
        StmtInner::CJump(_) => true,
        StmtInner::Return(_) => true,
        _ => false,
    }
}

fn reroute(pending: &mut Vec<ParallelCopy>, from: &Operand, to: &Operand)
    ensures
        copy_models(final(pending)@) == rerouted(copy_models(old(pending)@), from@, to@),
        final(pending)@.len() == old(pending)@.len(),
{
    let ghost start = copy_models(pending@);
    let mut i: usize = 0;
    while i < pending.len()
        invariant
            i <= pending.len(),
            pending.len() == start.len(),
            forall|k: int|
                0 <= k < i ==> (#[trigger] pending@[k])@ == rerouted(start, from@, to@)[k],
            forall|k: int| i <= k < pending.len() ==> (#[trigger] pending@[k])@ == start[k],
        decreases pending.len() - i,
    {
        assert(pending@[i as int]@ == start[i as int]);
        if same_operand(&pending[i].src, from) {
            let dst = pending[i].dst.clone();
            pending.set(i, ParallelCopy { dst, src: to.clone() });
        }
        i = i + 1;
    }
    assert(copy_models(pending@) =~= rerouted(start, from@, to@));
}

fn arith_op_to_binop(op: &ArithBinOp) -> (b: InstBinOp)
    ensures
        b == binop_of(*op),
{
    match op {
        ArithBinOp::Add => InstBinOp::Add,
        ArithBinOp::Sub => InstBinOp::Sub,
        ArithBinOp::Mul => InstBinOp::Mul,
        ArithBinOp::SDiv => InstBinOp::SDiv,
    }
}

/// The move of a return value to its register.
fn return_inst(size: RegisterSize, src: InstOperand) -> (inst: Instruction)
    ensures
        inst@ == (InstModel::Mov { size, dst: Register::Physical(REG_X0), src }),
{
    Instruction::Mov { size, dst: Register::Physical(REG_X0), src }
}

/// The move of a return value from its register.
fn return_value_load(size: RegisterSize, dst: Register) -> (inst: Instruction)
    ensures
        inst@ == (InstModel::Mov {
            size,
            dst,
            src: InstOperand::Register(Register::Physical(REG_X0)),
        }),
{
    Instruction::Mov { size, dst, src: InstOperand::Register(Register::Physical(REG_X0)) }
}

fn cmp_op_to_cond(op: &CmpPredicate) -> (c: Cond)
    ensures
        c == cond_of(*op),
{
    match op {
        CmpPredicate::Eq => Cond::Eq,
        CmpPredicate::Ne => Cond::Ne,
        CmpPredicate::Slt => Cond::Lt,
        CmpPredicate::Sle => Cond::Le,
        CmpPredicate::Sgt => Cond::Gt,
        CmpPredicate::Sge => Cond::Ge,
    }
}

proof fn lemma_blocks_work_grows(
    blocks: Seq<ParsedModel>,
    pending: Seq<Seq<CopyModel>>,
    n: nat,
    k: nat,
)
    requires
        k <= n,
    ensures
        blocks_work(blocks, pending, k) <= blocks_work(blocks, pending, n),
    decreases n - k,
{
    if k < n {
        lemma_blocks_work_grows(blocks, pending, n, k + 1);
    }
}

proof fn lemma_splits_work_grows(splits: Seq<SplitModel>, k: int)
    requires
        0 <= k <= splits.len(),
    ensures
        splits_work(splits.take(k)) <= splits_work(splits),
    decreases splits.len() - k,
{
    if k < splits.len() {
        lemma_splits_work_grows(splits, k + 1);
        assert(splits.take(k + 1).drop_last() =~= splits.take(k));
    } else {
        assert(splits.take(k) =~= splits);
    }
}

proof fn lemma_blocks_code_stops(
    cx: Setting,
    code: Code,
    blocks: Seq<ParsedModel>,
    pending: Seq<Seq<CopyModel>>,
    n: nat,
    k: nat,
)
    requires
        k <= n,
        blocks_code(cx, code, blocks, pending, k) is Err,
    ensures
        blocks_code(cx, code, blocks, pending, n) == blocks_code(cx, code, blocks, pending, k),
    decreases n - k,
{
    if k < n {
        lemma_blocks_code_stops(cx, code, blocks, pending, n, k + 1);
    }
}

proof fn lemma_stmts_code_stops(cx: Setting, code: Code, stmts: Seq<StmtModel>, k: int)
    requires
        0 <= k <= stmts.len(),
        stmts_code(cx, code, stmts.take(k)) is Err,
    ensures
        stmts_code(cx, code, stmts) == stmts_code(cx, code, stmts.take(k)),
    decreases stmts.len() - k,
{
    if k < stmts.len() {
        assert(stmts.take(k + 1).drop_last() =~= stmts.take(k));
        lemma_stmts_code_stops(cx, code, stmts, k + 1);
    } else {
        assert(stmts.take(k) =~= stmts);
    }
}

proof fn lemma_splits_code_stops(cx: Setting, code: Code, splits: Seq<SplitModel>, k: int)
    requires
        0 <= k <= splits.len(),
        splits_code(cx, code, splits.take(k)) is Err,
    ensures
        splits_code(cx, code, splits) == splits_code(cx, code, splits.take(k)),
    decreases splits.len() - k,
{
    if k < splits.len() {
        assert(splits.take(k + 1).drop_last() =~= splits.take(k));
        lemma_splits_code_stops(cx, code, splits, k + 1);
    } else {
        assert(splits.take(k) =~= splits);
    }
}

proof fn lemma_stack_args_stop(
    cx: Setting,
    code: Code,
    args: Seq<OperandModel>,
    locs: Seq<ArgumentLocation>,
    k: int,
)
    requires
        0 <= k <= args.len(),
        stack_args_code(cx, code, args.take(k), locs) is Err,
    ensures
        stack_args_code(cx, code, args, locs) == stack_args_code(cx, code, args.take(k), locs),
        stack_args_left(cx, code, args, locs) == stack_args_left(cx, code, args.take(k), locs),
    decreases args.len() - k,
{
    if k < args.len() {
        assert(args.take(k + 1).drop_last() =~= args.take(k));
        lemma_stack_args_stop(cx, code, args, locs, k + 1);
    } else {
        assert(args.take(k) =~= args);
    }
}

proof fn lemma_register_args_stop(
    cx: Setting,
    code: Code,
    args: Seq<OperandModel>,
    locs: Seq<ArgumentLocation>,
    k: int,
)
    requires
        0 <= k <= args.len(),
        register_args_code(cx, code, args.take(k), locs) is Err,
    ensures
        register_args_code(cx, code, args, locs) == register_args_code(
            cx,
            code,
            args.take(k),
            locs,
        ),
        register_args_left(cx, code, args, locs) == register_args_left(cx, code, args.take(k), locs),
    decreases args.len() - k,
{
    if k < args.len() {
        assert(args.take(k + 1).drop_last() =~= args.take(k));
        lemma_register_args_stop(cx, code, args, locs, k + 1);
    } else {
        assert(args.take(k) =~= args);
    }
}

} // verus!
