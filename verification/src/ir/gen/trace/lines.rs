//! The calls that report what a traced function does, line by line.

use crate::ir::gen::function_gen::FunctionGenerator;
use crate::ir::gen::lowering::State;
use crate::ir::stmt::{operand_models, option_model, ArithBinOp, CmpPredicate, StmtModel};
use crate::ir::types::{Dtype, DtypeModel};
use crate::ir::value::{Local, Operand, OperandModel};
use crate::common::text::{group_text, owned};
use vstd::prelude::*;
use vstd::string::*;
use vstd::utf8::encode_utf8;

verus! {

broadcast use group_text;

/// A call of a function of the tracing runtime.
pub open spec fn runtime(st: State, name: Seq<char>, args: Seq<OperandModel>) -> State {
    st.emit(StmtModel::Call { func_name: name, res: None, args })
}

/// The start of a line at the given depth.
pub open spec fn event(st: State, indent: usize) -> State {
    runtime(st, "__teac_trace_event"@, seq![OperandModel::i32_const((indent as i32) as int)])
}

/// Bytes written one by one.
pub open spec fn spelled(st: State, bytes: Seq<u8>) -> State
    decreases bytes.len(),
{
    if bytes.len() == 0 {
        st
    } else {
        runtime(
            spelled(st, bytes.drop_last()),
            "__teac_trace_putch"@,
            seq![OperandModel::i32_const(bytes.last() as int)],
        )
    }
}

/// A text written byte by byte.
pub open spec fn written(st: State, text: Seq<char>) -> State {
    spelled(st, encode_utf8(text))
}

/// A truth value written.
pub open spec fn truth_shown(st: State, value: OperandModel) -> State {
    runtime(st, "__teac_trace_putbool"@, seq![value])
}

/// Only truth values and integers can be shown.
pub open spec fn showable(value: OperandModel) -> bool {
    value.ty() is I1 || value.ty() is I32
}

/// A value written as its type asks for.
pub open spec fn shown(st: State, value: OperandModel) -> State {
    if value.ty() is I1 {
        truth_shown(st, value)
    } else {
        runtime(st, "__teac_trace_putint"@, seq![value])
    }
}

/// The first `k` arguments, with their names and commas between them.
pub open spec fn args_named(st: State, args: Seq<(Seq<char>, OperandModel)>, k: nat) -> State
    decreases k,
{
    if k == 0 {
        st
    } else {
        let before = args_named(st, args, (k - 1) as nat);
        let next = if k > 1 {
            written(before, ", "@)
        } else {
            before
        };
        shown(written(written(next, args[k - 1].0), " = "@), args[k - 1].1)
    }
}

/// The first `k` arguments with commas between them.
pub open spec fn args_shown(st: State, args: Seq<OperandModel>, k: nat) -> State
    decreases k,
{
    if k == 0 {
        st
    } else {
        let before = args_shown(st, args, (k - 1) as nat);
        let next = if k > 1 {
            written(before, ", "@)
        } else {
            before
        };
        shown(next, args[k - 1])
    }
}

/// The arguments with their names.
pub open spec fn named_models(args: Seq<(String, Operand)>) -> Seq<(Seq<char>, OperandModel)> {
    Seq::new(args.len(), |i: int| (args[i].0@, args[i].1@))
}

/// The line of a call.
pub open spec fn call_line(
    st: State,
    indent: usize,
    name: Seq<char>,
    args: Seq<(Seq<char>, OperandModel)>,
) -> State {
    let open = written(written(written(event(st, indent), "call "@), name), "("@);
    written(args_named(open, args, args.len()), ")\n"@)
}

/// The line that opens a trace.
pub open spec fn begin_line(st: State, name: Seq<char>, args: Seq<OperandModel>) -> State {
    let begun = event(runtime(st, "__teac_trace_begin"@, Seq::empty()), 0);
    let open = written(written(written(begun, "trace "@), name), "("@);
    written(args_shown(open, args, args.len()), ")\n"@)
}

/// The line that closes a trace.
pub open spec fn end_line(st: State) -> State {
    runtime(written(event(st, 0), "end trace\n"@), "__teac_trace_finish"@, Seq::empty())
}

/// The line of a return.
pub open spec fn return_line(st: State, indent: usize, value: Option<OperandModel>) -> State {
    let said = written(event(st, indent), "return"@);
    let with_value = match value {
        Some(v) => shown(written(said, " "@), v),
        None => said,
    };
    runtime(written(with_value, "\n"@), "__teac_trace_leave"@, Seq::empty())
}

/// The line of a variable definition.
pub open spec fn let_line(st: State, indent: usize, name: Seq<char>, value: OperandModel) -> State {
    let named = written(written(written(event(st, indent), "let "@), name), " = "@);
    written(shown(named, value), "\n"@)
}

/// The line of an assignment.
pub open spec fn old_and_new(
    st: State,
    indent: usize,
    name: Seq<char>,
    before: OperandModel,
    after: OperandModel,
) -> State {
    let named = written(written(event(st, indent), name), ": "@);
    written(shown(written(shown(named, before), " -> "@), after), "\n"@)
}

/// The line of an assignment, behind a test that the value has changed.
pub open spec fn change_line(
    st: State,
    indent: usize,
    name: Seq<char>,
    before: OperandModel,
    after: OperandModel,
) -> State {
    let (s1, print_label) = st.label();
    let (s2, after_label) = s1.label();
    let (s3, cond) = s2.fresh(DtypeModel::I1);
    let tested = s3.emit(
        StmtModel::Cmp { kind: CmpPredicate::Ne, left: before, right: after, dst: cond },
    ).emit(
        StmtModel::CJump { cond, true_label: print_label, false_label: after_label },
    );
    let printed = old_and_new(
        tested.emit(StmtModel::Label { label: print_label }),
        indent,
        name,
        before,
        after,
    );
    printed.emit(StmtModel::Jump { target: after_label }).emit(
        StmtModel::Label { label: after_label },
    )
}

/// The line of a condition.
pub open spec fn condition_line(
    st: State,
    indent: usize,
    kind: Seq<char>,
    cond: Seq<char>,
    value: OperandModel,
) -> State {
    let named = written(written(written(event(st, indent), kind), " "@), cond);
    written(truth_shown(written(named, " -> "@), value), "\n"@)
}

/// The line of an else branch.
pub open spec fn else_line(st: State, indent: usize) -> State {
    written(event(st, indent), "else\n"@)
}

/// A counter that starts at zero.
pub open spec fn loop_slot(st: State) -> (State, OperandModel) {
    let (s, slot) = st.slot(DtypeModel::I32);
    (s.emit(StmtModel::Store { src: OperandModel::i32_const(0), ptr: slot }), slot)
}

/// A counter one higher.
pub open spec fn counted(st: State, slot: OperandModel) -> (State, OperandModel) {
    let (s1, cur) = st.fresh(DtypeModel::I32);
    let (s2, next) = s1.fresh(DtypeModel::I32);
    (
        s2.emit(StmtModel::Load { dst: cur, ptr: slot }).emit(
            StmtModel::BiOp {
                kind: ArithBinOp::Add,
                left: cur,
                right: OperandModel::i32_const(1),
                dst: next,
            },
        ).emit(StmtModel::Store { src: next, ptr: slot }),
        next,
    )
}

/// The line of a round of a loop.
pub open spec fn loop_line(st: State, slot: OperandModel, indent: usize) -> (State, OperandModel) {
    let (s, next) = counted(st, slot);
    (written(shown(written(event(s, indent), "loop #"@), next), "\n"@), next)
}

impl<'ir> FunctionGenerator<'ir> {
    /// Calls the runtime.
    fn emit_trace_runtime(&mut self, name: &str, args: Vec<Operand>)
        requires
            old(self).inv(),
        ensures
            final(self).inv(),
            final(self).context() == old(self).context(),
            final(self).state() == runtime(old(self).state(), name@, operand_models(args@)),
    {
        self.emit_call(owned(name), None, args);
    }

    /// Starts a line.
    fn emit_trace_event(&mut self, indent: usize)
        requires
            old(self).inv(),
        ensures
            final(self).inv(),
            final(self).context() == old(self).context(),
            final(self).state() == event(old(self).state(), indent),
    {
        let depth = Operand::from(#[verifier::truncate] (indent as i32));
        let args = vec![depth];
        assert(operand_models(args@) =~= seq![OperandModel::i32_const((indent as i32) as int)]);
        self.emit_trace_runtime("__teac_trace_event", args);
    }

    /// Writes a text.
    fn emit_trace_text(&mut self, text: &str)
        requires
            old(self).inv(),
        ensures
            final(self).inv(),
            final(self).context() == old(self).context(),
            final(self).state() == written(old(self).state(), text@),
    {
        let bytes = text.as_bytes();
        let ghost all = bytes@;
        let ghost start = self.state();
        assert(all.take(0) =~= Seq::empty());
        let mut i: usize = 0;
        while i < bytes.len()
            invariant
                i <= bytes.len(),
                bytes@ == all,
                self.inv(),
                self.context() == old(self).context(),
                self.state() == spelled(start, all.take(i as int)),
            decreases bytes.len() - i,
        {
            let args = vec![Operand::from(bytes[i] as i32)];
            assert(operand_models(args@) =~= seq![OperandModel::i32_const(all[i as int] as int)]);
            self.emit_trace_runtime("__teac_trace_putch", args);
            proof {
                let longer = all.take(i + 1);
                assert(longer.drop_last() =~= all.take(i as int));
                assert(longer.last() == all[i as int]);
            }
            i = i + 1;
        }
        assert(all.take(i as int) =~= all);
    }

    /// Writes a truth value.
    fn emit_trace_truth(&mut self, value: Operand)
        requires
            old(self).inv(),
        ensures
            final(self).inv(),
            final(self).context() == old(self).context(),
            final(self).state() == truth_shown(old(self).state(), value@),
    {
        let args = vec![value];
        assert(operand_models(args@) =~= seq![value@]);
        self.emit_trace_runtime("__teac_trace_putbool", args);
    }

    /// Writes a value.
    fn emit_trace_value(&mut self, value: Operand)
        requires
            old(self).inv(),
            showable(value@),
        ensures
            final(self).inv(),
            final(self).context() == old(self).context(),
            final(self).state() == shown(old(self).state(), value@),
    {
        if is_truth(value.dtype()) {
            self.emit_trace_truth(value);
        } else {
            let args = vec![value];
            assert(operand_models(args@) =~= seq![value@]);
            self.emit_trace_runtime("__teac_trace_putint", args);
        }
    }

    /// Reports a call.
    pub fn emit_trace_call_line(&mut self, indent: usize, name: &str, args: &Vec<(String, Operand)>)
        requires
            old(self).inv(),
            forall|j: int| 0 <= j < args.len() ==> showable((#[trigger] args@[j]).1@),
        ensures
            final(self).inv(),
            final(self).context() == old(self).context(),
            final(self).state() == call_line(old(self).state(), indent, name@, named_models(args@)),
    {
        self.emit_trace_event(indent);
        self.emit_trace_text("call ");
        self.emit_trace_text(name);
        self.emit_trace_text("(");
        let ghost start = self.state();
        let ghost all = named_models(args@);
        let mut i: usize = 0;
        while i < args.len()
            invariant
                i <= args.len(),
                all == named_models(args@),
                forall|j: int| 0 <= j < args.len() ==> showable((#[trigger] args@[j]).1@),
                self.inv(),
                self.context() == old(self).context(),
                self.state() == args_named(start, all, i as nat),
            decreases args.len() - i,
        {
            if i > 0 {
                self.emit_trace_text(", ");
            }
            assert(all[i as int] == (args@[i as int].0@, args@[i as int].1@));
            self.emit_trace_text(args[i].0.as_str());
            self.emit_trace_text(" = ");
            self.emit_trace_value(args[i].1.clone());
            i = i + 1;
        }
        self.emit_trace_text(")\n");
    }

    /// Reports that a function is entered.
    pub fn emit_trace_function_enter(&mut self)
        requires
            old(self).inv(),
        ensures
            final(self).inv(),
            final(self).context() == old(self).context(),
            final(self).state() == runtime(old(self).state(), "__teac_trace_enter"@, Seq::empty()),
    {
        let args: Vec<Operand> = Vec::new();
        assert(operand_models(args@) =~= Seq::empty());
        self.emit_trace_runtime("__teac_trace_enter", args);
    }

    /// Opens a trace.
    pub fn emit_trace_begin_line(&mut self, name: &str, args: &Vec<Operand>)
        requires
            old(self).inv(),
            forall|j: int| 0 <= j < args.len() ==> showable((#[trigger] args@[j])@),
        ensures
            final(self).inv(),
            final(self).context() == old(self).context(),
            final(self).state() == begin_line(old(self).state(), name@, operand_models(args@)),
    {
        let nothing: Vec<Operand> = Vec::new();
        assert(operand_models(nothing@) =~= Seq::empty());
        self.emit_trace_runtime("__teac_trace_begin", nothing);
        self.emit_trace_event(0);
        self.emit_trace_text("trace ");
        self.emit_trace_text(name);
        self.emit_trace_text("(");
        let ghost start = self.state();
        let ghost all = operand_models(args@);
        let mut i: usize = 0;
        while i < args.len()
            invariant
                i <= args.len(),
                all == operand_models(args@),
                forall|j: int| 0 <= j < args.len() ==> showable((#[trigger] args@[j])@),
                self.inv(),
                self.context() == old(self).context(),
                self.state() == args_shown(start, all, i as nat),
            decreases args.len() - i,
        {
            if i > 0 {
                self.emit_trace_text(", ");
            }
            assert(all[i as int] == args@[i as int]@);
            self.emit_trace_value(args[i].clone());
            i = i + 1;
        }
        self.emit_trace_text(")\n");
    }

    /// Closes a trace.
    pub fn emit_trace_end_line(&mut self)
        requires
            old(self).inv(),
        ensures
            final(self).inv(),
            final(self).context() == old(self).context(),
            final(self).state() == end_line(old(self).state()),
    {
        self.emit_trace_event(0);
        self.emit_trace_text("end trace\n");
        let args: Vec<Operand> = Vec::new();
        assert(operand_models(args@) =~= Seq::empty());
        self.emit_trace_runtime("__teac_trace_finish", args);
    }

    /// Reports a return.
    pub fn emit_trace_function_return(&mut self, indent: usize, value: Option<Operand>)
        requires
            old(self).inv(),
            value matches Some(v) ==> showable(v@),
        ensures
            final(self).inv(),
            final(self).context() == old(self).context(),
            final(self).state() == return_line(old(self).state(), indent, option_model(value)),
    {
        self.emit_trace_event(indent);
        self.emit_trace_text("return");
        match value {
            Some(v) => {
                self.emit_trace_text(" ");
                self.emit_trace_value(v);
            },
            None => {},
        }
        self.emit_trace_text("\n");
        let args: Vec<Operand> = Vec::new();
        assert(operand_models(args@) =~= Seq::empty());
        self.emit_trace_runtime("__teac_trace_leave", args);
    }

    /// Reports a variable definition.
    pub fn emit_trace_let_line(&mut self, indent: usize, name: &str, value: Operand)
        requires
            old(self).inv(),
            showable(value@),
        ensures
            final(self).inv(),
            final(self).context() == old(self).context(),
            final(self).state() == let_line(old(self).state(), indent, name@, value@),
    {
        self.emit_trace_event(indent);
        self.emit_trace_text("let ");
        self.emit_trace_text(name);
        self.emit_trace_text(" = ");
        self.emit_trace_value(value);
        self.emit_trace_text("\n");
    }

    /// Reports an assignment that changes a value.
    pub fn emit_trace_change_line(&mut self, indent: usize, name: &str, before: Operand, after: Operand)
        requires
            old(self).inv(),
            old(self).next_vreg < usize::MAX,
            old(self).next_basic_block + 1 < usize::MAX,
            showable(before@),
            showable(after@),
        ensures
            final(self).inv(),
            final(self).context() == old(self).context(),
            final(self).state() == change_line(old(self).state(), indent, name@, before@, after@),
    {
        let print_label = self.alloc_basic_block();
        let after_label = self.alloc_basic_block();
        let cond = self.alloc_temporary(Dtype::I1);
        self.emit_cmp(CmpPredicate::Ne, before.clone(), after.clone(), cond.clone());
        self.emit_cjump(cond, print_label.clone(), after_label.clone());
        self.emit_label(print_label);
        self.emit_trace_event(indent);
        self.emit_trace_text(name);
        self.emit_trace_text(": ");
        self.emit_trace_value(before);
        self.emit_trace_text(" -> ");
        self.emit_trace_value(after);
        self.emit_trace_text("\n");
        self.emit_jump(after_label.clone());
        self.emit_label(after_label);
    }

    /// Reports a condition.
    pub fn emit_trace_condition_line(&mut self, indent: usize, kind: &str, cond: &str, value: Operand)
        requires
            old(self).inv(),
        ensures
            final(self).inv(),
            final(self).context() == old(self).context(),
            final(self).state() == condition_line(old(self).state(), indent, kind@, cond@, value@),
    {
        self.emit_trace_event(indent);
        self.emit_trace_text(kind);
        self.emit_trace_text(" ");
        self.emit_trace_text(cond);
        self.emit_trace_text(" -> ");
        self.emit_trace_truth(value);
        self.emit_trace_text("\n");
    }

    /// Reports an else branch.
    pub fn emit_trace_else_line(&mut self, indent: usize)
        requires
            old(self).inv(),
        ensures
            final(self).inv(),
            final(self).context() == old(self).context(),
            final(self).state() == else_line(old(self).state(), indent),
    {
        self.emit_trace_event(indent);
        self.emit_trace_text("else\n");
    }

    /// A counter for the rounds of a loop.
    pub fn emit_trace_loop_slot(&mut self) -> (slot: Local)
        requires
            old(self).inv(),
            old(self).next_vreg < usize::MAX,
        ensures
            final(self).inv(),
            final(self).context() == old(self).context(),
            (final(self).state(), OperandModel::Local(slot@)) == loop_slot(old(self).state()),
    {
        let slot = self.fresh_local(Dtype::ptr_to(Dtype::I32));
        self.emit_alloca(Operand::from(&slot));
        self.emit_store(Operand::from(0i32), Operand::from(&slot));
        slot
    }

    /// Counts a round of a loop.
    pub fn bump_trace_loop_count(&mut self, slot: &Local) -> (next: Operand)
        requires
            old(self).inv(),
            old(self).next_vreg + 1 < usize::MAX,
        ensures
            final(self).inv(),
            final(self).context() == old(self).context(),
            (final(self).state(), next@) == counted(old(self).state(), OperandModel::Local(slot@)),
    {
        let cur = self.alloc_temporary(Dtype::I32);
        let next = self.alloc_temporary(Dtype::I32);
        self.emit_load(cur.clone(), Operand::from(slot));
        self.emit_biop(ArithBinOp::Add, cur, Operand::from(1i32), next.clone());
        self.emit_store(next.clone(), Operand::from(slot));
        next
    }

    /// Counts a round of a loop and reports it.
    pub fn bump_trace_loop(&mut self, slot: &Local, indent: usize) -> (next: Operand)
        requires
            old(self).inv(),
            old(self).next_vreg + 1 < usize::MAX,
        ensures
            final(self).inv(),
            final(self).context() == old(self).context(),
            (final(self).state(), next@) == loop_line(old(self).state(), OperandModel::Local(slot@), indent),
    {
        let next = self.bump_trace_loop_count(slot);
        self.emit_trace_event(indent);
        self.emit_trace_text("loop #");
        self.emit_trace_value(next.clone());
        self.emit_trace_text("\n");
        next
    }
}

/// Whether a type is that of truth values.
fn is_truth(d: &Dtype) -> (b: bool)
    ensures
        b == (d@ is I1),
{
    match d {
        Dtype::I1 => true,
        _ => false,
    }
}

} // verus!
