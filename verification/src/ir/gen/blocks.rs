//! The shape of translated code: every block ends with a terminator, and
//! every branch goes to a label of the function.

use crate::ast::copy::ExprModel;
use crate::ast::decl::{ArrayInitializer, FnDef, VarDeclStmtInner, VarDef, VarDefInner};
use crate::ast::expr::{
    ArithExpr, ArithExprInner, ArrayExpr, BoolExpr, BoolExprInner, BoolUnit, BoolUnitInner,
    ComExpr, ExprUnit, ExprUnitInner, FnCall, IndexExpr, IndexExprInner, LeftVal, LeftValInner,
    MemberExpr, RightVal, RightValInner,
};
use crate::ast::ops::BoolBiOp;
use crate::ast::stmt::{CodeBlockStmt, CodeBlockStmtInner, IfStmt, WhileStmt};
use crate::common::cfg::{block_positions, branch_targets, branches_resolve, falls_through, targets_in};
use crate::ir::function::{BlockModel, LabelModel};
use crate::ir::gen::conversions::defined;
use crate::ir::gen::harvest::{
    branches_to, gathered, harvestable, harvested, hoisted, is_terminator, moved_allocas,
    no_allocas, no_dangling, non_empty, only_allocas, with_stmt,
};
use crate::ir::gen::lowering::{
    accessed_member, args_code, arith_code, array_base, branch_code, call_code, call_value_code,
    comparison_code, def_code, element_code, element_store, else_code, explicit_type, fill_code,
    function_code, if_code, implicit_return, index_code, indexed, init_code, list_init_code, loaded,
    local_base, lookup, materialized, member_code, params_code, place_code, reference_code,
    right_code, stmt_code, stmts_code, then_loaded, truth_code, unit_branch_code, unit_code,
    while_code, Context, State,
};
use crate::ir::link::linked;
use crate::ir::stmt::StmtModel;
use crate::ir::types::DtypeModel;
use crate::ir::value::OperandModel;
use vstd::prelude::*;

verus! {

/// The last statement of the block is a terminator.
pub open spec fn ended(b: BlockModel) -> bool {
    b.stmts.len() > 0 && is_terminator(b.stmts.last())
}

/// The code has started a block, and all blocks before it have ended.
pub open spec fn ready(code: Seq<StmtModel>) -> bool {
    let h = gathered(code);
    &&& h.open is Some
    &&& forall|i: int| 0 <= i < h.done.len() ==> ended(#[trigger] h.done[i])
    &&& h.closed ==> ended(h.open->0)
}

/// The last block of the code has ended.
pub open spec fn shut(code: Seq<StmtModel>) -> bool {
    gathered(code).closed
}

/// The code holds the label.
pub open spec fn has_label(code: Seq<StmtModel>, text: Seq<char>) -> bool {
    exists|i: int|
        0 <= i < code.len() && (#[trigger] code[i] matches StmtModel::Label { label } && label.text()
            == text)
}

/// The statement branches to a label with the given text.
pub open spec fn goes_to(s: StmtModel, text: Seq<char>) -> bool {
    match s {
        StmtModel::Jump { target } => target.text() == text,
        StmtModel::CJump { true_label, false_label, .. } => true_label.text() == text
            || false_label.text() == text,
        _ => false,
    }
}

/// `b` goes on from `a` in good order: blocks end before others start, and
/// what is added branches to labels of `b` or to those in `extra`.
#[verifier::opaque]
pub open spec fn tidy(a: Seq<StmtModel>, b: Seq<StmtModel>, extra: Set<Seq<char>>) -> bool {
    &&& a.len() <= b.len()
    &&& forall|i: int| 0 <= i < a.len() ==> #[trigger] b[i] == a[i]
    &&& ready(b)
    &&& forall|i: int, t: Seq<char>|
        a.len() <= i < b.len() && #[trigger] goes_to(b[i], t) ==> has_label(b, t)
            || extra.contains(t)
}

/// No labels from outside.
pub open spec fn none() -> Set<Seq<char>> {
    Set::empty()
}

/// Two labels from outside.
pub open spec fn both(a: LabelModel, b: LabelModel) -> Set<Seq<char>> {
    Set::empty().insert(a.text()).insert(b.text())
}

/// The labels of an enclosing loop.
pub open spec fn around(c: Option<LabelModel>, b: Option<LabelModel>) -> Set<Seq<char>> {
    Set::new(
        |t: Seq<char>|
            (c matches Some(x) && x.text() == t) || (b matches Some(y) && y.text() == t),
    )
}

proof fn lemma_ready(a: Seq<StmtModel>, b: Seq<StmtModel>, e: Set<Seq<char>>)
    requires
        tidy(a, b, e),
    ensures
        ready(b),
{
    reveal(tidy);
}

proof fn lemma_label_stays(a: Seq<StmtModel>, b: Seq<StmtModel>, e: Set<Seq<char>>, t: Seq<char>)
    requires
        tidy(a, b, e),
        has_label(a, t),
    ensures
        has_label(b, t),
{
    reveal(tidy);
    let i = choose|i: int|
        0 <= i < a.len() && (#[trigger] a[i] matches StmtModel::Label { label } && label.text()
            == t);
    assert(b[i] == a[i]);
}

proof fn lemma_same(a: Seq<StmtModel>, e: Set<Seq<char>>)
    requires
        ready(a),
    ensures
        tidy(a, a, e),
{
    reveal(tidy);
}

/// Steps follow one another; labels from outside the steps are labels of the
/// end or from outside the whole.
proof fn lemma_then(
    a: Seq<StmtModel>,
    b: Seq<StmtModel>,
    c: Seq<StmtModel>,
    e1: Set<Seq<char>>,
    e2: Set<Seq<char>>,
    e: Set<Seq<char>>,
)
    requires
        tidy(a, b, e1),
        tidy(b, c, e2),
        forall|t: Seq<char>| #[trigger] e1.contains(t) ==> e.contains(t) || has_label(c, t),
        forall|t: Seq<char>| #[trigger] e2.contains(t) ==> e.contains(t) || has_label(c, t),
    ensures
        tidy(a, c, e),
{
    assert forall|t: Seq<char>| #[trigger] has_label(b, t) implies has_label(c, t) by {
        lemma_label_stays(b, c, e2, t);
    }
    reveal(tidy);
    assert forall|i: int, t: Seq<char>|
        a.len() <= i < c.len() && #[trigger] goes_to(c[i], t) implies has_label(c, t)
        || e.contains(t) by {
        if i < b.len() {
            assert(c[i] == b[i]);
            assert(goes_to(b[i], t));
        }
    }
}

/// One more statement that is neither a label nor a terminator.
proof fn lemma_plain(a: Seq<StmtModel>, b: Seq<StmtModel>, s: StmtModel, e: Set<Seq<char>>)
    requires
        tidy(a, b, e),
        !(s is Label),
        !is_terminator(s),
    ensures
        tidy(a, b.push(s), e),
{
    assert(tidy(b, b.push(s), e)) by {
        reveal(tidy);
        assert(b.push(s).drop_last() =~= b);
        assert(gathered(b.push(s)) == with_stmt(gathered(b), s));
    }
    lemma_then(a, b, b.push(s), e, e, e);
}

/// One more terminator that goes to labels from outside.
proof fn lemma_terminator(a: Seq<StmtModel>, b: Seq<StmtModel>, s: StmtModel, e: Set<Seq<char>>)
    requires
        tidy(a, b, e),
        is_terminator(s),
        forall|t: Seq<char>| #[trigger] goes_to(s, t) ==> e.contains(t),
    ensures
        tidy(a, b.push(s), e),
        shut(b.push(s)),
{
    let c = b.push(s);
    lemma_ready(a, b, e);
    assert(c.drop_last() =~= b);
    assert(gathered(c) == with_stmt(gathered(b), s));
    assert(tidy(b, c, e)) by {
        reveal(tidy);
        if !gathered(b).closed {
            assert(gathered(c).open->0.stmts.last() == s);
        }
    }
    lemma_then(a, b, c, e, e, e);
}

/// One more label, after a block that has ended.
proof fn lemma_label(a: Seq<StmtModel>, b: Seq<StmtModel>, label: LabelModel, e: Set<Seq<char>>)
    requires
        tidy(a, b, e),
        shut(b),
    ensures
        tidy(a, b.push(StmtModel::Label { label }), e),
        has_label(b.push(StmtModel::Label { label }), label.text()),
{
    let s = StmtModel::Label { label };
    let c = b.push(s);
    lemma_ready(a, b, e);
    assert(c.drop_last() =~= b);
    assert(gathered(c) == with_stmt(gathered(b), s));
    assert(c[b.len() as int] == s);
    assert(tidy(b, c, e)) by {
        reveal(tidy);
        let h = gathered(b);
        assert forall|i: int| 0 <= i < gathered(c).done.len() implies ended(
            #[trigger] gathered(c).done[i],
        ) by {
            if i < h.done.len() {
                assert(gathered(c).done[i] == h.done[i]);
            }
        }
    }
    lemma_then(a, b, c, e, e, e);
}

/// A jump, and then a label.
proof fn lemma_jump_label(
    a: Seq<StmtModel>,
    b: Seq<StmtModel>,
    target: LabelModel,
    label: LabelModel,
    e: Set<Seq<char>>,
)
    requires
        tidy(a, b, e),
        e.contains(target.text()),
    ensures
        tidy(a, b.push(StmtModel::Jump { target }).push(StmtModel::Label { label }), e),
        has_label(b.push(StmtModel::Jump { target }).push(StmtModel::Label { label }), label.text()),
{
    lemma_terminator(a, b, StmtModel::Jump { target }, e);
    lemma_label(a, b.push(StmtModel::Jump { target }), label, e);
}

/// Labels from outside that the code holds are not from outside.
proof fn lemma_settle(a: Seq<StmtModel>, b: Seq<StmtModel>, e1: Set<Seq<char>>, e: Set<Seq<char>>)
    requires
        tidy(a, b, e1),
        forall|t: Seq<char>| #[trigger] e1.contains(t) ==> e.contains(t) || has_label(b, t),
    ensures
        tidy(a, b, e),
{
    lemma_ready(a, b, e1);
    lemma_same(b, e1);
    lemma_then(a, b, b, e1, e1, e);
}

/// Labels stay when statements are added.
proof fn lemma_label_kept(a: Seq<StmtModel>, s: StmtModel, t: Seq<char>)
    requires
        has_label(a, t),
    ensures
        has_label(a.push(s), t),
{
    let b = a.push(s);
    let i = choose|i: int|
        0 <= i < a.len() && (#[trigger] a[i] matches StmtModel::Label { label } && label.text()
            == t);
    assert(b[i] == a[i]);
}

proof fn lemma_load_tidy(a: Seq<StmtModel>, st: State, d: DtypeModel, ptr: OperandModel, e: Set<Seq<char>>)
    requires
        tidy(a, st.code, e),
    ensures
        tidy(a, st.load(d, ptr).0.code, e),
{
    let s1 = st.load(d, ptr).0;
    assert(s1.code == st.code.push(s1.code.last()));
    lemma_plain(a, st.code, s1.code.last(), e);
}

proof fn lemma_slot_tidy(a: Seq<StmtModel>, st: State, d: DtypeModel, e: Set<Seq<char>>)
    requires
        tidy(a, st.code, e),
    ensures
        tidy(a, st.slot(d).0.code, e),
{
    let s1 = st.slot(d).0;
    assert(s1.code == st.code.push(s1.code.last()));
    lemma_plain(a, st.code, s1.code.last(), e);
}

proof fn lemma_loaded_tidy(a: Seq<StmtModel>, st: State, op: OperandModel)
    requires
        tidy(a, st.code, none()),
    ensures
        tidy(a, loaded(st, op).0.code, none()),
{
    match op.ty() {
        DtypeModel::Pointer(p) => {
            lemma_load_tidy(a, st, *p, op, none());
        },
        _ => {
            lemma_load_tidy(a, st, DtypeModel::I32, op, none());
        },
    }
}

proof fn lemma_then_loaded(
    a: Seq<StmtModel>,
    step: (State, Result<OperandModel, crate::ir::error::ErrorModel>),
)
    requires
        step.1 is Ok ==> tidy(a, step.0.code, none()),
    ensures
        then_loaded(step).1 is Ok ==> tidy(a, then_loaded(step).0.code, none()),
{
    match step.1 {
        Err(_) => {},
        Ok(op) => {
            lemma_loaded_tidy(a, step.0, op);
        },
    }
}

proof fn lemma_index_tidy(a: Seq<StmtModel>, cx: Context, st: State, e: IndexExpr)
    requires
        tidy(a, st.code, none()),
    ensures
        index_code(cx, st, e).1 is Ok ==> tidy(a, index_code(cx, st, e).0.code, none()),
{
    match e.inner {
        IndexExprInner::Id(id) => {
            match lookup(cx, st, id@) {
                Err(_) => {},
                Ok(src) => {
                    lemma_load_tidy(a, st, DtypeModel::I32, src, none());
                },
            }
        },
        IndexExprInner::Num(_) => {},
    }
}

proof fn lemma_place_tidy(cx: Context, st: State, p: LeftVal)
    requires
        ready(st.code),
    ensures
        place_code(cx, st, p).1 is Ok ==> tidy(st.code, place_code(cx, st, p).0.code, none()),
    decreases p,
{
    lemma_same(st.code, none());
    match p.inner {
        LeftValInner::Id(_) => {},
        LeftValInner::ArrayExpr(e) => lemma_element_tidy(cx, st, *e),
        LeftValInner::MemberExpr(e) => lemma_member_tidy(cx, st, *e),
    }
}

proof fn lemma_element_tidy(cx: Context, st: State, e: ArrayExpr)
    requires
        ready(st.code),
    ensures
        element_code(cx, st, e).1 is Ok ==> tidy(st.code, element_code(cx, st, e).0.code, none()),
    decreases e,
{
    let a = st.code;
    lemma_place_tidy(cx, st, *e.arr);
    let (s0, place) = place_code(cx, st, *e.arr);
    match place {
        Err(_) => {},
        Ok(arr) => {
            let (s1, base_ptr) = array_base(s0, arr);
            match arr.ty() {
                DtypeModel::Pointer(p) => lemma_load_tidy(a, s0, *p, arr, none()),
                _ => {},
            }
            match indexed(base_ptr.ty()) {
                None => {},
                Some(d) => {
                    let (s2, new_ptr) = s1.fresh(d.pointer());
                    lemma_index_tidy(a, cx, s2, *e.idx);
                    let (s3, idx) = index_code(cx, s2, *e.idx);
                    match idx {
                        Err(_) => {},
                        Ok(index) => {
                            let g = StmtModel::Gep { new_ptr, base_ptr, index };
                            lemma_plain(a, s3.code, g, none());
                        },
                    }
                },
            }
        },
    }
}

proof fn lemma_member_tidy(cx: Context, st: State, e: MemberExpr)
    requires
        ready(st.code),
    ensures
        member_code(cx, st, e).1 is Ok ==> tidy(st.code, member_code(cx, st, e).0.code, none()),
    decreases e,
{
    lemma_place_tidy(cx, st, *e.struct_id);
    let (s0, place) = place_code(cx, st, *e.struct_id);
    match place {
        Err(_) => {},
        Ok(op) => match accessed_member(cx, op, e) {
            None => {},
            Some(m) => {
                let (s1, target) = s0.fresh(m.dtype.pointer());
                let g = StmtModel::Gep {
                    new_ptr: target,
                    base_ptr: op,
                    index: OperandModel::i32_const(m.index as int),
                };
                lemma_plain(st.code, s0.code, g, none());
            },
        },
    }
}

proof fn lemma_reference_tidy(cx: Context, st: State, id: Seq<char>)
    requires
        ready(st.code),
    ensures
        reference_code(cx, st, id).1 is Ok ==> tidy(st.code, reference_code(cx, st, id).0.code, none()),
{
    lemma_same(st.code, none());
    let s = reference_code(cx, st, id).0;
    if s.code != st.code {
        assert(s.code == st.code.push(s.code.last()));
        lemma_plain(st.code, st.code, s.code.last(), none());
    }
}

proof fn lemma_unit_tidy(cx: Context, st: State, u: ExprUnit)
    requires
        ready(st.code),
    ensures
        unit_code(cx, st, u).1 is Ok ==> tidy(st.code, unit_code(cx, st, u).0.code, none()),
    decreases u,
{
    lemma_same(st.code, none());
    match u.inner {
        ExprUnitInner::Num(_) => {},
        ExprUnitInner::Id(id) => {
            match lookup(cx, st, id@) {
                Err(_) => {},
                Ok(op) => {
                    lemma_then_loaded(st.code, (st, Ok(op)));
                },
            }
        },
        ExprUnitInner::ArithExpr(e) => {
            lemma_arith_tidy(cx, st, *e);
            lemma_then_loaded(st.code, arith_code(cx, st, *e));
        },
        ExprUnitInner::FnCall(c) => lemma_call_value_tidy(cx, st, *c, u@),
        ExprUnitInner::ArrayExpr(e) => {
            lemma_element_tidy(cx, st, *e);
            lemma_then_loaded(st.code, element_code(cx, st, *e));
        },
        ExprUnitInner::MemberExpr(e) => {
            lemma_member_tidy(cx, st, *e);
            lemma_then_loaded(st.code, member_code(cx, st, *e));
        },
        ExprUnitInner::Reference(id) => lemma_reference_tidy(cx, st, id@),
    }
}

proof fn lemma_call_value_tidy(cx: Context, st: State, c: FnCall, unit: ExprModel)
    requires
        ready(st.code),
    ensures
        call_value_code(cx, st, c, unit).1 is Ok ==> tidy(st.code, call_value_code(cx, st, c, unit).0.code, none()),
    decreases c,
{
    lemma_same(st.code, none());
    let (s1, res) = st.fresh(DtypeModel::I32);
    lemma_args_tidy(cx, s1, c.vals@);
    let (s2, values) = args_code(cx, s1, c.vals@);
    match values {
        Err(_) => {},
        Ok(args) => {
            let call = StmtModel::Call {
                func_name: linked(cx.links, c.callee()),
                res: Some(res),
                args,
            };
            lemma_plain(st.code, s2.code, call, none());
        },
    }
}

proof fn lemma_args_tidy(cx: Context, st: State, vals: Seq<RightVal>)
    requires
        ready(st.code),
    ensures
        args_code(cx, st, vals).1 is Ok ==> tidy(st.code, args_code(cx, st, vals).0.code, none()),
    decreases vals,
{
    lemma_same(st.code, none());
    if vals.len() > 0 {
        lemma_args_tidy(cx, st, vals.drop_last());
        let (s1, front) = args_code(cx, st, vals.drop_last());
        if front is Ok {
            lemma_ready(st.code, s1.code, none());
            lemma_right_tidy(cx, s1, vals.last());
            let (s2, last) = right_code(cx, s1, vals.last());
            if last is Ok {
                lemma_then(st.code, s1.code, s2.code, none(), none(), none());
            }
        }
    }
}

proof fn lemma_arith_tidy(cx: Context, st: State, e: ArithExpr)
    requires
        ready(st.code),
    ensures
        arith_code(cx, st, e).1 is Ok ==> tidy(st.code, arith_code(cx, st, e).0.code, none()),
    decreases e,
{
    match e.inner {
        ArithExprInner::ArithBiOpExpr(b) => {
            lemma_arith_tidy(cx, st, *b.left);
            let (s1, l) = arith_code(cx, st, *b.left);
            if l is Ok {
                lemma_ready(st.code, s1.code, none());
                lemma_arith_tidy(cx, s1, *b.right);
            }
            let (s2, r) = arith_code(cx, s1, *b.right);
            if l is Ok && r is Ok {
                lemma_then(st.code, s1.code, s2.code, none(), none(), none());
                let full = arith_code(cx, st, e).0.code;
                assert(full == s2.code.push(full.last()));
                lemma_plain(st.code, s2.code, full.last(), none());
            }
        },
        ArithExprInner::ExprUnit(u) => lemma_unit_tidy(cx, st, *u),
    }
}

proof fn lemma_right_tidy(cx: Context, st: State, v: RightVal)
    requires
        ready(st.code),
    ensures
        right_code(cx, st, v).1 is Ok ==> tidy(st.code, right_code(cx, st, v).0.code, none()),
    decreases v,
{
    match v.inner {
        RightValInner::ArithExpr(e) => lemma_arith_tidy(cx, st, *e),
        RightValInner::BoolExpr(e) => lemma_truth_tidy(cx, st, *e),
    }
}

proof fn lemma_truth_tidy(cx: Context, st: State, e: BoolExpr)
    requires
        ready(st.code),
    ensures
        truth_code(cx, st, e).1 is Ok ==> tidy(st.code, truth_code(cx, st, e).0.code, none()),
    decreases e, 1int,
{
    let a = st.code;
    let (s1, on_true) = st.label();
    let (s2, on_false) = s1.label();
    let (s3, after) = s2.label();
    let (s4, ptr) = s3.slot(DtypeModel::I32);
    let x = both(on_true, on_false).insert(after.text());
    lemma_same(a, x);
    lemma_slot_tidy(a, s3, DtypeModel::I32, x);
    lemma_ready(a, s4.code, x);
    lemma_branch_tidy(cx, s4, e, on_true, on_false);
    let (s5, r) = branch_code(cx, s4, e, on_true, on_false);
    if r is Ok {
        lemma_then(a, s4.code, s5.code, x, both(on_true, on_false), x);
        lemma_materialized(a, s5, on_true, on_false, after, ptr, x);
        let s6 = materialized(s5, on_true, on_false, after, ptr);
        lemma_load_tidy(a, s6, DtypeModel::I32, ptr, none());
    }
}

proof fn lemma_materialized(
    a: Seq<StmtModel>,
    s5: State,
    on_true: LabelModel,
    on_false: LabelModel,
    after: LabelModel,
    ptr: OperandModel,
    x: Set<Seq<char>>,
)
    requires
        tidy(a, s5.code, x),
        shut(s5.code),
        x == both(on_true, on_false).insert(after.text()),
    ensures
        tidy(a, materialized(s5, on_true, on_false, after, ptr).code, none()),
{
    let c1 = s5.code.push(StmtModel::Label { label: on_true });
    lemma_label(a, s5.code, on_true, x);
    let st1 = StmtModel::Store { src: OperandModel::i32_const(1), ptr };
    let c2 = c1.push(st1);
    lemma_plain(a, c1, st1, x);
    let j = StmtModel::Jump { target: after };
    let c3 = c2.push(j).push(StmtModel::Label { label: on_false });
    lemma_jump_label(a, c2, after, on_false, x);
    let st0 = StmtModel::Store { src: OperandModel::i32_const(0), ptr };
    let c4 = c3.push(st0);
    lemma_plain(a, c3, st0, x);
    let c5 = c4.push(j).push(StmtModel::Label { label: after });
    lemma_jump_label(a, c4, after, after, x);
    assert(materialized(s5, on_true, on_false, after, ptr).code == c5);
    let t = on_true.text();
    lemma_label_kept(c1, st1, t);
    lemma_label_kept(c2, j, t);
    lemma_label_kept(c2.push(j), StmtModel::Label { label: on_false }, t);
    lemma_label_kept(c3, st0, t);
    lemma_label_kept(c4, j, t);
    lemma_label_kept(c4.push(j), StmtModel::Label { label: after }, t);
    let f = on_false.text();
    lemma_label_kept(c3, st0, f);
    lemma_label_kept(c4, j, f);
    lemma_label_kept(c4.push(j), StmtModel::Label { label: after }, f);
    lemma_settle(a, c5, x, none());
}

proof fn lemma_branch_tidy(
    cx: Context,
    st: State,
    e: BoolExpr,
    on_true: LabelModel,
    on_false: LabelModel,
)
    requires
        ready(st.code),
    ensures
        branch_code(cx, st, e, on_true, on_false).1 is Ok ==> tidy(
            st.code,
            branch_code(cx, st, e, on_true, on_false).0.code,
            both(on_true, on_false),
        ) && shut(branch_code(cx, st, e, on_true, on_false).0.code),
    decreases e, 0int,
{
    match e.inner {
        BoolExprInner::BoolBiOpExpr(b) => {
            let a = st.code;
            let x = both(on_true, on_false);
            let (s1, eval_right) = st.label();
            let y = x.insert(eval_right.text());
            let (s2, l) = match b.op {
                BoolBiOp::And => {
                    lemma_branch_tidy(cx, s1, *b.left, eval_right, on_false);
                    branch_code(cx, s1, *b.left, eval_right, on_false)
                },
                BoolBiOp::Or => {
                    lemma_branch_tidy(cx, s1, *b.left, on_true, eval_right);
                    branch_code(cx, s1, *b.left, on_true, eval_right)
                },
            };
            if l is Ok {
                let used = match b.op {
                    BoolBiOp::And => both(eval_right, on_false),
                    BoolBiOp::Or => both(on_true, eval_right),
                };
                assert(tidy(a, s2.code, used));
                lemma_settle(a, s2.code, used, y);
                lemma_label(a, s2.code, eval_right, y);
                let s3 = s2.emit(StmtModel::Label { label: eval_right });
                lemma_ready(a, s3.code, y);
                lemma_branch_tidy(cx, s3, *b.right, on_true, on_false);
                let (s4, r) = branch_code(cx, s3, *b.right, on_true, on_false);
                if r is Ok {
                    lemma_label_stays(s3.code, s4.code, x, eval_right.text());
                    lemma_then(a, s3.code, s4.code, y, x, x);
                }
            }
        },
        BoolExprInner::BoolUnit(u) => lemma_unit_branch_tidy(cx, st, *u, on_true, on_false),
    }
}

proof fn lemma_comparison_tidy(
    cx: Context,
    st: State,
    c: ComExpr,
    on_true: LabelModel,
    on_false: LabelModel,
)
    requires
        ready(st.code),
    ensures
        comparison_code(cx, st, c, on_true, on_false).1 is Ok ==> tidy(
            st.code,
            comparison_code(cx, st, c, on_true, on_false).0.code,
            both(on_true, on_false),
        ) && shut(comparison_code(cx, st, c, on_true, on_false).0.code),
    decreases c,
{
    let a = st.code;
    let x = both(on_true, on_false);
    lemma_unit_tidy(cx, st, *c.left);
    let (s1, l) = unit_code(cx, st, *c.left);
    if l is Ok {
        lemma_ready(a, s1.code, none());
        lemma_unit_tidy(cx, s1, *c.right);
        let (s2, r) = unit_code(cx, s1, *c.right);
        if r is Ok {
            lemma_then(a, s1.code, s2.code, none(), none(), x);
            let full = comparison_code(cx, st, c, on_true, on_false).0.code;
            let mid = full.drop_last();
            let jump = full.last();
            assert(mid == s2.code.push(mid.last()));
            assert(full == mid.push(jump));
            lemma_plain(a, s2.code, mid.last(), x);
            lemma_terminator(a, mid, jump, x);
        }
    }
}

proof fn lemma_unit_branch_tidy(
    cx: Context,
    st: State,
    u: BoolUnit,
    on_true: LabelModel,
    on_false: LabelModel,
)
    requires
        ready(st.code),
    ensures
        unit_branch_code(cx, st, u, on_true, on_false).1 is Ok ==> tidy(
            st.code,
            unit_branch_code(cx, st, u, on_true, on_false).0.code,
            both(on_true, on_false),
        ) && shut(unit_branch_code(cx, st, u, on_true, on_false).0.code),
    decreases u,
{
    match u.inner {
        BoolUnitInner::ComExpr(c) => lemma_comparison_tidy(cx, st, *c, on_true, on_false),
        BoolUnitInner::BoolExpr(e) => lemma_branch_tidy(cx, st, *e, on_true, on_false),
        BoolUnitInner::BoolUOpExpr(n) => {
            lemma_unit_branch_tidy(cx, st, *n.cond, on_false, on_true);
            assert(both(on_false, on_true) =~= both(on_true, on_false));
        },
    }
}

proof fn lemma_element_store(
    a: Seq<StmtModel>,
    st: State,
    base_ptr: OperandModel,
    new_ptr: OperandModel,
    index: int,
    src: OperandModel,
)
    requires
        tidy(a, st.code, none()),
    ensures
        tidy(a, element_store(st, base_ptr, new_ptr, index, src).code, none()),
{
    let g = StmtModel::Gep { new_ptr, base_ptr, index: OperandModel::i32_const(index) };
    lemma_plain(a, st.code, g, none());
    lemma_plain(a, st.code.push(g), StmtModel::Store { src, ptr: new_ptr }, none());
}

proof fn lemma_list_init_tidy(cx: Context, st: State, base_ptr: OperandModel, vals: Seq<RightVal>)
    requires
        ready(st.code),
    ensures
        list_init_code(cx, st, base_ptr, vals).1 is Ok ==> tidy(
            st.code,
            list_init_code(cx, st, base_ptr, vals).0.code,
            none(),
        ),
    decreases vals.len(),
{
    lemma_same(st.code, none());
    if vals.len() > 0 {
        lemma_list_init_tidy(cx, st, base_ptr, vals.drop_last());
        let (s1, front) = list_init_code(cx, st, base_ptr, vals.drop_last());
        if front is Ok {
            lemma_ready(st.code, s1.code, none());
            let (s2, new_ptr) = s1.fresh(DtypeModel::I32.pointer());
            lemma_right_tidy(cx, s2, vals.last());
            let (s3, last) = right_code(cx, s2, vals.last());
            match last {
                Err(_) => {},
                Ok(v) => {
                    lemma_then(st.code, s1.code, s3.code, none(), none(), none());
                    lemma_element_store(st.code, s3, base_ptr, new_ptr, vals.len() - 1, v);
                },
            }
        }
    }
}

proof fn lemma_fill_tidy(
    a: Seq<StmtModel>,
    st: State,
    base_ptr: OperandModel,
    v: OperandModel,
    count: nat,
)
    requires
        tidy(a, st.code, none()),
    ensures
        tidy(a, fill_code(st, base_ptr, v, count).code, none()),
    decreases count,
{
    if count > 0 {
        lemma_fill_tidy(a, st, base_ptr, v, (count - 1) as nat);
        let s1 = fill_code(st, base_ptr, v, (count - 1) as nat);
        let (s2, new_ptr) = s1.fresh(DtypeModel::I32.pointer());
        lemma_element_store(a, s2, base_ptr, new_ptr, count - 1, v);
    }
}

proof fn lemma_init_tidy(cx: Context, st: State, base_ptr: OperandModel, init: ArrayInitializer)
    requires
        ready(st.code),
    ensures
        init_code(cx, st, base_ptr, init).1 is Ok ==> tidy(
            st.code,
            init_code(cx, st, base_ptr, init).0.code,
            none(),
        ),
{
    match init {
        ArrayInitializer::ExplicitList(vals) => lemma_list_init_tidy(cx, st, base_ptr, vals@),
        ArrayInitializer::Fill { val, count } => {
            lemma_right_tidy(cx, st, *val);
            let (s1, r) = right_code(cx, st, *val);
            match r {
                Err(_) => {},
                Ok(v) => lemma_fill_tidy(st.code, s1, base_ptr, v, count as nat),
            }
        },
    }
}

proof fn lemma_def_tidy(cx: Context, st: State, d: VarDef)
    requires
        ready(st.code),
    ensures
        def_code(cx, st, d).1 is Ok ==> tidy(st.code, def_code(cx, st, d).0.code, none()),
{
    let elem = local_base(
        cx,
        d.identifier@,
        explicit_type(d.type_specifier),
        d.inner is Scalar,
    );
    let pointee = defined(elem, d.inner);
    match d.inner {
        VarDefInner::Scalar(s) => {
            lemma_right_tidy(cx, st, *s.val);
            let (s1, r) = right_code(cx, st, *s.val);
            match r {
                Err(_) => {},
                Ok(src) => {
                    lemma_slot_tidy(st.code, s1, pointee, none());
                    let (s2, slot) = s1.slot(pointee);
                    lemma_plain(st.code, s2.code, StmtModel::Store { src, ptr: slot }, none());
                },
            }
        },
        VarDefInner::Array(a) => {
            let (s1, slot) = st.slot(pointee);
            lemma_same(st.code, none());
            lemma_slot_tidy(st.code, st, pointee, none());
            lemma_ready(st.code, s1.code, none());
            lemma_init_tidy(cx, s1, slot, a.initializer);
            let (s2, r) = init_code(cx, s1, slot, a.initializer);
            if r is Ok {
                lemma_then(st.code, s1.code, s2.code, none(), none(), none());
            }
        },
    }
}

proof fn lemma_simple_tidy(
    cx: Context,
    st: State,
    s: CodeBlockStmt,
    on_continue: Option<LabelModel>,
    on_break: Option<LabelModel>,
)
    requires
        ready(st.code),
        !(s.inner is If),
        !(s.inner is While),
    ensures
        stmt_code(cx, st, s, on_continue, on_break).1 is Ok ==> tidy(
            st.code,
            stmt_code(cx, st, s, on_continue, on_break).0.code,
            around(on_continue, on_break),
        ),
{
    let a = st.code;
    let x = around(on_continue, on_break);
    lemma_same(a, x);
    lemma_same(a, none());
    let full = stmt_code(cx, st, s, on_continue, on_break).0.code;
    match s.inner {
        CodeBlockStmtInner::VarDecl(v) => match v.inner {
            VarDeclStmtInner::Decl(d) => {
                let (s1, slot) = st.slot(
                    crate::ir::gen::conversions::declared(
                        local_base(
                            cx,
                            d.identifier@,
                            explicit_type(d.type_specifier),
                            d.inner is Scalar,
                        ),
                        d.inner,
                    ),
                );
                lemma_slot_tidy(
                    a,
                    st,
                    crate::ir::gen::conversions::declared(
                        local_base(
                            cx,
                            d.identifier@,
                            explicit_type(d.type_specifier),
                            d.inner is Scalar,
                        ),
                        d.inner,
                    ),
                    x,
                );
            },
            VarDeclStmtInner::Def(d) => {
                lemma_def_tidy(cx, st, *d);
                if def_code(cx, st, *d).1 is Ok {
                    lemma_settle(a, full, none(), x);
                }
            },
        },
        CodeBlockStmtInner::Assignment(s) => {
            lemma_place_tidy(cx, st, *s.left_val);
            let (s1, l) = place_code(cx, st, *s.left_val);
            if l is Ok {
                lemma_ready(a, s1.code, none());
                lemma_right_tidy(cx, s1, *s.right_val);
                let (s2, r) = right_code(cx, s1, *s.right_val);
                if r is Ok {
                    lemma_then(a, s1.code, s2.code, none(), none(), x);
                    lemma_plain(a, s2.code, full.last(), x);
                    assert(full == s2.code.push(full.last()));
                }
            }
        },
        CodeBlockStmtInner::Call(c) => {
            lemma_args_tidy(cx, st, c.fn_call.vals@);
            let (s1, values) = args_code(cx, st, c.fn_call.vals@);
            if call_code(cx, st, *c).1 is Ok {
                assert(full == s1.code.push(full.last()));
                lemma_settle(a, s1.code, none(), x);
                lemma_plain(a, s1.code, full.last(), x);
            }
        },
        CodeBlockStmtInner::Return(r) => {
            match r.val {
                None => {
                    lemma_terminator(a, a, StmtModel::Return { val: None }, x);
                },
                Some(v) => {
                    lemma_right_tidy(cx, st, *v);
                    let (s1, y) = right_code(cx, st, *v);
                    if y is Ok {
                        lemma_settle(a, s1.code, none(), x);
                        assert(full == s1.code.push(full.last()));
                        lemma_terminator(a, s1.code, full.last(), x);
                    }
                },
            }
        },
        CodeBlockStmtInner::Continue(_) => {
            match on_continue {
                Some(target) => lemma_terminator(a, a, StmtModel::Jump { target }, x),
                None => {},
            }
        },
        CodeBlockStmtInner::Break(_) => {
            match on_break {
                Some(target) => lemma_terminator(a, a, StmtModel::Jump { target }, x),
                None => {},
            }
        },
        _ => {},
    }
}

proof fn lemma_stmt_tidy(
    cx: Context,
    st: State,
    s: CodeBlockStmt,
    on_continue: Option<LabelModel>,
    on_break: Option<LabelModel>,
)
    requires
        ready(st.code),
    ensures
        stmt_code(cx, st, s, on_continue, on_break).1 is Ok ==> tidy(
            st.code,
            stmt_code(cx, st, s, on_continue, on_break).0.code,
            around(on_continue, on_break),
        ),
    decreases s,
{
    match s.inner {
        CodeBlockStmtInner::If(i) => lemma_if_tidy(cx, st, *i, on_continue, on_break),
        CodeBlockStmtInner::While(w) => {
            lemma_while_tidy(cx, st, *w);
            if while_code(cx, st, *w).1 is Ok {
                lemma_settle(
                    st.code,
                    while_code(cx, st, *w).0.code,
                    none(),
                    around(on_continue, on_break),
                );
            }
        },
        _ => lemma_simple_tidy(cx, st, s, on_continue, on_break),
    }
}

proof fn lemma_stmts_tidy(
    cx: Context,
    st: State,
    stmts: Seq<CodeBlockStmt>,
    on_continue: Option<LabelModel>,
    on_break: Option<LabelModel>,
)
    requires
        ready(st.code),
    ensures
        stmts_code(cx, st, stmts, on_continue, on_break).1 is Ok ==> tidy(
            st.code,
            stmts_code(cx, st, stmts, on_continue, on_break).0.code,
            around(on_continue, on_break),
        ),
    decreases stmts,
{
    let x = around(on_continue, on_break);
    lemma_same(st.code, x);
    if stmts.len() > 0 {
        lemma_stmts_tidy(cx, st, stmts.drop_last(), on_continue, on_break);
        let (s1, front) = stmts_code(cx, st, stmts.drop_last(), on_continue, on_break);
        if front is Ok {
            lemma_ready(st.code, s1.code, x);
            lemma_stmt_tidy(cx, s1, stmts.last(), on_continue, on_break);
            let (s2, last) = stmt_code(cx, s1, stmts.last(), on_continue, on_break);
            if last is Ok {
                lemma_then(st.code, s1.code, s2.code, x, x, x);
            }
        }
    }
}

proof fn lemma_else_tidy(
    cx: Context,
    st: State,
    branch: Option<Vec<CodeBlockStmt>>,
    on_continue: Option<LabelModel>,
    on_break: Option<LabelModel>,
)
    requires
        ready(st.code),
    ensures
        else_code(cx, st, branch, on_continue, on_break).1 is Ok ==> tidy(
            st.code,
            else_code(cx, st, branch, on_continue, on_break).0.code,
            around(on_continue, on_break),
        ),
    decreases branch,
{
    lemma_same(st.code, around(on_continue, on_break));
    if let Some(stmts) = branch {
        lemma_stmts_tidy(cx, st, stmts@, on_continue, on_break);
    }
}

proof fn lemma_if_tidy(
    cx: Context,
    st: State,
    i: IfStmt,
    on_continue: Option<LabelModel>,
    on_break: Option<LabelModel>,
)
    requires
        ready(st.code),
    ensures
        if_code(cx, st, i, on_continue, on_break).1 is Ok ==> tidy(
            st.code,
            if_code(cx, st, i, on_continue, on_break).0.code,
            around(on_continue, on_break),
        ),
    decreases i,
{
    let a = st.code;
    let x = around(on_continue, on_break);
    let (s1, on_true) = st.label();
    let (s2, on_false) = s1.label();
    let (s3, after) = s2.label();
    let y = x.insert(on_true.text()).insert(on_false.text()).insert(after.text());
    lemma_unit_branch_tidy(cx, s3, *i.bool_unit, on_true, on_false);
    let (s4, c) = unit_branch_code(cx, s3, *i.bool_unit, on_true, on_false);
    if c is Ok {
        lemma_settle(a, s4.code, both(on_true, on_false), y);
        lemma_label(a, s4.code, on_true, y);
        let s4b = s4.emit(StmtModel::Label { label: on_true }).enter();
        lemma_ready(a, s4b.code, y);
        lemma_stmts_tidy(cx, s4b, i.if_stmts@, on_continue, on_break);
        let (s5, t) = stmts_code(cx, s4b, i.if_stmts@, on_continue, on_break);
        if t is Ok {
            lemma_then(a, s4b.code, s5.code, y, x, y);
            lemma_jump_label(a, s5.code, after, on_false, y);
            let s6 = s5.exit().emit(StmtModel::Jump { target: after }).emit(
                StmtModel::Label { label: on_false },
            ).enter();
            lemma_ready(a, s6.code, y);
            lemma_else_tidy(cx, s6, i.else_stmts, on_continue, on_break);
            let (s7, f) = else_code(cx, s6, i.else_stmts, on_continue, on_break);
            if f is Ok {
                lemma_then(a, s6.code, s7.code, y, x, y);
                lemma_jump_label(a, s7.code, after, after, y);
                let j = StmtModel::Jump { target: after };
                let l = StmtModel::Label { label: after };
                let full = s7.code.push(j).push(l);
                let tt = on_true.text();
                lemma_label_stays(s4b.code, s5.code, x, tt);
                lemma_label_kept(s5.code, j, tt);
                lemma_label_kept(s5.code.push(j), StmtModel::Label { label: on_false }, tt);
                lemma_label_stays(s6.code, s7.code, x, tt);
                lemma_label_kept(s7.code, j, tt);
                lemma_label_kept(s7.code.push(j), l, tt);
                let ff = on_false.text();
                lemma_label_stays(s6.code, s7.code, x, ff);
                lemma_label_kept(s7.code, j, ff);
                lemma_label_kept(s7.code.push(j), l, ff);
                lemma_settle(a, full, y, x);
            }
        }
    }
}

proof fn lemma_while_tidy(cx: Context, st: State, w: WhileStmt)
    requires
        ready(st.code),
    ensures
        while_code(cx, st, w).1 is Ok ==> tidy(st.code, while_code(cx, st, w).0.code, none()),
    decreases w,
{
    let a = st.code;
    let (s1, test) = st.label();
    let (s2, on_true) = s1.label();
    let (s3, on_false) = s2.label();
    let y = none().insert(on_true.text()).insert(on_false.text()).insert(test.text());
    lemma_same(a, y);
    lemma_jump_label(a, a, test, test, y);
    let s4 = s3.emit(StmtModel::Jump { target: test }).emit(StmtModel::Label { label: test });
    lemma_ready(a, s4.code, y);
    lemma_unit_branch_tidy(cx, s4, *w.bool_unit, on_true, on_false);
    let (s5, c) = unit_branch_code(cx, s4, *w.bool_unit, on_true, on_false);
    if c is Ok {
        lemma_then(a, s4.code, s5.code, y, both(on_true, on_false), y);
        lemma_label(a, s5.code, on_true, y);
        let s5b = s5.emit(StmtModel::Label { label: on_true }).enter();
        lemma_ready(a, s5b.code, y);
        let x = around(Some(test), Some(on_false));
        lemma_stmts_tidy(cx, s5b, w.stmts@, Some(test), Some(on_false));
        let (s6, b) = stmts_code(cx, s5b, w.stmts@, Some(test), Some(on_false));
        if b is Ok {
            lemma_then(a, s5b.code, s6.code, y, x, y);
            lemma_jump_label(a, s6.code, test, on_false, y);
            let j = StmtModel::Jump { target: test };
            let l = StmtModel::Label { label: on_false };
            let full = s6.code.push(j).push(l);
            let t0 = test.text();
            lemma_label_stays(s4.code, s5.code, both(on_true, on_false), t0);
            lemma_label_kept(s5.code, StmtModel::Label { label: on_true }, t0);
            lemma_label_stays(s5b.code, s6.code, x, t0);
            lemma_label_kept(s6.code, j, t0);
            lemma_label_kept(s6.code.push(j), l, t0);
            let tt = on_true.text();
            lemma_label_stays(s5b.code, s6.code, x, tt);
            lemma_label_kept(s6.code, j, tt);
            lemma_label_kept(s6.code.push(j), l, tt);
            lemma_settle(a, full, y, none());
        }
    }
}

proof fn lemma_params_tidy(st: State, params: Seq<(Seq<char>, DtypeModel)>)
    requires
        ready(st.code),
    ensures
        params_code(st, params).1 is Ok ==> tidy(st.code, params_code(st, params).0.code, none()),
    decreases params.len(),
{
    lemma_same(st.code, none());
    if params.len() > 0 {
        lemma_params_tidy(st, params.drop_last());
        let (s1, front) = params_code(st, params.drop_last());
        if front is Ok {
            let (name, d) = params.last();
            let (s2, arg) = s1.fresh(d);
            let (s4, slot) = s2.slot(d);
            lemma_slot_tidy(st.code, s2, d, none());
            let full = params_code(st, params).0.code;
            if params_code(st, params).1 is Ok {
                assert(full == s4.code.push(full.last()));
                lemma_plain(st.code, s4.code, full.last(), none());
            }
        }
    }
}

/// The code of a function: it has started and ended all its blocks, and every
/// branch goes to one of its labels.
pub proof fn lemma_function_tidy(cx: Context, st: State, f: FnDef)
    requires
        st.code.len() == 0,
        function_code(cx, st, f).1 is Ok,
    ensures
        ready(function_code(cx, st, f).0.code),
        shut(function_code(cx, st, f).0.code),
        forall|i: int, t: Seq<char>|
            0 <= i < function_code(cx, st, f).0.code.len() && #[trigger] goes_to(
                function_code(cx, st, f).0.code[i],
                t,
            ) ==> has_label(function_code(cx, st, f).0.code, t),
{
    let name = f.fn_decl.identifier@;
    let ty = cx.functions[name];
    let label = LabelModel::Function(name);
    let s1 = st.emit(StmtModel::Label { label });
    assert(s1.code.drop_last() =~= st.code);
    assert(st.code =~= Seq::empty());
    assert(gathered(s1.code) == with_stmt(gathered(st.code), StmtModel::Label { label }));
    assert(ready(s1.code));
    lemma_params_tidy(s1, ty.arguments);
    let (s2, p) = params_code(s1, ty.arguments);
    lemma_ready(s1.code, s2.code, none());
    lemma_stmts_tidy(cx, s2, f.stmts@, None, None);
    let (s3, b) = stmts_code(cx, s2, f.stmts@, None, None);
    let x = around(None, None);
    assert(x =~= none());
    lemma_then(s1.code, s2.code, s3.code, none(), none(), none());
    lemma_ready(s1.code, s3.code, none());
    let full = implicit_return(s3, ty.return_dtype).code;
    if s3.code.last() is Return {
        assert(s3.code.len() > 0) by {
            reveal(tidy);
        }
        assert(s3.code == s3.code.drop_last().push(s3.code.last()));
        assert(gathered(s3.code) == with_stmt(gathered(s3.code.drop_last()), s3.code.last()));
    } else {
        assert(full == s3.code.push(full.last()));
        lemma_terminator(s1.code, s3.code, full.last(), none());
    }
    lemma_ready(s1.code, full, none());
    assert forall|i: int, t: Seq<char>|
        0 <= i < full.len() && #[trigger] goes_to(full[i], t) implies has_label(full, t) by {
        reveal(tidy);
        if i < s1.code.len() {
            assert(full[i] == s1.code[i]);
        }
    }
}

/// Where all blocks of the code have ended, none is empty after allocations
/// have moved, and all keep their places.
proof fn lemma_ended_kept(bs: Seq<BlockModel>)
    requires
        forall|i: int| 0 <= i < bs.len() ==> ended(#[trigger] bs[i]),
    ensures
        forall|i: int| 0 <= i < bs.len() ==> ended(#[trigger] hoisted(bs)[i]),
        non_empty(hoisted(bs)) == hoisted(bs),
{
    let hs = hoisted(bs);
    assert forall|i: int| 0 <= i < bs.len() implies ended(#[trigger] hs[i]) by {
        assert(ended(bs[i]));
        if i == 0 {
            let moved = moved_allocas(bs, bs.len());
            assert(hs[0].stmts.last() == bs[0].stmts.last());
        } else {
            let s = bs[i].stmts;
            assert(no_allocas(s).last() == s.last());
        }
    }
    lemma_all_kept(hs);
}

proof fn lemma_all_kept(bs: Seq<BlockModel>)
    requires
        forall|i: int| 0 <= i < bs.len() ==> ended(#[trigger] bs[i]),
    ensures
        non_empty(bs) == bs,
    decreases bs.len(),
{
    if bs.len() > 0 {
        let front = bs.drop_last();
        assert forall|i: int| 0 <= i < front.len() implies ended(#[trigger] front[i]) by {
            assert(ended(bs[i]));
        }
        lemma_all_kept(front);
        assert(ended(bs[bs.len() - 1]));
        assert(front.push(bs.last()) =~= bs);
    } else {
        assert(bs =~= Seq::empty());
    }
}

/// The code of a translated function becomes blocks that all end with a
/// terminator; none is lost.
pub proof fn lemma_function_blocks(cx: Context, st: State, f: FnDef)
    requires
        st.code.len() == 0,
        function_code(cx, st, f).1 is Ok,
    ensures
        harvestable(function_code(cx, st, f).0.code),
        harvested(function_code(cx, st, f).0.code) == hoisted(
            gathered(function_code(cx, st, f).0.code).blocks(),
        ),
        harvested(function_code(cx, st, f).0.code).len() > 0,
        forall|i: int|
            0 <= i < harvested(function_code(cx, st, f).0.code).len() ==> ended(
                #[trigger] harvested(function_code(cx, st, f).0.code)[i],
            ),
{
    let code = function_code(cx, st, f).0.code;
    lemma_function_tidy(cx, st, f);
    let h = gathered(code);
    let bs = h.blocks();
    assert forall|i: int| 0 <= i < bs.len() implies ended(#[trigger] bs[i]) by {
        if i < h.done.len() {
            assert(ended(h.done[i]));
        }
    }
    lemma_ended_kept(bs);
    let hs = hoisted(bs);
    assert(no_dangling(hs)) by {
        assert forall|e: int, b: int, i: int|
            0 <= e < hs.len() && 0 <= b < hs.len() && 0 <= i < hs[b].stmts.len()
                && #[trigger] branches_to(hs[b].stmts[i], hs[e].label) implies hs[e].stmts.len()
            > 0 by {
            assert(ended(hs[e]));
        }
    }
}

/// The label of a statement is the label of a block.
proof fn lemma_label_of_block(code: Seq<StmtModel>, t: Seq<char>)
    requires
        has_label(code, t),
    ensures
        exists|k: int|
            0 <= k < gathered(code).blocks().len() && #[trigger] gathered(
                code,
            ).blocks()[k].label.text() == t,
    decreases code.len(),
{
    let front = code.drop_last();
    let s = code.last();
    let h = gathered(front);
    let g = gathered(code);
    let i = choose|i: int|
        0 <= i < code.len() && (#[trigger] code[i] matches StmtModel::Label { label } && label.text()
            == t);
    if i == code.len() - 1 {
        let k = g.blocks().len() - 1;
        assert(g.blocks()[k].label.text() == t);
    } else {
        assert(front[i] == code[i]);
        lemma_label_of_block(front, t);
        let k = choose|k: int|
            0 <= k < h.blocks().len() && #[trigger] h.blocks()[k].label.text() == t;
        assert(g.blocks()[k].label == h.blocks()[k].label);
    }
}

/// The statements of the blocks are statements of the code.
pub proof fn lemma_stmt_of_code(code: Seq<StmtModel>, k: int, i: int)
    requires
        0 <= k < gathered(code).blocks().len(),
        0 <= i < gathered(code).blocks()[k].stmts.len(),
    ensures
        code.contains(gathered(code).blocks()[k].stmts[i]),
    decreases code.len(),
{
    let front = code.drop_last();
    let s = code.last();
    let h = gathered(front);
    let g = gathered(code);
    let x = g.blocks()[k].stmts[i];
    if code.len() > 0 {
        assert(code[code.len() - 1] == s);
        if k < h.blocks().len() && i < h.blocks()[k].stmts.len() && h.blocks()[k].stmts[i] == x {
            lemma_stmt_of_code(front, k, i);
            let j = choose|j: int| 0 <= j < front.len() && front[j] == x;
            assert(code[j] == x);
        } else {
            assert(x == s);
        }
    }
}

proof fn lemma_positions_hold(blocks: Seq<BlockModel>, n: nat, k: int)
    requires
        n <= blocks.len(),
        0 <= k < n,
    ensures
        block_positions(blocks, n).contains_key(blocks[k].label.text()),
    decreases n,
{
    if k < n - 1 {
        lemma_positions_hold(blocks, (n - 1) as nat, k);
    }
}

/// What is left without the allocations was there before.
pub proof fn lemma_no_allocas_within(stmts: Seq<StmtModel>)
    ensures
        forall|i: int|
            0 <= i < no_allocas(stmts).len() ==> stmts.contains(#[trigger] no_allocas(stmts)[i]),
    decreases stmts.len(),
{
    if stmts.len() > 0 {
        let front = stmts.drop_last();
        lemma_no_allocas_within(front);
        assert forall|i: int| 0 <= i < no_allocas(stmts).len() implies stmts.contains(
            #[trigger] no_allocas(stmts)[i],
        ) by {
            if i < no_allocas(front).len() {
                let x = no_allocas(front)[i];
                let j = choose|j: int| 0 <= j < front.len() && front[j] == x;
                assert(stmts[j] == x);
            } else {
                assert(stmts[stmts.len() - 1] == stmts.last());
            }
        }
    }
}

/// Every branch of a translated function goes to one of its blocks, and
/// control never falls through from one block to the next.
pub proof fn lemma_branches_resolve(cx: Context, st: State, f: FnDef)
    requires
        st.code.len() == 0,
        function_code(cx, st, f).1 is Ok,
    ensures
        branches_resolve(harvested(function_code(cx, st, f).0.code)),
        forall|i: int|
            0 <= i < harvested(function_code(cx, st, f).0.code).len() ==> !falls_through(
                #[trigger] harvested(function_code(cx, st, f).0.code)[i],
            ),
{
    let code = function_code(cx, st, f).0.code;
    lemma_function_tidy(cx, st, f);
    lemma_function_blocks(cx, st, f);
    let gs = gathered(code).blocks();
    let hs = harvested(code);
    let labels = block_positions(hs, hs.len());
    assert forall|i: int| 0 <= i < hs.len() implies targets_in(#[trigger] hs[i], labels) by {
        let b = hs[i];
        assert(ended(b));
        assert forall|j: int| 0 <= j < branch_targets(b).len() implies labels.contains_key(
            (#[trigger] branch_targets(b)[j]).text(),
        ) by {
            let t = branch_targets(b)[j].text();
            let s = b.stmts.last();
            assert(goes_to(s, t));
            assert(code.contains(s)) by {
                let g = gs[i].stmts;
                if i == 0 {
                    let moved = moved_allocas(gs, gs.len());
                    if g.len() == 0 {
                        lemma_moved_last(gs, gs.len());
                        assert(s == moved.last());
                    } else {
                        assert(s == g[g.len() - 1]);
                        lemma_stmt_of_code(code, 0, g.len() - 1);
                    }
                } else {
                    lemma_no_allocas_within(g);
                    let n = no_allocas(g);
                    assert(n[n.len() - 1] == s);
                    assert(g.contains(s));
                    let y = choose|y: int| 0 <= y < g.len() && g[y] == s;
                    lemma_stmt_of_code(code, i, y);
                }
            }
            let c = choose|c: int| 0 <= c < code.len() && code[c] == s;
            assert(goes_to(code[c], t));
            lemma_label_of_block(code, t);
            let k = choose|k: int| 0 <= k < gs.len() && #[trigger] gs[k].label.text() == t;
            assert(hs[k].label == gs[k].label);
            lemma_positions_hold(hs, hs.len(), k);
        }
    }
    assert forall|i: int| 0 <= i < hs.len() implies !falls_through(#[trigger] hs[i]) by {
        assert(ended(hs[i]));
    }
}

proof fn lemma_only_allocas_are(stmts: Seq<StmtModel>)
    ensures
        forall|i: int|
            0 <= i < only_allocas(stmts).len() ==> (#[trigger] only_allocas(stmts)[i]) is Alloca,
    decreases stmts.len(),
{
    if stmts.len() > 0 {
        lemma_only_allocas_are(stmts.drop_last());
    }
}

/// Only allocations are moved.
pub proof fn lemma_moved_last(blocks: Seq<BlockModel>, n: nat)
    ensures
        forall|i: int|
            0 <= i < moved_allocas(blocks, n).len() ==> (#[trigger] moved_allocas(blocks, n)[i])
                is Alloca,
    decreases n,
{
    if n > 1 {
        lemma_moved_last(blocks, (n - 1) as nat);
        lemma_only_allocas_are(blocks[n - 1].stmts);
    }
}

} // verus!
