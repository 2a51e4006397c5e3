//! Every label of translated code stands once.

use crate::ast::decl::{ArrayInitializer, FnDef, VarDeclStmtInner, VarDef, VarDefInner};
use crate::ast::expr::{
    ArithExpr, ArithExprInner, ArrayExpr, BoolExpr, BoolExprInner, BoolUnit, BoolUnitInner,
    ComExpr, ExprUnit, ExprUnitInner, FnCall, LeftVal, LeftValInner, MemberExpr, RightVal,
    RightValInner,
};
use crate::ast::ops::BoolBiOp;
use crate::ast::stmt::{CodeBlockStmt, CodeBlockStmtInner, IfStmt, WhileStmt};
use crate::ir::execution::labels_once;
use crate::ir::function::LabelModel;
use crate::ir::gen::lowering::{
    args_code, arith_code, array_base, branch_code, call_value_code, comparison_code, def_code,
    element_code, element_store, else_code, fill_code, function_code, if_code, index_code,
    init_code, list_init_code, loaded, member_code, params_code, place_code, right_code, stmt_code,
    stmts_code, truth_code, unit_branch_code, unit_code, while_code, Context, State,
};
use crate::ir::stmt::StmtModel;
use crate::ir::types::DtypeModel;
use crate::ir::value::OperandModel;
use vstd::prelude::*;

verus! {

/// The numbers from `lo` on and below `hi`.
pub open spec fn span(lo: nat, hi: nat) -> Set<nat> {
    Set::new(|n: nat| lo <= n < hi)
}

/// `b` goes on from `a`: the labels that are added have the given numbers, and
/// each stands once.
#[verifier::opaque]
pub open spec fn labels_in(a: State, b: State, s: Set<nat>) -> bool {
    &&& a.code.len() <= b.code.len()
    &&& forall|i: int| 0 <= i < a.code.len() ==> #[trigger] b.code[i] == a.code[i]
    &&& forall|i: int|
        a.code.len() <= i < b.code.len() ==> (#[trigger] b.code[i] matches StmtModel::Label {
            label,
        } ==> (label matches LabelModel::BasicBlock(n) && s.contains(n)))
    &&& forall|i: int, j: int|
        a.code.len() <= i < j < b.code.len() && (#[trigger] b.code[i] is Label)
            ==> #[trigger] b.code[j] != b.code[i]
}

proof fn lemma_still(a: State, b: State, s: Set<nat>)
    requires
        a.code == b.code,
    ensures
        labels_in(a, b, s),
{
    reveal(labels_in);
}

proof fn lemma_then(a: State, b: State, c: State, s: Set<nat>, t: Set<nat>, all: Set<nat>)
    requires
        labels_in(a, b, s),
        labels_in(b, c, t),
        s.disjoint(t),
        s.subset_of(all),
        t.subset_of(all),
    ensures
        labels_in(a, c, all),
{
    reveal(labels_in);
    assert forall|i: int| a.code.len() <= i < c.code.len() implies (
    #[trigger] c.code[i] matches StmtModel::Label { label } ==> (label matches LabelModel::BasicBlock(
        n,
    ) && all.contains(n))) by {
        if i < b.code.len() {
            assert(c.code[i] == b.code[i]);
        }
    }
    assert forall|i: int, j: int|
        a.code.len() <= i < j < c.code.len() && (#[trigger] c.code[i] is Label) implies
        #[trigger] c.code[j] != c.code[i] by {
        if j < b.code.len() {
            assert(c.code[i] == b.code[i]);
            assert(c.code[j] == b.code[j]);
        } else if i < b.code.len() {
            assert(c.code[i] == b.code[i]);
            assert(c.code[j] is Label ==> (c.code[j] matches StmtModel::Label { label }
                ==> (label matches LabelModel::BasicBlock(n) && t.contains(n))));
        }
    }
}

proof fn lemma_plain(a: State, b: State, stmt: StmtModel, s: Set<nat>)
    requires
        labels_in(a, b, s),
        !(stmt is Label),
    ensures
        labels_in(a, b.emit(stmt), s),
{
    reveal(labels_in);
}

proof fn lemma_label(a: State, b: State, n: nat, s: Set<nat>, all: Set<nat>)
    requires
        labels_in(a, b, s),
        !s.contains(n),
        s.subset_of(all),
        all.contains(n),
    ensures
        labels_in(a, b.emit(StmtModel::Label { label: LabelModel::BasicBlock(n) }), all),
{
    reveal(labels_in);
}

/// Only the code counts.
proof fn lemma_same(a: State, b: State, c: State, d: State, s: Set<nat>, all: Set<nat>)
    requires
        labels_in(a, b, s),
        a.code == c.code,
        b.code == d.code,
        s.subset_of(all),
    ensures
        labels_in(c, d, all),
{
    reveal(labels_in);
}

/// Two parts, one behind the other, the second with larger numbers.
proof fn lemma_on(a: State, b: State, c: State)
    requires
        labels_in(a, b, span(a.block, b.block)),
        labels_in(b, c, span(b.block, c.block)),
        a.block <= b.block <= c.block,
    ensures
        labels_in(a, c, span(a.block, c.block)),
{
    lemma_then(
        a,
        b,
        c,
        span(a.block, b.block),
        span(b.block, c.block),
        span(a.block, c.block),
    );
}

/// The part is labelled with its own numbers.
pub open spec fn fine(a: State, b: State) -> bool {
    a.block <= b.block && labels_in(a, b, span(a.block, b.block))
}

proof fn lemma_fine_plain(a: State, b: State, stmt: StmtModel)
    requires
        fine(a, b),
        !(stmt is Label),
    ensures
        fine(a, b.emit(stmt)),
{
    lemma_plain(a, b, stmt, span(a.block, b.block));
}

proof fn lemma_fine_same(a: State, b: State, c: State, d: State)
    requires
        fine(a, b),
        a.code == c.code,
        b.code == d.code,
        a.block == c.block,
        b.block == d.block,
    ensures
        fine(c, d),
{
    lemma_same(a, b, c, d, span(a.block, b.block), span(a.block, b.block));
}

proof fn lemma_fine_still(a: State, b: State)
    requires
        a.code == b.code,
        a.block <= b.block,
    ensures
        fine(a, b),
{
    lemma_still(a, b, span(a.block, b.block));
}

proof fn lemma_load(a: State, b: State, d: DtypeModel, ptr: OperandModel)
    requires
        fine(a, b),
    ensures
        fine(a, b.load(d, ptr).0),
{
    let (s1, dst) = b.fresh(d);
    lemma_fine_same(a, b, a, s1);
    lemma_fine_plain(a, s1, StmtModel::Load { dst, ptr });
}

proof fn lemma_loaded(a: State, b: State, op: OperandModel)
    requires
        fine(a, b),
    ensures
        fine(a, loaded(b, op).0),
{
    match op.ty() {
        DtypeModel::Pointer(p) => if !(op is Const) && !(*p is Array) && !(*p is Struct) {
            lemma_load(a, b, *p, op);
        },
        DtypeModel::I32 => if op is Global {
            lemma_load(a, b, DtypeModel::I32, op);
        },
        _ => {},
    }
}

proof fn lemma_place_labels(cx: Context, st: State, p: LeftVal)
    ensures
        fine(st, place_code(cx, st, p).0),
    decreases p,
{
    match p.inner {
        LeftValInner::Id(_) => lemma_fine_still(st, st),
        LeftValInner::ArrayExpr(e) => lemma_element_labels(cx, st, *e),
        LeftValInner::MemberExpr(e) => lemma_member_labels(cx, st, *e),
    }
}

proof fn lemma_element_labels(cx: Context, st: State, e: ArrayExpr)
    ensures
        fine(st, element_code(cx, st, e).0),
    decreases e,
{
    lemma_place_labels(cx, st, *e.arr);
    let (s0, place) = place_code(cx, st, *e.arr);
    if let Ok(arr) = place {
        let (s1, base_ptr) = array_base(s0, arr);
        match arr.ty() {
            DtypeModel::Pointer(p) => if *p is Pointer {
                lemma_load(st, s0, *p, arr);
            },
            _ => {},
        }
        if let Some(d) = crate::ir::gen::lowering::indexed(base_ptr.ty()) {
            let (s2, new_ptr) = s1.fresh(d.pointer());
            lemma_fine_same(st, s1, st, s2);
            let (s3, idx) = index_code(cx, s2, *e.idx);
            match e.idx.inner {
                crate::ast::expr::IndexExprInner::Id(id) => {
                    if let Ok(src) = crate::ir::gen::lowering::lookup(cx, s2, id@) {
                        lemma_load(st, s2, DtypeModel::I32, src);
                    }
                },
                _ => {},
            }
            if let Ok(index) = idx {
                lemma_fine_plain(st, s3, StmtModel::Gep { new_ptr, base_ptr, index });
            }
        }
    }
}

proof fn lemma_member_labels(cx: Context, st: State, e: MemberExpr)
    ensures
        fine(st, member_code(cx, st, e).0),
    decreases e,
{
    lemma_place_labels(cx, st, *e.struct_id);
    let (s0, place) = place_code(cx, st, *e.struct_id);
    if let Ok(op) = place {
        if let Some(m) = crate::ir::gen::lowering::accessed_member(cx, op, e) {
            let (s1, target) = s0.fresh(m.dtype.pointer());
            lemma_fine_same(st, s0, st, s1);
            lemma_fine_plain(
                st,
                s1,
                StmtModel::Gep {
                    new_ptr: target,
                    base_ptr: op,
                    index: OperandModel::i32_const(m.index as int),
                },
            );
        }
    }
}

proof fn lemma_unit_labels(cx: Context, st: State, u: ExprUnit)
    ensures
        fine(st, unit_code(cx, st, u).0),
    decreases u,
{
    lemma_fine_still(st, st);
    match u.inner {
        ExprUnitInner::Num(_) => {},
        ExprUnitInner::Id(id) => {
            if let Ok(op) = crate::ir::gen::lowering::lookup(cx, st, id@) {
                lemma_loaded(st, st, op);
            }
        },
        ExprUnitInner::ArithExpr(e) => {
            lemma_arith_labels(cx, st, *e);
            let (s1, r) = arith_code(cx, st, *e);
            if let Ok(op) = r {
                lemma_loaded(st, s1, op);
            }
        },
        ExprUnitInner::FnCall(c) => lemma_call_value_labels(cx, st, *c, u),
        ExprUnitInner::ArrayExpr(e) => {
            lemma_element_labels(cx, st, *e);
            let (s1, r) = element_code(cx, st, *e);
            if let Ok(op) = r {
                lemma_loaded(st, s1, op);
            }
        },
        ExprUnitInner::MemberExpr(e) => {
            lemma_member_labels(cx, st, *e);
            let (s1, r) = member_code(cx, st, *e);
            if let Ok(op) = r {
                lemma_loaded(st, s1, op);
            }
        },
        ExprUnitInner::Reference(id) => {
            if let Ok(op) = crate::ir::gen::lowering::lookup(cx, st, id@) {
                if let Some(d) = crate::ir::gen::lowering::array_element(op.ty()) {
                    let (s1, target) = st.fresh(d.array(None).pointer());
                    lemma_fine_same(st, st, st, s1);
                    lemma_fine_plain(
                        st,
                        s1,
                        StmtModel::Gep {
                            new_ptr: target,
                            base_ptr: op,
                            index: OperandModel::i32_const(0),
                        },
                    );
                }
            }
        },
    }
}

proof fn lemma_call_value_labels(cx: Context, st: State, c: FnCall, u: ExprUnit)
    ensures
        fine(st, call_value_code(cx, st, c, u@).0),
    decreases c,
{
    lemma_fine_still(st, st);
    let (s1, res) = st.fresh(DtypeModel::I32);
    lemma_args_labels(cx, s1, c.vals@);
    let (s2, values) = args_code(cx, s1, c.vals@);
    lemma_fine_same(s1, s2, st, s2);
    if let Ok(args) = values {
        lemma_fine_plain(
            st,
            s2,
            StmtModel::Call {
                func_name: crate::ir::link::linked(cx.links, c.callee()),
                res: Some(res),
                args,
            },
        );
    }
}

proof fn lemma_args_labels(cx: Context, st: State, vals: Seq<RightVal>)
    ensures
        fine(st, args_code(cx, st, vals).0),
    decreases vals,
{
    lemma_fine_still(st, st);
    if vals.len() > 0 {
        lemma_args_labels(cx, st, vals.drop_last());
        let s1 = args_code(cx, st, vals.drop_last()).0;
        lemma_right_labels(cx, s1, vals.last());
        lemma_on(st, s1, right_code(cx, s1, vals.last()).0);
    }
}

proof fn lemma_arith_labels(cx: Context, st: State, e: ArithExpr)
    ensures
        fine(st, arith_code(cx, st, e).0),
    decreases e,
{
    match e.inner {
        ArithExprInner::ArithBiOpExpr(b) => {
            lemma_arith_labels(cx, st, *b.left);
            let (s1, l) = arith_code(cx, st, *b.left);
            lemma_arith_labels(cx, s1, *b.right);
            let (s2, r) = arith_code(cx, s1, *b.right);
            lemma_on(st, s1, s2);
            if l is Ok && r is Ok {
                let (s3, dst) = s2.fresh(DtypeModel::I32);
                lemma_fine_same(st, s2, st, s3);
                lemma_fine_plain(
                    st,
                    s3,
                    StmtModel::BiOp {
                        kind: crate::ir::stmt::arith_of(b.op),
                        left: l->Ok_0,
                        right: r->Ok_0,
                        dst,
                    },
                );
            }
        },
        ArithExprInner::ExprUnit(u) => lemma_unit_labels(cx, st, *u),
    }
}

proof fn lemma_right_labels(cx: Context, st: State, v: RightVal)
    ensures
        fine(st, right_code(cx, st, v).0),
    decreases v,
{
    match v.inner {
        RightValInner::ArithExpr(e) => lemma_arith_labels(cx, st, *e),
        RightValInner::BoolExpr(e) => lemma_truth_labels(cx, st, *e),
    }
}

proof fn lemma_truth_labels(cx: Context, st: State, e: BoolExpr)
    ensures
        fine(st, truth_code(cx, st, e).0),
    decreases e, 1int,
{
    let (s1, on_true) = st.label();
    let (s2, on_false) = s1.label();
    let (s3, after) = s2.label();
    let (t, ptr) = s3.fresh(DtypeModel::I32.pointer());
    let s4 = t.emit(StmtModel::Alloca { dst: ptr });
    assert(s4 == s3.slot(DtypeModel::I32).0);
    lemma_fine_still(s3, t);
    lemma_fine_plain(s3, t, StmtModel::Alloca { dst: ptr });
    lemma_branch_labels(cx, s4, e, on_true, on_false);
    let (s5, r) = branch_code(cx, s4, e, on_true, on_false);
    lemma_on(s3, s4, s5);
    let k = st.block;
    let inner = span(k + 3, s5.block);
    let all = span(k, s5.block);
    lemma_same(s3, s5, st, s5, inner, inner);
    lemma_same(st, s5, st, s5, inner, all);
    if r is Ok {
        let a = inner.insert(k);
        let b = a.insert(k + 1);
        let store = |n: int| StmtModel::Store { src: OperandModel::i32_const(n), ptr };
        let jump = StmtModel::Jump { target: after };
        lemma_label(st, s5, k, inner, a);
        let x1 = s5.emit(StmtModel::Label { label: on_true });
        lemma_plain(st, x1, store(1), a);
        let x2 = x1.emit(store(1));
        lemma_plain(st, x2, jump, a);
        let x3 = x2.emit(jump);
        lemma_label(st, x3, k + 1, a, b);
        let x4 = x3.emit(StmtModel::Label { label: on_false });
        lemma_plain(st, x4, store(0), b);
        let x5 = x4.emit(store(0));
        lemma_plain(st, x5, jump, b);
        let x6 = x5.emit(jump);
        lemma_label(st, x6, k + 2, b, all);
        let x7 = x6.emit(StmtModel::Label { label: after });
        lemma_load(st, x7, DtypeModel::I32, ptr);
    }
}

proof fn lemma_branch_labels(
    cx: Context,
    st: State,
    e: BoolExpr,
    on_true: LabelModel,
    on_false: LabelModel,
)
    ensures
        fine(st, branch_code(cx, st, e, on_true, on_false).0),
    decreases e, 0int,
{
    match e.inner {
        BoolExprInner::BoolBiOpExpr(b) => {
            let (s1, eval_right) = st.label();
            let (t, f) = match b.op {
                BoolBiOp::And => (eval_right, on_false),
                BoolBiOp::Or => (on_true, eval_right),
            };
            let (s2, l) = branch_code(cx, s1, *b.left, t, f);
            lemma_branch_labels(cx, s1, *b.left, t, f);
            let k = st.block;
            lemma_same(s1, s2, st, s2, span(k + 1, s2.block), span(k + 1, s2.block));
            lemma_same(st, s2, st, s2, span(k + 1, s2.block), span(k, s2.block));
            if l is Ok {
                let s3 = s2.emit(StmtModel::Label { label: eval_right });
                lemma_label(st, s2, k, span(k + 1, s2.block), span(k, s2.block));
                lemma_branch_labels(cx, s3, *b.right, on_true, on_false);
                lemma_on(st, s3, branch_code(cx, s3, *b.right, on_true, on_false).0);
            }
        },
        BoolExprInner::BoolUnit(u) => lemma_atom_labels(cx, st, *u, on_true, on_false),
    }
}

proof fn lemma_atom_labels(
    cx: Context,
    st: State,
    u: BoolUnit,
    on_true: LabelModel,
    on_false: LabelModel,
)
    ensures
        fine(st, unit_branch_code(cx, st, u, on_true, on_false).0),
    decreases u,
{
    match u.inner {
        BoolUnitInner::ComExpr(c) => lemma_comparison_labels(cx, st, *c, on_true, on_false),
        BoolUnitInner::BoolExpr(e) => lemma_branch_labels(cx, st, *e, on_true, on_false),
        BoolUnitInner::BoolUOpExpr(n) => lemma_atom_labels(cx, st, *n.cond, on_false, on_true),
    }
}

proof fn lemma_comparison_labels(
    cx: Context,
    st: State,
    c: ComExpr,
    on_true: LabelModel,
    on_false: LabelModel,
)
    ensures
        fine(st, comparison_code(cx, st, c, on_true, on_false).0),
    decreases c,
{
    lemma_unit_labels(cx, st, *c.left);
    let (s1, l) = unit_code(cx, st, *c.left);
    lemma_unit_labels(cx, s1, *c.right);
    let (s2, r) = unit_code(cx, s1, *c.right);
    lemma_on(st, s1, s2);
    if l is Ok && r is Ok {
        let (s3, dst) = s2.fresh(DtypeModel::I1);
        lemma_fine_same(st, s2, st, s3);
        let test = StmtModel::Cmp {
            kind: crate::ir::stmt::predicate_of(c.op),
            left: l->Ok_0,
            right: r->Ok_0,
            dst,
        };
        lemma_fine_plain(st, s3, test);
        lemma_fine_plain(
            st,
            s3.emit(test),
            StmtModel::CJump { cond: dst, true_label: on_true, false_label: on_false },
        );
    }
}

proof fn lemma_element_store_labels(
    a: State,
    b: State,
    base_ptr: OperandModel,
    new_ptr: OperandModel,
    i: int,
    src: OperandModel,
)
    requires
        fine(a, b),
    ensures
        fine(a, element_store(b, base_ptr, new_ptr, i, src)),
{
    let gep = StmtModel::Gep { new_ptr, base_ptr, index: OperandModel::i32_const(i) };
    lemma_fine_plain(a, b, gep);
    lemma_fine_plain(a, b.emit(gep), StmtModel::Store { src, ptr: new_ptr });
}

proof fn lemma_list_labels(cx: Context, st: State, base: OperandModel, vals: Seq<RightVal>)
    ensures
        fine(st, list_init_code(cx, st, base, vals).0),
    decreases vals.len(),
{
    lemma_fine_still(st, st);
    if vals.len() > 0 {
        lemma_list_labels(cx, st, base, vals.drop_last());
        let s1 = list_init_code(cx, st, base, vals.drop_last()).0;
        let (s2, new_ptr) = s1.fresh(DtypeModel::I32.pointer());
        lemma_right_labels(cx, s2, vals.last());
        let (s3, r) = right_code(cx, s2, vals.last());
        lemma_fine_same(s2, s3, s1, s3);
        lemma_on(st, s1, s3);
        if let Ok(v) = r {
            lemma_element_store_labels(st, s3, base, new_ptr, vals.len() - 1, v);
        }
    }
}

proof fn lemma_fill_labels(
    a: State,
    st: State,
    base: OperandModel,
    v: OperandModel,
    count: nat,
)
    requires
        fine(a, st),
    ensures
        fine(a, fill_code(st, base, v, count)),
    decreases count,
{
    if count > 0 {
        lemma_fill_labels(a, st, base, v, (count - 1) as nat);
        let s1 = fill_code(st, base, v, (count - 1) as nat);
        let (s2, new_ptr) = s1.fresh(DtypeModel::I32.pointer());
        lemma_fine_same(a, s1, a, s2);
        lemma_element_store_labels(a, s2, base, new_ptr, count - 1, v);
    }
}

proof fn lemma_slot(a: State, b: State, d: DtypeModel)
    requires
        fine(a, b),
    ensures
        fine(a, b.slot(d).0),
{
    let (t, ptr) = b.fresh(d.pointer());
    lemma_fine_same(a, b, a, t);
    lemma_fine_plain(a, t, StmtModel::Alloca { dst: ptr });
}

proof fn lemma_def_labels(cx: Context, st: State, d: VarDef)
    ensures
        fine(st, def_code(cx, st, d).0),
{
    let elem = crate::ir::gen::lowering::local_base(
        cx,
        d.identifier@,
        crate::ir::gen::lowering::explicit_type(d.type_specifier),
        d.inner is Scalar,
    );
    let pointee = crate::ir::gen::conversions::defined(elem, d.inner);
    lemma_fine_still(st, st);
    match d.inner {
        VarDefInner::Scalar(s) => {
            lemma_right_labels(cx, st, *s.val);
            let (s1, r) = right_code(cx, st, *s.val);
            if let Ok(src) = r {
                lemma_slot(st, s1, pointee);
                let (s2, slot) = s1.slot(pointee);
                let store = StmtModel::Store { src, ptr: slot };
                lemma_fine_plain(st, s2, store);
                lemma_fine_same(st, s2.emit(store), st, def_code(cx, st, d).0);
            }
        },
        VarDefInner::Array(a) => {
            lemma_slot(st, st, pointee);
            let (s1, slot) = st.slot(pointee);
            let (s2, r) = init_code(cx, s1, slot, a.initializer);
            match a.initializer {
                ArrayInitializer::ExplicitList(vals) => {
                    lemma_list_labels(cx, s1, slot, vals@);
                },
                ArrayInitializer::Fill { val, count } => {
                    lemma_right_labels(cx, s1, *val);
                    let (t, x) = right_code(cx, s1, *val);
                    if let Ok(v) = x {
                        lemma_fill_labels(s1, t, slot, v, count as nat);
                    }
                },
            }
            lemma_on(st, s1, s2);
            lemma_fine_same(st, s2, st, def_code(cx, st, d).0);
        },
    }
}

/// The labels of a statement are its own.
pub proof fn lemma_stmt_labels(
    cx: Context,
    st: State,
    s: CodeBlockStmt,
    on_continue: Option<LabelModel>,
    on_break: Option<LabelModel>,
)
    ensures
        fine(st, stmt_code(cx, st, s, on_continue, on_break).0),
    decreases s,
{
    lemma_fine_still(st, st);
    let end = stmt_code(cx, st, s, on_continue, on_break).0;
    match s.inner {
        CodeBlockStmtInner::VarDecl(v) => match v.inner {
            VarDeclStmtInner::Decl(d) => {
                let elem = crate::ir::gen::lowering::local_base(
                    cx,
                    d.identifier@,
                    crate::ir::gen::lowering::explicit_type(d.type_specifier),
                    d.inner is Scalar,
                );
                let ty = crate::ir::gen::conversions::declared(elem, d.inner);
                lemma_slot(st, st, ty);
                lemma_fine_same(st, st.slot(ty).0, st, end);
            },
            VarDeclStmtInner::Def(d) => lemma_def_labels(cx, st, *d),
        },
        CodeBlockStmtInner::Assignment(a) => {
            lemma_place_labels(cx, st, *a.left_val);
            let (s1, l) = place_code(cx, st, *a.left_val);
            lemma_right_labels(cx, s1, *a.right_val);
            let (s2, r) = right_code(cx, s1, *a.right_val);
            lemma_on(st, s1, s2);
            if l is Ok && r is Ok {
                lemma_fine_plain(st, s2, StmtModel::Store { src: r->Ok_0, ptr: l->Ok_0 });
            }
        },
        CodeBlockStmtInner::Call(c) => {
            lemma_args_labels(cx, st, c.fn_call.vals@);
            let (s1, values) = args_code(cx, st, c.fn_call.vals@);
            let (s2, res) = s1.fresh(DtypeModel::I32);
            lemma_fine_same(st, s1, st, s2);
            if let Ok(args) = values {
                let func_name = crate::ir::link::linked(cx.links, c.fn_call.callee());
                lemma_fine_plain(st, s2, StmtModel::Call { func_name, res: Some(res), args });
                lemma_fine_plain(st, s1, StmtModel::Call { func_name, res: None, args });
            }
        },
        CodeBlockStmtInner::If(i) => lemma_if_labels(cx, st, *i, on_continue, on_break),
        CodeBlockStmtInner::While(w) => lemma_while_labels(cx, st, *w),
        CodeBlockStmtInner::Return(r) => {
            match r.val {
                None => lemma_fine_plain(st, st, StmtModel::Return { val: None }),
                Some(v) => {
                    lemma_right_labels(cx, st, *v);
                    let (s1, x) = right_code(cx, st, *v);
                    if let Ok(val) = x {
                        lemma_fine_plain(st, s1, StmtModel::Return { val: Some(val) });
                    }
                },
            }
        },
        CodeBlockStmtInner::Continue(_) => {
            if let Some(target) = on_continue {
                lemma_fine_plain(st, st, StmtModel::Jump { target });
            }
        },
        CodeBlockStmtInner::Break(_) => {
            if let Some(target) = on_break {
                lemma_fine_plain(st, st, StmtModel::Jump { target });
            }
        },
        CodeBlockStmtInner::Null(_) => {},
    }
}

/// The labels of statements are their own.
pub proof fn lemma_stmts_labels(
    cx: Context,
    st: State,
    stmts: Seq<CodeBlockStmt>,
    on_continue: Option<LabelModel>,
    on_break: Option<LabelModel>,
)
    ensures
        fine(st, stmts_code(cx, st, stmts, on_continue, on_break).0),
    decreases stmts,
{
    lemma_fine_still(st, st);
    if stmts.len() > 0 {
        lemma_stmts_labels(cx, st, stmts.drop_last(), on_continue, on_break);
        let s1 = stmts_code(cx, st, stmts.drop_last(), on_continue, on_break).0;
        lemma_stmt_labels(cx, s1, stmts.last(), on_continue, on_break);
        lemma_on(st, s1, stmt_code(cx, s1, stmts.last(), on_continue, on_break).0);
    }
}

/// A label, then statements in a scope of their own, then maybe a jump.
proof fn lemma_section(
    cx: Context,
    st: State,
    a: State,
    n: nat,
    stmts: Seq<CodeBlockStmt>,
    on_continue: Option<LabelModel>,
    on_break: Option<LabelModel>,
    used: Set<nat>,
    all: Set<nat>,
)
    requires
        labels_in(st, a, used),
        !used.contains(n),
        used.subset_of(all),
        all.contains(n),
        n < a.block,
        forall|k: nat| #[trigger] used.contains(k) ==> k < a.block,
        ({
            let t = a.emit(StmtModel::Label { label: LabelModel::BasicBlock(n) });
            fine(t.enter(), stmts_code(cx, t.enter(), stmts, on_continue, on_break).0)
        }),
        ({
            let t = a.emit(StmtModel::Label { label: LabelModel::BasicBlock(n) });
            span(a.block, stmts_code(cx, t.enter(), stmts, on_continue, on_break).0.block)
        }).subset_of(all),
    ensures
        ({
            let t = a.emit(StmtModel::Label { label: LabelModel::BasicBlock(n) });
            let s = stmts_code(cx, t.enter(), stmts, on_continue, on_break).0;
            &&& a.block <= s.block
            &&& labels_in(st, s, used.insert(n).union(span(a.block, s.block)))
        }),
{
    let t = a.emit(StmtModel::Label { label: LabelModel::BasicBlock(n) });
    let s = stmts_code(cx, t.enter(), stmts, on_continue, on_break).0;
    lemma_label(st, a, n, used, used.insert(n));
    lemma_same(t.enter(), s, t, s, span(a.block, s.block), span(a.block, s.block));
    lemma_then(
        st,
        t,
        s,
        used.insert(n),
        span(a.block, s.block),
        used.insert(n).union(span(a.block, s.block)),
    );
}

proof fn lemma_if_labels(
    cx: Context,
    st: State,
    i: IfStmt,
    on_continue: Option<LabelModel>,
    on_break: Option<LabelModel>,
)
    ensures
        fine(st, if_code(cx, st, i, on_continue, on_break).0),
    decreases i,
{
    let (s1, on_true) = st.label();
    let (s2, on_false) = s1.label();
    let (s3, after) = s2.label();
    let (s4, c) = unit_branch_code(cx, s3, *i.bool_unit, on_true, on_false);
    lemma_atom_labels(cx, s3, *i.bool_unit, on_true, on_false);
    let k = st.block;
    let u1 = span(k + 3, s4.block);
    lemma_same(s3, s4, st, s4, u1, u1);
    lemma_same(st, s4, st, s4, u1, span(k, s4.block));
    if c is Ok {
        let t = s4.emit(StmtModel::Label { label: on_true });
        let (s5, x) = stmts_code(cx, t.enter(), i.if_stmts@, on_continue, on_break);
        lemma_stmts_labels(cx, t.enter(), i.if_stmts@, on_continue, on_break);
        lemma_section(
            cx,
            st,
            s4,
            k,
            i.if_stmts@,
            on_continue,
            on_break,
            u1,
            span(k, s5.block),
        );
        let u2 = u1.insert(k).union(span(s4.block, s5.block));
        lemma_same(st, s5, st, s5, u2, span(k, s5.block));
        if x is Ok {
            let jump = StmtModel::Jump { target: after };
            let e = s5.exit();
            lemma_same(st, s5, st, e, u2, u2);
            lemma_plain(st, e, jump, u2);
            let j = e.emit(jump);
            let f = j.emit(StmtModel::Label { label: on_false });
            let (s7, y) = else_code(cx, f.enter(), i.else_stmts, on_continue, on_break);
            let u3 = match i.else_stmts {
                Some(stmts) => {
                    lemma_stmts_labels(cx, f.enter(), stmts@, on_continue, on_break);
                    lemma_section(
                        cx,
                        st,
                        j,
                        k + 1,
                        stmts@,
                        on_continue,
                        on_break,
                        u2,
                        span(k, s7.block),
                    );
                    u2.insert(k + 1).union(span(j.block, s7.block))
                },
                None => {
                    lemma_label(st, j, k + 1, u2, u2.insert(k + 1));
                    lemma_same(st, f, st, s7, u2.insert(k + 1), u2.insert(k + 1));
                    u2.insert(k + 1)
                },
            };
            lemma_same(st, s7, st, s7, u3, span(k, s7.block));
            if y is Ok {
                let g = s7.exit();
                lemma_same(st, s7, st, g, u3, u3);
                lemma_plain(st, g, jump, u3);
                lemma_label(st, g.emit(jump), k + 2, u3, span(k, s7.block));
            }
        }
    }
}

proof fn lemma_while_labels(cx: Context, st: State, w: WhileStmt)
    ensures
        fine(st, while_code(cx, st, w).0),
    decreases w,
{
    let (s1, test) = st.label();
    let (s2, on_true) = s1.label();
    let (s3, on_false) = s2.label();
    let k = st.block;
    let jump = StmtModel::Jump { target: test };
    let none = Set::<nat>::empty();
    lemma_still(st, s3, none);
    lemma_plain(st, s3, jump, none);
    lemma_label(st, s3.emit(jump), k, none, none.insert(k));
    let s4 = s3.emit(jump).emit(StmtModel::Label { label: test });
    let (s5, c) = unit_branch_code(cx, s4, *w.bool_unit, on_true, on_false);
    lemma_atom_labels(cx, s4, *w.bool_unit, on_true, on_false);
    let u1 = none.insert(k).union(span(k + 3, s5.block));
    lemma_then(st, s4, s5, none.insert(k), span(k + 3, s5.block), u1);
    lemma_same(st, s5, st, s5, u1, span(k, s5.block));
    if c is Ok {
        let t = s5.emit(StmtModel::Label { label: on_true });
        let (s6, b) = stmts_code(cx, t.enter(), w.stmts@, Some(test), Some(on_false));
        lemma_stmts_labels(cx, t.enter(), w.stmts@, Some(test), Some(on_false));
        lemma_section(
            cx,
            st,
            s5,
            k + 1,
            w.stmts@,
            Some(test),
            Some(on_false),
            u1,
            span(k, s6.block),
        );
        let u2 = u1.insert(k + 1).union(span(s5.block, s6.block));
        lemma_same(st, s6, st, s6, u2, span(k, s6.block));
        if b is Ok {
            let e = s6.exit();
            lemma_same(st, s6, st, e, u2, u2);
            lemma_plain(st, e, jump, u2);
            lemma_label(st, e.emit(jump), k + 2, u2, span(k, s6.block));
        }
    }
}

proof fn lemma_params_labels(st: State, params: Seq<(Seq<char>, DtypeModel)>)
    ensures
        fine(st, params_code(st, params).0),
    decreases params.len(),
{
    lemma_fine_still(st, st);
    if params.len() > 0 {
        lemma_params_labels(st, params.drop_last());
        let (s1, front) = params_code(st, params.drop_last());
        let (name, d) = params.last();
        if front is Ok && !s1.locals.contains_key(name) {
            let (s2, arg) = s1.fresh(d);
            let s3 = State {
                arguments: s2.arguments.push(crate::ir::gen::lowering::local_of(arg)),
                ..s2
            };
            lemma_fine_same(st, s1, st, s3);
            lemma_slot(st, s3, d);
            let (s4, slot) = s3.slot(d);
            let store = StmtModel::Store { src: arg, ptr: slot };
            lemma_fine_plain(st, s4, store);
            lemma_fine_same(st, s4.emit(store), st, params_code(st, params).0);
        }
    }
}

/// Every label of a translated function stands once.
pub proof fn lemma_function_labels(cx: Context, st: State, f: FnDef)
    requires
        st.code.len() == 0,
    ensures
        labels_once(function_code(cx, st, f).0.code),
{
    let name = f.fn_decl.identifier@;
    if cx.functions.contains_key(name) {
        let ty = cx.functions[name];
        let entry = StmtModel::Label { label: LabelModel::Function(name) };
        let s1 = st.emit(entry);
        lemma_params_labels(s1, ty.arguments);
        let (s2, p) = params_code(s1, ty.arguments);
        lemma_stmts_labels(cx, s2, f.stmts@, None, None);
        let (s3, b) = stmts_code(cx, s2, f.stmts@, None, None);
        lemma_on(s1, s2, s3);
        let end = function_code(cx, st, f).0;
        if p is Ok && b is Ok {
            lemma_fine_plain(
                s1,
                s3,
                StmtModel::Return { val: Some(OperandModel::i32_const(0)) },
            );
            lemma_fine_plain(s1, s3, StmtModel::Return { val: None });
        }
        assert(fine(s1, end));
        reveal(labels_in);
        assert(s1.code[0] == entry);
        assert(end.code[0] == entry);
        assert forall|i: int, j: int|
            0 <= i < end.code.len() && 0 <= j < end.code.len() && (#[trigger] end.code[i] is Label)
                && #[trigger] end.code[j] == end.code[i] implies i == j by {
            if i < j {
                if i == 0 {
                    assert(end.code[j] matches StmtModel::Label { label } ==> label is BasicBlock);
                }
            } else if j < i {
                if j == 0 {
                    assert(end.code[i] matches StmtModel::Label { label } ==> label is BasicBlock);
                }
            }
        }
    }
}

} // verus!
