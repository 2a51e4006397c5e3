//! The numbers of translated values: every value is defined once.

use crate::ast::copy::ExprModel;
use crate::ast::decl::{ArrayInitializer, FnDef, VarDeclStmtInner, VarDef, VarDefInner};
use crate::ast::expr::{
    ArithExpr, ArithExprInner, ArrayExpr, BoolExpr, BoolExprInner, BoolUnit, BoolUnitInner,
    ComExpr, ExprUnit, ExprUnitInner, FnCall, IndexExpr, IndexExprInner, LeftVal, LeftValInner,
    MemberExpr, RightVal, RightValInner,
};
use crate::ast::ops::BoolBiOp;
use crate::ast::stmt::{
    AssignmentStmt, CallStmt, CodeBlockStmt, CodeBlockStmtInner, IfStmt, ReturnStmt, WhileStmt,
};
use crate::ir::error::ErrorModel;
use crate::ir::function::{BlockModel, LabelModel};
use crate::ir::gen::blocks::{
    lemma_function_blocks, lemma_moved_last, lemma_no_allocas_within, lemma_stmt_of_code,
};
use crate::ir::gen::conversions::{declared, defined};
use crate::ir::gen::harvest::{gathered, harvested, hoisted, moved_allocas, no_allocas, with_stmt};
use crate::ir::gen::lowering::{
    accessed_member, args_code, arith_code, array_base, assignment_code, branch_code, call_code,
    call_value_code, comparison_code, decl_code, def_code, element_code, element_store, else_code,
    explicit_type, fill_code, function_code, if_code, index_code, indexed, init_code, jump_code,
    list_init_code, local_base, local_of, lookup, materialized, member_code, params_code,
    place_code, reference_code, return_code, right_code, stmt_code, stmts_code, then_loaded,
    truth_code, unit_branch_code, unit_code, while_code, Context, State,
};
use crate::ir::link::linked;
use crate::ir::stmt::{arith_of, predicate_of, StmtModel};
use crate::ir::types::DtypeModel;
use crate::ir::value::OperandModel;
use vstd::prelude::*;

verus! {

/// The number of an operand that is a local value.
pub open spec fn number_of(o: OperandModel) -> Option<nat> {
    match o {
        OperandModel::Local(l) => Some(l.id),
        _ => None,
    }
}

/// The number of the value that a statement defines.
pub open spec fn def_of(s: StmtModel) -> Option<nat> {
    match s.def() {
        Some(o) => number_of(o),
        None => None,
    }
}

/// No two statements from position `from` on define the same value.
pub open spec fn defined_once(code: Seq<StmtModel>, from: int) -> bool {
    forall|i: int, j: int|
        from <= i < j < code.len() && (def_of(#[trigger] code[i]) is Some) ==> def_of(code[i])
            != def_of(#[trigger] code[j])
}

/// `b` goes on from `a`: what is added defines values that are new, each
/// once.
#[verifier::opaque]
pub open spec fn numbered(a: State, b: State) -> bool {
    &&& a.vreg <= b.vreg
    &&& a.code.len() <= b.code.len()
    &&& forall|i: int| 0 <= i < a.code.len() ==> #[trigger] b.code[i] == a.code[i]
    &&& forall|i: int|
        a.code.len() <= i < b.code.len() ==> (def_of(#[trigger] b.code[i]) matches Some(n)
            ==> a.vreg <= n < b.vreg)
    &&& defined_once(b.code, a.code.len() as int)
}

proof fn lemma_still(a: State, b: State)
    requires
        a.code == b.code,
        a.vreg <= b.vreg,
    ensures
        numbered(a, b),
{
    reveal(numbered);
}

proof fn lemma_then(a: State, b: State, c: State)
    requires
        numbered(a, b),
        numbered(b, c),
    ensures
        numbered(a, c),
{
    reveal(numbered);
    assert forall|i: int| a.code.len() <= i < c.code.len() implies (def_of(
        #[trigger] c.code[i],
    ) matches Some(n) ==> a.vreg <= n < c.vreg) by {
        if i < b.code.len() {
            assert(c.code[i] == b.code[i]);
        }
    }
    assert forall|i: int, j: int|
        a.code.len() <= i < j < c.code.len() && (def_of(#[trigger] c.code[i]) is Some) implies def_of(
        c.code[i],
    ) != def_of(#[trigger] c.code[j]) by {
        if j < b.code.len() {
            assert(c.code[i] == b.code[i]);
            assert(c.code[j] == b.code[j]);
        } else if i < b.code.len() {
            assert(c.code[i] == b.code[i]);
        }
    }
}

/// One more statement that defines nothing.
proof fn lemma_plain(a: State, b: State, s: StmtModel)
    requires
        numbered(a, b),
        def_of(s) is None,
    ensures
        numbered(a, b.emit(s)),
{
    reveal(numbered);
}

/// One more statement that defines the value that was taken before the rest.
proof fn lemma_defines(a: State, b: State, s: StmtModel)
    requires
        numbered(State { vreg: a.vreg + 1, ..a }, b),
        def_of(s) == Some(a.vreg),
    ensures
        numbered(a, b.emit(s)),
{
    reveal(numbered);
}

proof fn lemma_load_numbered(a: State, st: State, d: DtypeModel, ptr: OperandModel)
    requires
        numbered(a, st),
    ensures
        numbered(a, st.load(d, ptr).0),
{
    let (s1, dst) = st.fresh(d);
    lemma_still(s1, s1);
    lemma_defines(st, s1, StmtModel::Load { dst, ptr });
    lemma_then(a, st, st.load(d, ptr).0);
}

proof fn lemma_slot_numbered(a: State, st: State, d: DtypeModel)
    requires
        numbered(a, st),
    ensures
        numbered(a, st.slot(d).0),
{
    let (s1, dst) = st.fresh(d.pointer());
    lemma_still(s1, s1);
    lemma_defines(st, s1, StmtModel::Alloca { dst });
    lemma_then(a, st, st.slot(d).0);
}

/// A value is taken, and a statement defines it.
proof fn lemma_fresh_numbered(a: State, st: State, d: DtypeModel, s: StmtModel)
    requires
        numbered(a, st),
        def_of(s) == Some(st.vreg),
    ensures
        numbered(a, st.fresh(d).0.emit(s)),
{
    let s1 = st.fresh(d).0;
    lemma_still(s1, s1);
    lemma_defines(st, s1, s);
    lemma_then(a, st, s1.emit(s));
}

proof fn lemma_loaded_numbered(a: State, step: (State, Result<OperandModel, ErrorModel>))
    requires
        numbered(a, step.0),
    ensures
        numbered(a, then_loaded(step).0),
{
    if let Ok(op) = step.1 {
        match op.ty() {
            DtypeModel::Pointer(p) => lemma_load_numbered(a, step.0, *p, op),
            _ => lemma_load_numbered(a, step.0, DtypeModel::I32, op),
        }
    }
}

proof fn lemma_index_numbered(cx: Context, st: State, e: IndexExpr)
    ensures
        numbered(st, index_code(cx, st, e).0),
{
    lemma_still(st, st);
    if let IndexExprInner::Id(id) = e.inner {
        if let Ok(src) = lookup(cx, st, id@) {
            lemma_load_numbered(st, st, DtypeModel::I32, src);
        }
    }
}

proof fn lemma_place_numbered(cx: Context, st: State, p: LeftVal)
    ensures
        numbered(st, place_code(cx, st, p).0),
    decreases p,
{
    match p.inner {
        LeftValInner::Id(_) => lemma_still(st, st),
        LeftValInner::ArrayExpr(e) => lemma_element_numbered(cx, st, *e),
        LeftValInner::MemberExpr(e) => lemma_member_numbered(cx, st, *e),
    }
}

proof fn lemma_element_numbered(cx: Context, st: State, e: ArrayExpr)
    ensures
        numbered(st, element_code(cx, st, e).0),
    decreases e,
{
    lemma_place_numbered(cx, st, *e.arr);
    let (s0, place) = place_code(cx, st, *e.arr);
    if let Ok(arr) = place {
        let (s1, base_ptr) = array_base(s0, arr);
        if let DtypeModel::Pointer(p) = arr.ty() {
            lemma_load_numbered(st, s0, *p, arr);
        }
        if let Some(d) = indexed(base_ptr.ty()) {
            let (s2, new_ptr) = s1.fresh(d.pointer());
            lemma_index_numbered(cx, s2, *e.idx);
            let (s3, idx) = index_code(cx, s2, *e.idx);
            match idx {
                Err(_) => {
                    lemma_still(s1, s2);
                    lemma_then(s1, s2, s3);
                    lemma_then(st, s1, s3);
                },
                Ok(index) => {
                    let g = StmtModel::Gep { new_ptr, base_ptr, index };
                    lemma_defines(s1, s3, g);
                    lemma_then(st, s1, s3.emit(g));
                },
            }
        }
    }
}

proof fn lemma_member_numbered(cx: Context, st: State, e: MemberExpr)
    ensures
        numbered(st, member_code(cx, st, e).0),
    decreases e,
{
    lemma_place_numbered(cx, st, *e.struct_id);
    let (s0, place) = place_code(cx, st, *e.struct_id);
    if let Ok(op) = place {
        if let Some(m) = accessed_member(cx, op, e) {
            let (s1, target) = s0.fresh(m.dtype.pointer());
            let g = StmtModel::Gep {
                new_ptr: target,
                base_ptr: op,
                index: OperandModel::i32_const(m.index as int),
            };
            lemma_fresh_numbered(st, s0, m.dtype.pointer(), g);
        }
    }
}

proof fn lemma_reference_numbered(cx: Context, st: State, id: Seq<char>)
    ensures
        numbered(st, reference_code(cx, st, id).0),
{
    lemma_still(st, st);
    if let Ok(op) = lookup(cx, st, id) {
        if let Some(e) = crate::ir::gen::lowering::array_element(op.ty()) {
            let d = e.array(None).pointer();
            let g = StmtModel::Gep {
                new_ptr: st.fresh(d).1,
                base_ptr: op,
                index: OperandModel::i32_const(0),
            };
            lemma_fresh_numbered(st, st, d, g);
        }
    }
}

proof fn lemma_unit_numbered(cx: Context, st: State, u: ExprUnit)
    ensures
        numbered(st, unit_code(cx, st, u).0),
    decreases u,
{
    lemma_still(st, st);
    match u.inner {
        ExprUnitInner::Num(_) => {},
        ExprUnitInner::Id(id) => {
            if let Ok(op) = lookup(cx, st, id@) {
                lemma_loaded_numbered(st, (st, Ok(op)));
            }
        },
        ExprUnitInner::ArithExpr(e) => {
            lemma_arith_numbered(cx, st, *e);
            lemma_loaded_numbered(st, arith_code(cx, st, *e));
        },
        ExprUnitInner::FnCall(c) => lemma_call_value_numbered(cx, st, *c, u@),
        ExprUnitInner::ArrayExpr(e) => {
            lemma_element_numbered(cx, st, *e);
            lemma_loaded_numbered(st, element_code(cx, st, *e));
        },
        ExprUnitInner::MemberExpr(e) => {
            lemma_member_numbered(cx, st, *e);
            lemma_loaded_numbered(st, member_code(cx, st, *e));
        },
        ExprUnitInner::Reference(id) => lemma_reference_numbered(cx, st, id@),
    }
}

proof fn lemma_call_value_numbered(cx: Context, st: State, c: FnCall, unit: ExprModel)
    ensures
        numbered(st, call_value_code(cx, st, c, unit).0),
    decreases c,
{
    lemma_still(st, st);
    let (s1, res) = st.fresh(DtypeModel::I32);
    lemma_args_numbered(cx, s1, c.vals@);
    let (s2, values) = args_code(cx, s1, c.vals@);
    match values {
        Err(_) => {
            lemma_still(st, s1);
            lemma_then(st, s1, s2);
        },
        Ok(args) => lemma_defines(
            st,
            s2,
            StmtModel::Call {
                func_name: linked(cx.links, c.callee()),
                res: Some(res),
                args,
            },
        ),
    }
}

proof fn lemma_args_numbered(cx: Context, st: State, vals: Seq<RightVal>)
    ensures
        numbered(st, args_code(cx, st, vals).0),
    decreases vals,
{
    if vals.len() == 0 {
        lemma_still(st, st);
    } else {
        lemma_args_numbered(cx, st, vals.drop_last());
        let s1 = args_code(cx, st, vals.drop_last()).0;
        lemma_right_numbered(cx, s1, vals.last());
        lemma_then(st, s1, right_code(cx, s1, vals.last()).0);
    }
}

proof fn lemma_arith_numbered(cx: Context, st: State, e: ArithExpr)
    ensures
        numbered(st, arith_code(cx, st, e).0),
    decreases e,
{
    match e.inner {
        ArithExprInner::ArithBiOpExpr(b) => {
            lemma_arith_numbered(cx, st, *b.left);
            let (s1, l) = arith_code(cx, st, *b.left);
            if let Ok(left) = l {
                lemma_arith_numbered(cx, s1, *b.right);
                let (s2, r) = arith_code(cx, s1, *b.right);
                lemma_then(st, s1, s2);
                if let Ok(right) = r {
                    let (s3, dst) = s2.fresh(DtypeModel::I32);
                    let s = StmtModel::BiOp { kind: arith_of(b.op), left, right, dst };
                    lemma_fresh_numbered(st, s2, DtypeModel::I32, s);
                }
            }
        },
        ArithExprInner::ExprUnit(u) => lemma_unit_numbered(cx, st, *u),
    }
}

proof fn lemma_right_numbered(cx: Context, st: State, v: RightVal)
    ensures
        numbered(st, right_code(cx, st, v).0),
    decreases v,
{
    match v.inner {
        RightValInner::ArithExpr(e) => lemma_arith_numbered(cx, st, *e),
        RightValInner::BoolExpr(e) => lemma_truth_numbered(cx, st, *e),
    }
}

proof fn lemma_materialized_numbered(
    a: State,
    st: State,
    on_true: LabelModel,
    on_false: LabelModel,
    after: LabelModel,
    ptr: OperandModel,
)
    requires
        numbered(a, st),
    ensures
        numbered(a, materialized(st, on_true, on_false, after, ptr)),
{
    let s1 = st.emit(StmtModel::Label { label: on_true });
    lemma_plain(a, st, StmtModel::Label { label: on_true });
    let one = StmtModel::Store { src: OperandModel::i32_const(1), ptr };
    lemma_plain(a, s1, one);
    let s2 = s1.emit(one);
    lemma_plain(a, s2, StmtModel::Jump { target: after });
    let s3 = s2.emit(StmtModel::Jump { target: after });
    lemma_plain(a, s3, StmtModel::Label { label: on_false });
    let s4 = s3.emit(StmtModel::Label { label: on_false });
    let zero = StmtModel::Store { src: OperandModel::i32_const(0), ptr };
    lemma_plain(a, s4, zero);
    let s5 = s4.emit(zero);
    lemma_plain(a, s5, StmtModel::Jump { target: after });
    let s6 = s5.emit(StmtModel::Jump { target: after });
    lemma_plain(a, s6, StmtModel::Label { label: after });
}

proof fn lemma_truth_numbered(cx: Context, st: State, e: BoolExpr)
    ensures
        numbered(st, truth_code(cx, st, e).0),
    decreases e, 1int,
{
    let (s1, on_true) = st.label();
    let (s2, on_false) = s1.label();
    let (s3, after) = s2.label();
    let (s4, ptr) = s3.slot(DtypeModel::I32);
    lemma_still(st, s3);
    lemma_slot_numbered(st, s3, DtypeModel::I32);
    lemma_branch_numbered(cx, s4, e, on_true, on_false);
    let (s5, r) = branch_code(cx, s4, e, on_true, on_false);
    lemma_then(st, s4, s5);
    if r is Ok {
        lemma_materialized_numbered(st, s5, on_true, on_false, after, ptr);
        let s6 = materialized(s5, on_true, on_false, after, ptr);
        lemma_load_numbered(st, s6, DtypeModel::I32, ptr);
    }
}

proof fn lemma_branch_numbered(
    cx: Context,
    st: State,
    e: BoolExpr,
    on_true: LabelModel,
    on_false: LabelModel,
)
    ensures
        numbered(st, branch_code(cx, st, e, on_true, on_false).0),
    decreases e, 0int,
{
    match e.inner {
        BoolExprInner::BoolBiOpExpr(b) => {
            let (s1, eval_right) = st.label();
            lemma_still(st, s1);
            let (s2, l) = match b.op {
                BoolBiOp::And => {
                    lemma_branch_numbered(cx, s1, *b.left, eval_right, on_false);
                    branch_code(cx, s1, *b.left, eval_right, on_false)
                },
                BoolBiOp::Or => {
                    lemma_branch_numbered(cx, s1, *b.left, on_true, eval_right);
                    branch_code(cx, s1, *b.left, on_true, eval_right)
                },
            };
            lemma_then(st, s1, s2);
            if l is Ok {
                let label = StmtModel::Label { label: eval_right };
                lemma_plain(st, s2, label);
                let s3 = s2.emit(label);
                lemma_branch_numbered(cx, s3, *b.right, on_true, on_false);
                lemma_then(st, s3, branch_code(cx, s3, *b.right, on_true, on_false).0);
            }
        },
        BoolExprInner::BoolUnit(u) => lemma_unit_branch_numbered(cx, st, *u, on_true, on_false),
    }
}

proof fn lemma_comparison_numbered(
    cx: Context,
    st: State,
    c: ComExpr,
    on_true: LabelModel,
    on_false: LabelModel,
)
    ensures
        numbered(st, comparison_code(cx, st, c, on_true, on_false).0),
    decreases c,
{
    lemma_unit_numbered(cx, st, *c.left);
    let (s1, l) = unit_code(cx, st, *c.left);
    if let Ok(left) = l {
        lemma_unit_numbered(cx, s1, *c.right);
        let (s2, r) = unit_code(cx, s1, *c.right);
        lemma_then(st, s1, s2);
        if let Ok(right) = r {
            let (s3, dst) = s2.fresh(DtypeModel::I1);
            let s = StmtModel::Cmp { kind: predicate_of(c.op), left, right, dst };
            lemma_fresh_numbered(st, s2, DtypeModel::I1, s);
            lemma_plain(
                st,
                s3.emit(s),
                StmtModel::CJump { cond: dst, true_label: on_true, false_label: on_false },
            );
        }
    }
}

proof fn lemma_unit_branch_numbered(
    cx: Context,
    st: State,
    u: BoolUnit,
    on_true: LabelModel,
    on_false: LabelModel,
)
    ensures
        numbered(st, unit_branch_code(cx, st, u, on_true, on_false).0),
    decreases u,
{
    match u.inner {
        BoolUnitInner::ComExpr(c) => lemma_comparison_numbered(cx, st, *c, on_true, on_false),
        BoolUnitInner::BoolExpr(e) => lemma_branch_numbered(cx, st, *e, on_true, on_false),
        BoolUnitInner::BoolUOpExpr(n) => lemma_unit_branch_numbered(
            cx,
            st,
            *n.cond,
            on_false,
            on_true,
        ),
    }
}

/// An element is stored at a value that was taken before the rest.
proof fn lemma_element_store_numbered(
    a: State,
    st: State,
    base_ptr: OperandModel,
    d: DtypeModel,
    index: int,
    src: OperandModel,
)
    requires
        numbered(a.fresh(d).0, st),
    ensures
        numbered(a, element_store(st, base_ptr, a.fresh(d).1, index, src)),
{
    let new_ptr = a.fresh(d).1;
    let g = StmtModel::Gep { new_ptr, base_ptr, index: OperandModel::i32_const(index) };
    lemma_defines(a, st, g);
    lemma_plain(a, st.emit(g), StmtModel::Store { src, ptr: new_ptr });
}

proof fn lemma_list_init_numbered(
    cx: Context,
    st: State,
    base_ptr: OperandModel,
    vals: Seq<RightVal>,
)
    ensures
        numbered(st, list_init_code(cx, st, base_ptr, vals).0),
    decreases vals.len(),
{
    if vals.len() == 0 {
        lemma_still(st, st);
    } else {
        lemma_list_init_numbered(cx, st, base_ptr, vals.drop_last());
        let (s1, front) = list_init_code(cx, st, base_ptr, vals.drop_last());
        if front is Ok {
            let d = DtypeModel::I32.pointer();
            let (s2, new_ptr) = s1.fresh(d);
            lemma_right_numbered(cx, s2, vals.last());
            let (s3, last) = right_code(cx, s2, vals.last());
            match last {
                Err(_) => {
                    lemma_still(s1, s2);
                    lemma_then(s1, s2, s3);
                    lemma_then(st, s1, s3);
                },
                Ok(v) => {
                    lemma_element_store_numbered(s1, s3, base_ptr, d, vals.len() - 1, v);
                    lemma_then(
                        st,
                        s1,
                        element_store(s3, base_ptr, new_ptr, vals.len() - 1, v),
                    );
                },
            }
        }
    }
}

proof fn lemma_fill_numbered(st: State, base_ptr: OperandModel, v: OperandModel, count: nat)
    ensures
        numbered(st, fill_code(st, base_ptr, v, count)),
    decreases count,
{
    if count == 0 {
        lemma_still(st, st);
    } else {
        lemma_fill_numbered(st, base_ptr, v, (count - 1) as nat);
        let s1 = fill_code(st, base_ptr, v, (count - 1) as nat);
        let d = DtypeModel::I32.pointer();
        let (s2, new_ptr) = s1.fresh(d);
        lemma_still(s2, s2);
        lemma_element_store_numbered(s1, s2, base_ptr, d, count - 1, v);
        lemma_then(st, s1, element_store(s2, base_ptr, new_ptr, count - 1, v));
    }
}

proof fn lemma_init_numbered(
    cx: Context,
    st: State,
    base_ptr: OperandModel,
    init: ArrayInitializer,
)
    ensures
        numbered(st, init_code(cx, st, base_ptr, init).0),
{
    match init {
        ArrayInitializer::ExplicitList(vals) => lemma_list_init_numbered(cx, st, base_ptr, vals@),
        ArrayInitializer::Fill { val, count } => {
            lemma_right_numbered(cx, st, *val);
            let (s1, r) = right_code(cx, st, *val);
            if let Ok(v) = r {
                lemma_fill_numbered(s1, base_ptr, v, count as nat);
                lemma_then(st, s1, fill_code(s1, base_ptr, v, count as nat));
            }
        },
    }
}

/// A name for a value changes no code.
proof fn lemma_introduced(a: State, st: State, name: Seq<char>, slot: OperandModel)
    requires
        numbered(a, st),
    ensures
        numbered(a, st.introduce(name, local_of(slot)).0),
{
    let s1 = st.introduce(name, local_of(slot)).0;
    lemma_still(st, s1);
    lemma_then(a, st, s1);
}

proof fn lemma_decl_numbered(cx: Context, st: State, d: crate::ast::decl::VarDecl)
    ensures
        numbered(st, decl_code(cx, st, d).0),
{
    let elem = local_base(
        cx,
        d.identifier@,
        explicit_type(d.type_specifier),
        d.inner is Scalar,
    );
    let (s1, slot) = st.slot(declared(elem, d.inner));
    lemma_still(st, st);
    lemma_slot_numbered(st, st, declared(elem, d.inner));
    lemma_introduced(st, s1, d.identifier@, slot);
}

proof fn lemma_def_numbered(cx: Context, st: State, d: VarDef)
    ensures
        numbered(st, def_code(cx, st, d).0),
{
    let elem = local_base(
        cx,
        d.identifier@,
        explicit_type(d.type_specifier),
        d.inner is Scalar,
    );
    let pointee = defined(elem, d.inner);
    match d.inner {
        VarDefInner::Scalar(s) => {
            lemma_right_numbered(cx, st, *s.val);
            let (s1, r) = right_code(cx, st, *s.val);
            if let Ok(src) = r {
                let (s2, slot) = s1.slot(pointee);
                lemma_slot_numbered(st, s1, pointee);
                let store = StmtModel::Store { src, ptr: slot };
                lemma_plain(st, s2, store);
                lemma_introduced(st, s2.emit(store), d.identifier@, slot);
            }
        },
        VarDefInner::Array(a) => {
            let (s1, slot) = st.slot(pointee);
            lemma_still(st, st);
            lemma_slot_numbered(st, st, pointee);
            lemma_init_numbered(cx, s1, slot, a.initializer);
            let (s2, r) = init_code(cx, s1, slot, a.initializer);
            lemma_then(st, s1, s2);
            if r is Ok {
                lemma_introduced(st, s2, d.identifier@, slot);
            }
        },
    }
}

proof fn lemma_assignment_numbered(cx: Context, st: State, a: AssignmentStmt)
    ensures
        numbered(st, assignment_code(cx, st, a).0),
{
    lemma_place_numbered(cx, st, *a.left_val);
    let (s1, l) = place_code(cx, st, *a.left_val);
    if let Ok(ptr) = l {
        lemma_right_numbered(cx, s1, *a.right_val);
        let (s2, r) = right_code(cx, s1, *a.right_val);
        lemma_then(st, s1, s2);
        if let Ok(src) = r {
            lemma_plain(st, s2, StmtModel::Store { src, ptr });
        }
    }
}

proof fn lemma_call_numbered(cx: Context, st: State, c: CallStmt)
    ensures
        numbered(st, call_code(cx, st, c).0),
{
    let func_name = linked(cx.links, c.fn_call.callee());
    lemma_args_numbered(cx, st, c.fn_call.vals@);
    let (s1, values) = args_code(cx, st, c.fn_call.vals@);
    if let Ok(args) = values {
        let res = s1.fresh(DtypeModel::I32).1;
        lemma_fresh_numbered(
            st,
            s1,
            DtypeModel::I32,
            StmtModel::Call { func_name, res: Some(res), args },
        );
        lemma_plain(st, s1, StmtModel::Call { func_name, res: None, args });
    }
}

proof fn lemma_return_numbered(cx: Context, st: State, r: ReturnStmt)
    ensures
        numbered(st, return_code(cx, st, r).0),
{
    match r.val {
        None => {
            lemma_still(st, st);
            lemma_plain(st, st, StmtModel::Return { val: None });
        },
        Some(v) => {
            lemma_right_numbered(cx, st, *v);
            let (s1, x) = right_code(cx, st, *v);
            if let Ok(val) = x {
                lemma_plain(st, s1, StmtModel::Return { val: Some(val) });
            }
        },
    }
}

proof fn lemma_jump_numbered(st: State, target: Option<LabelModel>, e: ErrorModel)
    ensures
        numbered(st, jump_code(st, target, e).0),
{
    lemma_still(st, st);
    if let Some(target) = target {
        lemma_plain(st, st, StmtModel::Jump { target });
    }
}

proof fn lemma_stmt_numbered(
    cx: Context,
    st: State,
    s: CodeBlockStmt,
    on_continue: Option<LabelModel>,
    on_break: Option<LabelModel>,
)
    ensures
        numbered(st, stmt_code(cx, st, s, on_continue, on_break).0),
    decreases s,
{
    match s.inner {
        CodeBlockStmtInner::VarDecl(v) => match v.inner {
            VarDeclStmtInner::Decl(d) => lemma_decl_numbered(cx, st, *d),
            VarDeclStmtInner::Def(d) => lemma_def_numbered(cx, st, *d),
        },
        CodeBlockStmtInner::Assignment(a) => lemma_assignment_numbered(cx, st, *a),
        CodeBlockStmtInner::Call(c) => lemma_call_numbered(cx, st, *c),
        CodeBlockStmtInner::If(i) => lemma_if_numbered(cx, st, *i, on_continue, on_break),
        CodeBlockStmtInner::While(w) => lemma_while_numbered(cx, st, *w),
        CodeBlockStmtInner::Return(r) => lemma_return_numbered(cx, st, *r),
        CodeBlockStmtInner::Continue(_) => lemma_jump_numbered(
            st,
            on_continue,
            ErrorModel::InvalidContinueInst,
        ),
        CodeBlockStmtInner::Break(_) => lemma_jump_numbered(
            st,
            on_break,
            ErrorModel::InvalidBreakInst,
        ),
        CodeBlockStmtInner::Null(_) => lemma_still(st, st),
    }
}

proof fn lemma_stmts_numbered(
    cx: Context,
    st: State,
    stmts: Seq<CodeBlockStmt>,
    on_continue: Option<LabelModel>,
    on_break: Option<LabelModel>,
)
    ensures
        numbered(st, stmts_code(cx, st, stmts, on_continue, on_break).0),
    decreases stmts,
{
    if stmts.len() == 0 {
        lemma_still(st, st);
    } else {
        lemma_stmts_numbered(cx, st, stmts.drop_last(), on_continue, on_break);
        let s1 = stmts_code(cx, st, stmts.drop_last(), on_continue, on_break).0;
        lemma_stmt_numbered(cx, s1, stmts.last(), on_continue, on_break);
        lemma_then(st, s1, stmt_code(cx, s1, stmts.last(), on_continue, on_break).0);
    }
}

proof fn lemma_else_numbered(
    cx: Context,
    st: State,
    branch: Option<Vec<CodeBlockStmt>>,
    on_continue: Option<LabelModel>,
    on_break: Option<LabelModel>,
)
    ensures
        numbered(st, else_code(cx, st, branch, on_continue, on_break).0),
    decreases branch,
{
    match branch {
        Some(stmts) => lemma_stmts_numbered(cx, st, stmts@, on_continue, on_break),
        None => lemma_still(st, st),
    }
}

proof fn lemma_if_numbered(
    cx: Context,
    st: State,
    i: IfStmt,
    on_continue: Option<LabelModel>,
    on_break: Option<LabelModel>,
)
    ensures
        numbered(st, if_code(cx, st, i, on_continue, on_break).0),
    decreases i,
{
    let (s1, on_true) = st.label();
    let (s2, on_false) = s1.label();
    let (s3, after) = s2.label();
    lemma_still(st, s3);
    lemma_unit_branch_numbered(cx, s3, *i.bool_unit, on_true, on_false);
    let (s4, c) = unit_branch_code(cx, s3, *i.bool_unit, on_true, on_false);
    lemma_then(st, s3, s4);
    if c is Ok {
        lemma_plain(st, s4, StmtModel::Label { label: on_true });
        let t0 = s4.emit(StmtModel::Label { label: on_true });
        let t1 = t0.enter();
        lemma_still(t0, t1);
        lemma_then(st, t0, t1);
        lemma_stmts_numbered(cx, t1, i.if_stmts@, on_continue, on_break);
        let (s5, t) = stmts_code(cx, t1, i.if_stmts@, on_continue, on_break);
        lemma_then(st, t1, s5);
        if t is Ok {
            lemma_still(s5, s5.exit());
            lemma_then(st, s5, s5.exit());
            let u0 = s5.exit().emit(StmtModel::Jump { target: after });
            lemma_plain(st, s5.exit(), StmtModel::Jump { target: after });
            let u1 = u0.emit(StmtModel::Label { label: on_false });
            lemma_plain(st, u0, StmtModel::Label { label: on_false });
            let s6 = u1.enter();
            lemma_still(u1, s6);
            lemma_then(st, u1, s6);
            lemma_else_numbered(cx, s6, i.else_stmts, on_continue, on_break);
            let (s7, f) = else_code(cx, s6, i.else_stmts, on_continue, on_break);
            lemma_then(st, s6, s7);
            if f is Ok {
                lemma_still(s7, s7.exit());
                lemma_then(st, s7, s7.exit());
                lemma_plain(st, s7.exit(), StmtModel::Jump { target: after });
                lemma_plain(
                    st,
                    s7.exit().emit(StmtModel::Jump { target: after }),
                    StmtModel::Label { label: after },
                );
            }
        }
    }
}

proof fn lemma_while_numbered(cx: Context, st: State, w: WhileStmt)
    ensures
        numbered(st, while_code(cx, st, w).0),
    decreases w,
{
    let (s1, test) = st.label();
    let (s2, on_true) = s1.label();
    let (s3, on_false) = s2.label();
    lemma_still(st, s3);
    lemma_plain(st, s3, StmtModel::Jump { target: test });
    let t0 = s3.emit(StmtModel::Jump { target: test });
    lemma_plain(st, t0, StmtModel::Label { label: test });
    let s4 = t0.emit(StmtModel::Label { label: test });
    lemma_unit_branch_numbered(cx, s4, *w.bool_unit, on_true, on_false);
    let (s5, c) = unit_branch_code(cx, s4, *w.bool_unit, on_true, on_false);
    lemma_then(st, s4, s5);
    if c is Ok {
        lemma_plain(st, s5, StmtModel::Label { label: on_true });
        let t1 = s5.emit(StmtModel::Label { label: on_true });
        lemma_still(t1, t1.enter());
        lemma_then(st, t1, t1.enter());
        lemma_stmts_numbered(cx, t1.enter(), w.stmts@, Some(test), Some(on_false));
        let (s6, b) = stmts_code(cx, t1.enter(), w.stmts@, Some(test), Some(on_false));
        lemma_then(st, t1.enter(), s6);
        if b is Ok {
            lemma_still(s6, s6.exit());
            lemma_then(st, s6, s6.exit());
            lemma_plain(st, s6.exit(), StmtModel::Jump { target: test });
            lemma_plain(
                st,
                s6.exit().emit(StmtModel::Jump { target: test }),
                StmtModel::Label { label: on_false },
            );
        }
    }
}

proof fn lemma_params_numbered(st: State, params: Seq<(Seq<char>, DtypeModel)>)
    ensures
        numbered(st, params_code(st, params).0),
    decreases params.len(),
{
    if params.len() == 0 {
        lemma_still(st, st);
    } else {
        lemma_params_numbered(st, params.drop_last());
        let (s1, front) = params_code(st, params.drop_last());
        let (name, d) = params.last();
        if front is Ok && !s1.locals.contains_key(name) {
            let (s2, arg) = s1.fresh(d);
            let s3 = State { arguments: s2.arguments.push(local_of(arg)), ..s2 };
            lemma_still(s1, s3);
            lemma_then(st, s1, s3);
            let (s4, slot) = s3.slot(d);
            lemma_slot_numbered(st, s3, d);
            let store = StmtModel::Store { src: arg, ptr: slot };
            lemma_plain(st, s4, store);
            let s5 = s4.emit(store);
            let s6 = State { locals: s5.locals.insert(name, local_of(slot)), ..s5 };
            lemma_still(s5, s6);
            lemma_then(st, s5, s6);
        }
    }
}

/// The code of a function defines every value once, and its number is below
/// the next free one.
pub proof fn lemma_function_numbered(cx: Context, st: State, f: FnDef)
    requires
        st.code.len() == 0,
    ensures
        defined_once(function_code(cx, st, f).0.code, 0),
        forall|i: int|
            0 <= i < function_code(cx, st, f).0.code.len() ==> (def_of(
                #[trigger] function_code(cx, st, f).0.code[i],
            ) matches Some(n) ==> n < function_code(cx, st, f).0.vreg),
{
    let name = f.fn_decl.identifier@;
    let end = function_code(cx, st, f).0;
    lemma_still(st, st);
    if cx.functions.contains_key(name) {
        let ty = cx.functions[name];
        let label = StmtModel::Label { label: LabelModel::Function(name) };
        lemma_plain(st, st, label);
        let s1 = st.emit(label);
        lemma_params_numbered(s1, ty.arguments);
        let (s2, p) = params_code(s1, ty.arguments);
        lemma_then(st, s1, s2);
        if p is Ok {
            lemma_stmts_numbered(cx, s2, f.stmts@, None, None);
            let (s3, b) = stmts_code(cx, s2, f.stmts@, None, None);
            lemma_then(st, s2, s3);
            lemma_plain(
                st,
                s3,
                StmtModel::Return { val: Some(OperandModel::i32_const(0)) },
            );
            lemma_plain(st, s3, StmtModel::Return { val: None });
        }
    }
    assert(numbered(st, end));
    reveal(numbered);
}

/// Statements of different blocks define different values.
pub open spec fn apart(blocks: Seq<BlockModel>) -> bool {
    forall|b: int, i: int, c: int, j: int|
        0 <= b < blocks.len() && 0 <= c < blocks.len() && b != c && 0 <= i < blocks[b].stmts.len()
            && 0 <= j < blocks[c].stmts.len() && (def_of(#[trigger] blocks[b].stmts[i]) is Some)
            ==> def_of(blocks[b].stmts[i]) != def_of(#[trigger] blocks[c].stmts[j])
}

proof fn lemma_gathered_apart(code: Seq<StmtModel>)
    requires
        defined_once(code, 0),
    ensures
        apart(gathered(code).blocks()),
    decreases code.len(),
{
    if code.len() > 0 {
        let front = code.drop_last();
        let s = code.last();
        assert(defined_once(front, 0)) by {
            assert forall|i: int, j: int|
                0 <= i < j < front.len() && (def_of(#[trigger] front[i]) is Some) implies def_of(
                front[i],
            ) != def_of(#[trigger] front[j]) by {
                assert(front[i] == code[i]);
                assert(front[j] == code[j]);
            }
        }
        lemma_gathered_apart(front);
        assert(front.push(s) =~= code);
        let old_blocks = gathered(front).blocks();
        let new_blocks = gathered(code).blocks();
        assert forall|b: int, i: int, c: int, j: int|
            0 <= b < new_blocks.len() && 0 <= c < new_blocks.len() && b != c && 0 <= i
                < new_blocks[b].stmts.len() && 0 <= j < new_blocks[c].stmts.len() && (def_of(
                #[trigger] new_blocks[b].stmts[i],
            ) is Some) implies def_of(new_blocks[b].stmts[i]) != def_of(
            #[trigger] new_blocks[c].stmts[j],
        ) by {
            lemma_new_or_old(front, s, b, i);
            lemma_new_or_old(front, s, c, j);
            if is_new(front, s, b, i) {
                if is_new(front, s, c, j) {
                } else {
                    lemma_stmt_of_code(front, c, j);
                    lemma_differs(code, old_blocks[c].stmts[j]);
                }
            } else if is_new(front, s, c, j) {
                lemma_stmt_of_code(front, b, i);
                lemma_differs(code, old_blocks[b].stmts[i]);
            } else {
                assert(old_blocks[b].stmts[i] == new_blocks[b].stmts[i]);
                assert(old_blocks[c].stmts[j] == new_blocks[c].stmts[j]);
            }
        }
    }
}

/// The statement at the position is the one that was added last.
spec fn is_new(front: Seq<StmtModel>, s: StmtModel, b: int, i: int) -> bool {
    &&& b == gathered(front).blocks().len() - 1
    &&& i == gathered(front).blocks()[b].stmts.len()
    &&& gathered(front.push(s)).blocks()[b].stmts[i] == s
}

proof fn lemma_new_or_old(front: Seq<StmtModel>, s: StmtModel, b: int, i: int)
    requires
        0 <= b < gathered(front.push(s)).blocks().len(),
        0 <= i < gathered(front.push(s)).blocks()[b].stmts.len(),
    ensures
        is_new(front, s, b, i) || {
            &&& 0 <= b < gathered(front).blocks().len()
            &&& 0 <= i < gathered(front).blocks()[b].stmts.len()
            &&& gathered(front.push(s)).blocks()[b].stmts[i] == gathered(front).blocks()[b].stmts[i]
        },
{
    assert(front.push(s).drop_last() =~= front);
    assert(gathered(front.push(s)) == with_stmt(gathered(front), s));
}

/// The last statement defines something else than those before it.
proof fn lemma_differs(code: Seq<StmtModel>, x: StmtModel)
    requires
        code.len() > 0,
        defined_once(code, 0),
        code.drop_last().contains(x),
    ensures
        def_of(x) is Some ==> def_of(x) != def_of(code.last()),
{
    let front = code.drop_last();
    let k = choose|k: int| 0 <= k < front.len() && front[k] == x;
    assert(code[k] == x);
    assert(code[code.len() - 1] == code.last());
}

/// Statements of different blocks of a translated function, apart from
/// allocations, define different values, whose numbers are below the next
/// free one.
pub proof fn lemma_blocks_apart(cx: Context, st: State, f: FnDef, b: int, i: int)
    requires
        st.code.len() == 0,
        function_code(cx, st, f).1 is Ok,
        0 <= b < harvested(function_code(cx, st, f).0.code).len(),
        0 <= i < harvested(function_code(cx, st, f).0.code)[b].stmts.len(),
        !(harvested(function_code(cx, st, f).0.code)[b].stmts[i] is Alloca),
    ensures
        def_of(harvested(function_code(cx, st, f).0.code)[b].stmts[i]) matches Some(n) ==> {
            &&& n < function_code(cx, st, f).0.vreg
            &&& forall|c: int, j: int|
                0 <= c < harvested(function_code(cx, st, f).0.code).len() && c != b && 0 <= j
                    < harvested(function_code(cx, st, f).0.code)[c].stmts.len() && !((
                #[trigger] harvested(function_code(cx, st, f).0.code)[c].stmts[j]) is Alloca)
                    ==> def_of(harvested(function_code(cx, st, f).0.code)[c].stmts[j]) != Some(n)
        },
{
    let code = function_code(cx, st, f).0.code;
    lemma_function_numbered(cx, st, f);
    lemma_function_blocks(cx, st, f);
    lemma_gathered_apart(code);
    let gs = gathered(code).blocks();
    let hs = harvested(code);
    let x = lemma_same_block(code, b, i);
    lemma_stmt_of_code(code, b, x);
    let k = choose|k: int| 0 <= k < code.len() && code[k] == gs[b].stmts[x];
    assert(def_of(code[k]) == def_of(hs[b].stmts[i]));
    if let Some(n) = def_of(hs[b].stmts[i]) {
        assert forall|c: int, j: int|
            0 <= c < hs.len() && c != b && 0 <= j < hs[c].stmts.len() && !((
            #[trigger] hs[c].stmts[j]) is Alloca) implies def_of(hs[c].stmts[j]) != Some(n) by {
            let y = lemma_same_block(code, c, j);
            assert(def_of(gs[b].stmts[x]) is Some);
            assert(def_of(gs[b].stmts[x]) != def_of(gs[c].stmts[y]));
        }
    }
}

/// Moving allocations leaves other statements in their blocks.
proof fn lemma_same_block(code: Seq<StmtModel>, b: int, i: int) -> (x: int)
    requires
        harvested(code) == hoisted(gathered(code).blocks()),
        0 <= b < harvested(code).len(),
        0 <= i < harvested(code)[b].stmts.len(),
        !(harvested(code)[b].stmts[i] is Alloca),
    ensures
        0 <= b < gathered(code).blocks().len(),
        0 <= x < gathered(code).blocks()[b].stmts.len(),
        gathered(code).blocks()[b].stmts[x] == harvested(code)[b].stmts[i],
{
    let gs = gathered(code).blocks();
    let s = harvested(code)[b].stmts[i];
    if b == 0 {
        let moved = moved_allocas(gs, gs.len());
        lemma_moved_last(gs, gs.len());
        if i < moved.len() {
            assert(s == moved[i]);
        }
        i - moved.len()
    } else {
        lemma_no_allocas_within(gs[b].stmts);
        let n = no_allocas(gs[b].stmts);
        assert(n[i] == s);
        choose|x: int| 0 <= x < gs[b].stmts.len() && gs[b].stmts[x] == s
    }
}

} // verus!
