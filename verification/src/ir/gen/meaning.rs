//! What expressions mean, and that translated code computes it.

use crate::ast::expr::{
    ArithExpr, ArithExprInner, ArrayExpr, BoolExpr, BoolExprInner, BoolUnit, BoolUnitInner,
    ComExpr, ExprUnit, ExprUnitInner, FnCall, IndexExpr, IndexExprInner, LeftVal, LeftValInner,
    MemberExpr, RightVal, RightValInner,
};
use crate::ast::ops::{ArithBiOp, BoolBiOp, ComOp};
use crate::ir::execution::{
    as_number, labels_once, lemma_goes_on, lemma_one_more, lemma_place, lemma_stays, narrowed,
    place, reaches, Machine, Meaning,
};
use crate::ir::function::LabelModel;
use crate::ir::gen::lowering::{
    accessed_member, args_code, arith_code, array_base, array_element, branch_code, call_value_code,
    comparison_code, element_code, index_code, indexed, lemma_arith_grows, lemma_branch_grows,
    lemma_right_grows, lemma_unit_grows, loaded, lookup, materialized, member_code, place_code,
    right_code, truth_code, unit_branch_code, unit_code, Context, State,
};
use crate::ir::gen::static_eval::quotient;
use crate::ir::link::linked;
use crate::ir::stmt::StmtModel;
use crate::ir::types::{find_member, DtypeModel, MemberModel};
use crate::ir::value::OperandModel;
use vstd::prelude::*;

verus! {

/// A value of the program: a number or an address, with its type, and whether
/// it is written out or belongs to a global variable.
pub struct Val {
    pub num: int,
    pub ty: DtypeModel,
    pub constant: bool,
    pub global: bool,
}

/// A computed value.
pub open spec fn computed(num: int, ty: DtypeModel) -> Val {
    Val { num, ty, constant: false, global: false }
}

/// A number that is written out.
pub open spec fn literal(n: int) -> Val {
    Val { num: n, ty: DtypeModel::I32, constant: true, global: false }
}

/// What an arithmetic operator makes of two numbers; a quotient by zero is
/// taken to be zero.
pub open spec fn arithmetic(op: ArithBiOp, a: int, b: int) -> int {
    match op {
        ArithBiOp::Add => a + b,
        ArithBiOp::Sub => a - b,
        ArithBiOp::Mul => a * b,
        ArithBiOp::Div => if b == 0 {
            0
        } else {
            quotient(a, b)
        },
    }
}

/// What a comparison says of two numbers.
pub open spec fn comparison(op: ComOp, a: int, b: int) -> bool {
    match op {
        ComOp::Lt => a < b,
        ComOp::Le => a <= b,
        ComOp::Gt => a > b,
        ComOp::Ge => a >= b,
        ComOp::Eq => a == b,
        ComOp::Ne => a != b,
    }
}

/// What is in scope: the memory and what surrounds the function apart, the
/// variables by name.
pub struct Scope {
    pub m: Meaning,
    pub cx: Context,
    pub names: Map<Seq<char>, Val>,
}

impl Scope {
    /// The place of a variable.
    pub open spec fn named(self, id: Seq<char>) -> Val {
        if self.names.contains_key(id) {
            self.names[id]
        } else {
            Val {
                num: (self.m.globals)(id),
                ty: self.cx.globals[id].dtype,
                constant: false,
                global: true,
            }
        }
    }
}

/// A scalar that is found at an address is read; anything else is its own
/// value.
pub open spec fn content(cells: Map<int, int>, v: Val) -> Val {
    match v.ty {
        DtypeModel::Pointer(p) => if !v.constant && !(*p is Array) && !(*p is Struct) {
            computed(cells[v.num], *p)
        } else {
            v
        },
        DtypeModel::I32 => if v.global {
            computed(cells[v.num], DtypeModel::I32)
        } else {
            v
        },
        _ => v,
    }
}

/// The value of an index.
pub open spec fn index_value(sc: Scope, cells: Map<int, int>, e: IndexExpr) -> int {
    match e.inner {
        IndexExprInner::Num(n) => n as int,
        IndexExprInner::Id(id) => cells[sc.named(id@).num],
    }
}

/// The address of a place.
pub open spec fn place_value(sc: Scope, cells: Map<int, int>, p: LeftVal) -> Val
    decreases p,
{
    match p.inner {
        LeftValInner::Id(id) => sc.named(id@),
        LeftValInner::ArrayExpr(e) => element_value(sc, cells, *e),
        LeftValInner::MemberExpr(e) => member_value(sc, cells, *e),
    }
}

/// The address of an array element: that of the part with the number of the
/// index in the array, or in what the variable refers to.
pub open spec fn element_value(sc: Scope, cells: Map<int, int>, e: ArrayExpr) -> Val
    decreases e,
{
    let at = place_value(sc, cells, *e.arr);
    let base = match at.ty {
        DtypeModel::Pointer(p) => if *p is Pointer {
            computed(cells[at.num], *p)
        } else {
            at
        },
        _ => at,
    };
    let ty = match base.ty {
        DtypeModel::Pointer(p) => match *p {
            DtypeModel::Array(d, _) => *d,
            d => d,
        },
        DtypeModel::Array(d, _) => *d,
        d => d,
    };
    computed(
        (sc.m.parts)(base.num, index_value(sc, cells, *e.idx), base.ty, ty.pointer()),
        ty.pointer(),
    )
}

/// The member of a struct with the given name.
pub open spec fn member_named(cx: Context, ty: DtypeModel, name: Seq<char>) -> MemberModel {
    find_member(cx.structs[ty.struct_name()->Some_0], name, 0)->Some_0
}

/// The address of a struct member.
pub open spec fn member_value(sc: Scope, cells: Map<int, int>, e: MemberExpr) -> Val
    decreases e,
{
    let at = place_value(sc, cells, *e.struct_id);
    let member = member_named(sc.cx, at.ty, e.member_id@);
    computed(
        (sc.m.parts)(at.num, member.index as int, at.ty, member.dtype.pointer()),
        member.dtype.pointer(),
    )
}

/// The value of an atomic expression, and the memory behind it.
pub open spec fn unit_value(sc: Scope, cells: Map<int, int>, u: ExprUnit) -> (Val, Map<int, int>)
    decreases u,
{
    match u.inner {
        ExprUnitInner::Num(n) => (literal(n as int), cells),
        ExprUnitInner::Id(id) => (content(cells, sc.named(id@)), cells),
        ExprUnitInner::ArithExpr(e) => {
            let (v, c) = arith_value(sc, cells, *e);
            (content(c, v), c)
        },
        ExprUnitInner::FnCall(f) => call_value(sc, cells, *f),
        ExprUnitInner::ArrayExpr(e) => (content(cells, element_value(sc, cells, *e)), cells),
        ExprUnitInner::MemberExpr(e) => (content(cells, member_value(sc, cells, *e)), cells),
        ExprUnitInner::Reference(id) => {
            let at = sc.named(id@);
            let ty = array_element(at.ty)->Some_0.array(None).pointer();
            (computed((sc.m.parts)(at.num, 0, at.ty, ty), ty), cells)
        },
    }
}

/// The value of a call: the arguments are computed in order.
pub open spec fn call_value(sc: Scope, cells: Map<int, int>, f: FnCall) -> (Val, Map<int, int>)
    decreases f,
{
    let (args, c) = args_values(sc, cells, f.vals@);
    let (v, d) = (sc.m.calls)(c, linked(sc.cx.links, f.callee()), args);
    (computed(v, DtypeModel::I32), d)
}

/// The values of arguments, from the first to the last.
pub open spec fn args_values(sc: Scope, cells: Map<int, int>, vals: Seq<RightVal>) -> (
    Seq<int>,
    Map<int, int>,
)
    decreases vals,
{
    if vals.len() == 0 {
        (Seq::empty(), cells)
    } else {
        let (front, c) = args_values(sc, cells, vals.drop_last());
        let (v, d) = right_value(sc, c, vals.last());
        (front.push(v.num), d)
    }
}

/// The value of an arithmetic expression: the left operand is computed before
/// the right one.
pub open spec fn arith_value(sc: Scope, cells: Map<int, int>, e: ArithExpr) -> (Val, Map<int, int>)
    decreases e,
{
    match e.inner {
        ArithExprInner::ArithBiOpExpr(b) => {
            let (l, c) = arith_value(sc, cells, *b.left);
            let (r, d) = arith_value(sc, c, *b.right);
            (computed(narrowed(arithmetic(b.op, l.num, r.num)), DtypeModel::I32), d)
        },
        ArithExprInner::ExprUnit(u) => unit_value(sc, cells, *u),
    }
}

/// The value of a right-hand side.
pub open spec fn right_value(sc: Scope, cells: Map<int, int>, v: RightVal) -> (Val, Map<int, int>)
    decreases v,
{
    match v.inner {
        RightValInner::ArithExpr(e) => arith_value(sc, cells, *e),
        RightValInner::BoolExpr(e) => truth_value(sc, cells, *e),
    }
}

/// The value of a boolean expression: a new place gets one where it is true
/// and zero where it is false, and is read.
pub open spec fn truth_value(sc: Scope, cells: Map<int, int>, e: BoolExpr) -> (Val, Map<int, int>)
    decreases e, 1int,
{
    let (at, c) = (sc.m.places)(cells, DtypeModel::I32.pointer());
    let (b, d) = truth(sc, c, e);
    let f = d.insert(at, as_number(b));
    (computed(f[at], DtypeModel::I32), f)
}

/// Whether a boolean expression is true, and the memory behind it.  The right
/// operand of `&&` and `||` is computed only where the left one does not
/// decide.
pub open spec fn truth(sc: Scope, cells: Map<int, int>, e: BoolExpr) -> (bool, Map<int, int>)
    decreases e, 0int,
{
    match e.inner {
        BoolExprInner::BoolBiOpExpr(b) => {
            let (l, c) = truth(sc, cells, *b.left);
            match b.op {
                BoolBiOp::And => if l {
                    truth(sc, c, *b.right)
                } else {
                    (false, c)
                },
                BoolBiOp::Or => if l {
                    (true, c)
                } else {
                    truth(sc, c, *b.right)
                },
            }
        },
        BoolExprInner::BoolUnit(u) => atom_truth(sc, cells, *u),
    }
}

/// Whether a comparison is true.
pub open spec fn comparison_truth(sc: Scope, cells: Map<int, int>, e: ComExpr) -> (
    bool,
    Map<int, int>,
)
    decreases e,
{
    let (l, c) = unit_value(sc, cells, *e.left);
    let (r, d) = unit_value(sc, c, *e.right);
    (comparison(e.op, l.num, r.num), d)
}

/// Whether an atomic boolean expression is true.
pub open spec fn atom_truth(sc: Scope, cells: Map<int, int>, u: BoolUnit) -> (bool, Map<int, int>)
    decreases u,
{
    match u.inner {
        BoolUnitInner::ComExpr(e) => comparison_truth(sc, cells, *e),
        BoolUnitInner::BoolExpr(e) => truth(sc, cells, *e),
        BoolUnitInner::BoolUOpExpr(n) => {
            let (b, c) = atom_truth(sc, cells, *n.cond);
            (!b, c)
        },
    }
}

/// The value that an operand has.
pub open spec fn seen(m: Meaning, w: Machine, op: OperandModel) -> Val {
    Val { num: w.value(m, op), ty: op.ty(), constant: op is Const, global: op is Global }
}

/// The scope of translated code.
pub open spec fn scope(m: Meaning, cx: Context, st: State, w: Machine) -> Scope {
    Scope {
        m,
        cx,
        names: Map::new(
            |id: Seq<char>| st.locals.contains_key(id),
            |id: Seq<char>| seen(m, w, OperandModel::Local(st.locals[id])),
        ),
    }
}

/// The variables have numbers that are in use.
pub open spec fn locals_below(st: State) -> bool {
    forall|id: Seq<char>| #[trigger]
        st.locals.contains_key(id) ==> st.locals[id].id < st.vreg
}

/// The operand is no local value, or one whose number is in use.
pub open spec fn below(op: OperandModel, n: nat) -> bool {
    op matches OperandModel::Local(l) ==> l.id < n
}

/// The code begins with what has been translated.
pub open spec fn begins(code: Seq<StmtModel>, part: Seq<StmtModel>) -> bool {
    part.len() <= code.len() && forall|i: int| 0 <= i < part.len() ==> #[trigger] code[i] == part[i]
}

/// The values with numbers below `n` are the same.
pub open spec fn same_below(a: Machine, b: Machine, n: nat) -> bool {
    forall|i: nat| i < n ==> #[trigger] b.locals[i] == a.locals[i]
}

/// Running the code between `a` and `b` leads from `w` to `v`, and
/// changes no value that `a` knew.
pub open spec fn arrives(
    m: Meaning,
    code: Seq<StmtModel>,
    a: State,
    w: Machine,
    b: State,
    v: Machine,
) -> bool {
    &&& reaches(m, code, (a.code.len() as int, w), (b.code.len() as int, v))
    &&& same_below(w, v, a.vreg)
    &&& a.vreg <= b.vreg
    &&& b.locals == a.locals
}

/// Running the code between `a` and `b` leads from `w` to the label and
/// `v`, and changes no value that `a` knew.
pub open spec fn branches(
    m: Meaning,
    code: Seq<StmtModel>,
    a: State,
    w: Machine,
    b: State,
    label: LabelModel,
    v: Machine,
) -> bool {
    &&& reaches(m, code, (a.code.len() as int, w), (place(code, label), v))
    &&& same_below(w, v, a.vreg)
    &&& a.vreg <= b.vreg
    &&& b.locals == a.locals
}

/// The statement is no branch and no return.
pub open spec fn straight(s: StmtModel) -> bool {
    !(s is Jump || s is CJump || s is Return)
}

pub proof fn lemma_then(
    m: Meaning,
    code: Seq<StmtModel>,
    a: State,
    w: Machine,
    b: State,
    v: Machine,
    c: State,
    u: Machine,
)
    requires
        arrives(m, code, a, w, b, v),
        arrives(m, code, b, v, c, u),
    ensures
        arrives(m, code, a, w, c, u),
{
    lemma_goes_on(
        m,
        code,
        (a.code.len() as int, w),
        (b.code.len() as int, v),
        (c.code.len() as int, u),
    );
}

pub proof fn lemma_same_scope(m: Meaning, cx: Context, a: State, w: Machine, b: State, v: Machine)
    requires
        locals_below(a),
        same_below(w, v, a.vreg),
        a.vreg <= b.vreg,
        b.locals == a.locals,
    ensures
        scope(m, cx, b, v) == scope(m, cx, a, w),
        locals_below(b),
{
    assert(scope(m, cx, b, v).names =~= scope(m, cx, a, w).names);
}

/// One statement is translated to: it is run.
pub proof fn lemma_emits(
    m: Meaning,
    code: Seq<StmtModel>,
    a: State,
    w: Machine,
    b: State,
    v: Machine,
    s: StmtModel,
)
    requires
        arrives(m, code, a, w, b, v),
        begins(code, b.emit(s).code),
        straight(s),
        same_below(w, v.after(m, s), a.vreg),
    ensures
        arrives(m, code, a, w, b.emit(s), v.after(m, s)),
{
    let at = b.code.len() as int;
    assert(b.emit(s).code[at] == s);
    assert(code[at] == s);
    lemma_one_more(m, code, (a.code.len() as int, w), (at, v));
}

/// A value that is loaded to a new number.
pub proof fn lemma_load(
    m: Meaning,
    code: Seq<StmtModel>,
    a: State,
    w: Machine,
    b: State,
    v: Machine,
    d: DtypeModel,
    ptr: OperandModel,
) -> (u: Machine)
    requires
        arrives(m, code, a, w, b, v),
        begins(code, b.load(d, ptr).0.code),
        below(ptr, b.vreg),
    ensures
        arrives(m, code, a, w, b.load(d, ptr).0, u),
        same_below(v, u, b.vreg),
        u.cells == v.cells,
        seen(m, u, b.load(d, ptr).1) == computed(v.cells[v.value(m, ptr)], d),
        below(b.load(d, ptr).1, b.load(d, ptr).0.vreg),
{
    let (s1, dst) = b.fresh(d);
    let s = StmtModel::Load { dst, ptr };
    let u = v.after(m, s);
    assert(arrives(m, code, a, w, s1, v));
    lemma_emits(m, code, a, w, s1, v, s);
    u
}

/// A scalar behind an address is loaded.
proof fn lemma_content(
    m: Meaning,
    code: Seq<StmtModel>,
    a: State,
    w: Machine,
    b: State,
    v: Machine,
    op: OperandModel,
) -> (u: Machine)
    requires
        arrives(m, code, a, w, b, v),
        begins(code, loaded(b, op).0.code),
        below(op, b.vreg),
    ensures
        arrives(m, code, a, w, loaded(b, op).0, u),
        u.cells == v.cells,
        seen(m, u, loaded(b, op).1) == content(v.cells, seen(m, v, op)),
        below(loaded(b, op).1, loaded(b, op).0.vreg),
{
    match op.ty() {
        DtypeModel::Pointer(p) => if !(op is Const) && !(*p is Array) && !(*p is Struct) {
            lemma_load(m, code, a, w, b, v, *p, op)
        } else {
            v
        },
        DtypeModel::I32 => if op is Global {
            lemma_load(m, code, a, w, b, v, DtypeModel::I32, op)
        } else {
            v
        },
        _ => v,
    }
}

pub proof fn lemma_named(m: Meaning, cx: Context, st: State, w: Machine, id: Seq<char>)
    requires
        locals_below(st),
        lookup(cx, st, id) is Ok,
    ensures
        lookup(cx, st, id) matches Ok(op) && seen(m, w, op) == scope(m, cx, st, w).named(id)
            && below(op, st.vreg),
{
}

pub proof fn lemma_here(m: Meaning, code: Seq<StmtModel>, st: State, w: Machine)
    ensures
        arrives(m, code, st, w, st, w),
{
    lemma_stays(m, code, (st.code.len() as int, w));
}

/// The code of a place computes its address.
pub proof fn lemma_place_runs(
    m: Meaning,
    cx: Context,
    code: Seq<StmtModel>,
    st: State,
    w: Machine,
    p: LeftVal,
) -> (v: Machine)
    requires
        locals_below(st),
        place_code(cx, st, p).1 is Ok,
        begins(code, place_code(cx, st, p).0.code),
    ensures
        ({
            let (s, r) = place_code(cx, st, p);
            &&& arrives(m, code, st, w, s, v)
            &&& v.cells == w.cells
            &&& seen(m, v, r->Ok_0) == place_value(scope(m, cx, st, w), w.cells, p)
            &&& below(r->Ok_0, s.vreg)
        }),
    decreases p,
{
    match p.inner {
        LeftValInner::Id(id) => {
            lemma_named(m, cx, st, w, id@);
            lemma_here(m, code, st, w);
            w
        },
        LeftValInner::ArrayExpr(e) => lemma_element_runs(m, cx, code, st, w, *e),
        LeftValInner::MemberExpr(e) => lemma_member_runs(m, cx, code, st, w, *e),
    }
}

/// The code of an array access computes the address of the element.
pub proof fn lemma_element_runs(
    m: Meaning,
    cx: Context,
    code: Seq<StmtModel>,
    st: State,
    w: Machine,
    e: ArrayExpr,
) -> (v: Machine)
    requires
        locals_below(st),
        element_code(cx, st, e).1 is Ok,
        begins(code, element_code(cx, st, e).0.code),
    ensures
        ({
            let (s, r) = element_code(cx, st, e);
            &&& arrives(m, code, st, w, s, v)
            &&& v.cells == w.cells
            &&& seen(m, v, r->Ok_0) == element_value(scope(m, cx, st, w), w.cells, e)
            &&& below(r->Ok_0, s.vreg)
        }),
    decreases e,
{
    let sc = scope(m, cx, st, w);
    let (s0, at) = place_code(cx, st, *e.arr);
    let arr = at->Ok_0;
    let (s1, base) = array_base(s0, arr);
    let ty = indexed(base.ty())->Some_0;
    let (s2, new_ptr) = s1.fresh(ty.pointer());
    let (s3, idx) = index_code(cx, s2, *e.idx);
    let index = idx->Ok_0;
    let gep = StmtModel::Gep { new_ptr, base_ptr: base, index };
    assert(element_code(cx, st, e).0 == s3.emit(gep));
    assert(begins(code, s3.code)) by {
        assert forall|i: int| 0 <= i < s3.code.len() implies #[trigger] code[i] == s3.code[i] by {
            assert(s3.emit(gep).code[i] == s3.code[i]);
        }
    }
    assert(begins(code, s1.code)) by {
        assert forall|i: int| 0 <= i < s1.code.len() implies #[trigger] code[i] == s1.code[i] by {
            assert(s3.code[i] == s1.code[i]);
        }
    }
    assert(begins(code, s0.code)) by {
        assert forall|i: int| 0 <= i < s0.code.len() implies #[trigger] code[i] == s0.code[i] by {
            assert(s1.code[i] == s0.code[i]);
        }
    }
    let w0 = lemma_place_runs(m, cx, code, st, w, *e.arr);
    let w1 = match arr.ty() {
        DtypeModel::Pointer(p) => if *p is Pointer {
            lemma_load(m, code, st, w, s0, w0, *p, arr)
        } else {
            w0
        },
        _ => w0,
    };
    assert(arrives(m, code, st, w, s1, w1));
    assert(arrives(m, code, st, w, s2, w1));
    lemma_same_scope(m, cx, st, w, s2, w1);
    let w3 = match e.idx.inner {
        IndexExprInner::Id(id) => {
            lemma_named(m, cx, s2, w1, id@);
            lemma_load(m, code, st, w, s2, w1, DtypeModel::I32, lookup(cx, s2, id@)->Ok_0)
        },
        IndexExprInner::Num(n) => w1,
    };
    assert(same_below(w1, w3, s2.vreg));
    assert(w3.value(m, index) == index_value(sc, w.cells, *e.idx));
    assert(w3.value(m, base) == w1.value(m, base));
    lemma_emits(m, code, st, w, s3, w3, gep);
    w3.after(m, gep)
}

/// The code of a member access computes the address of the member.
pub proof fn lemma_member_runs(
    m: Meaning,
    cx: Context,
    code: Seq<StmtModel>,
    st: State,
    w: Machine,
    e: MemberExpr,
) -> (v: Machine)
    requires
        locals_below(st),
        member_code(cx, st, e).1 is Ok,
        begins(code, member_code(cx, st, e).0.code),
    ensures
        ({
            let (s, r) = member_code(cx, st, e);
            &&& arrives(m, code, st, w, s, v)
            &&& v.cells == w.cells
            &&& seen(m, v, r->Ok_0) == member_value(scope(m, cx, st, w), w.cells, e)
            &&& below(r->Ok_0, s.vreg)
        }),
    decreases e,
{
    let (s0, at) = place_code(cx, st, *e.struct_id);
    let op = at->Ok_0;
    let member = accessed_member(cx, op, e)->Some_0;
    let (s1, target) = s0.fresh(member.dtype.pointer());
    let gep = StmtModel::Gep {
        new_ptr: target,
        base_ptr: op,
        index: OperandModel::i32_const(member.index as int),
    };
    assert(member_code(cx, st, e).0 == s1.emit(gep));
    assert(begins(code, s0.code)) by {
        assert forall|i: int| 0 <= i < s0.code.len() implies #[trigger] code[i] == s0.code[i] by {
            assert(s1.emit(gep).code[i] == s0.code[i]);
        }
    }
    let w0 = lemma_place_runs(m, cx, code, st, w, *e.struct_id);
    assert(arrives(m, code, st, w, s1, w0));
    lemma_emits(m, code, st, w, s1, w0, gep);
    w0.after(m, gep)
}

/// The code goes on without a return.
pub open spec fn no_return(a: Seq<StmtModel>, b: Seq<StmtModel>) -> bool {
    &&& a.len() <= b.len()
    &&& forall|i: int| 0 <= i < a.len() ==> #[trigger] b[i] == a[i]
    &&& forall|i: int| a.len() <= i < b.len() ==> !(#[trigger] b[i] is Return)
}

/// Translating an expression brings no variable in or out of scope, and the
/// code goes on without a return.
pub open spec fn keeps(a: State, b: State) -> bool {
    b.locals == a.locals && b.scopes == a.scopes && b.arguments == a.arguments && no_return(
        a.code,
        b.code,
    )
}

pub proof fn lemma_place_keeps(cx: Context, st: State, p: LeftVal)
    ensures
        keeps(st, place_code(cx, st, p).0),
    decreases p,
{
    match p.inner {
        LeftValInner::Id(_) => {},
        LeftValInner::ArrayExpr(e) => lemma_element_keeps(cx, st, *e),
        LeftValInner::MemberExpr(e) => lemma_member_keeps(cx, st, *e),
    }
}

proof fn lemma_element_keeps(cx: Context, st: State, e: ArrayExpr)
    ensures
        keeps(st, element_code(cx, st, e).0),
    decreases e,
{
    lemma_place_keeps(cx, st, *e.arr);
}

proof fn lemma_member_keeps(cx: Context, st: State, e: MemberExpr)
    ensures
        keeps(st, member_code(cx, st, e).0),
    decreases e,
{
    lemma_place_keeps(cx, st, *e.struct_id);
}

proof fn lemma_unit_keeps(cx: Context, st: State, u: ExprUnit)
    ensures
        keeps(st, unit_code(cx, st, u).0),
    decreases u,
{
    match u.inner {
        ExprUnitInner::ArithExpr(e) => lemma_arith_keeps(cx, st, *e),
        ExprUnitInner::FnCall(c) => {
            let (s1, res) = st.fresh(DtypeModel::I32);
            lemma_args_keep(cx, s1, c.vals@);
        },
        ExprUnitInner::ArrayExpr(e) => lemma_element_keeps(cx, st, *e),
        ExprUnitInner::MemberExpr(e) => lemma_member_keeps(cx, st, *e),
        _ => {},
    }
}

pub proof fn lemma_args_keep(cx: Context, st: State, vals: Seq<RightVal>)
    ensures
        keeps(st, args_code(cx, st, vals).0),
    decreases vals,
{
    if vals.len() > 0 {
        lemma_args_keep(cx, st, vals.drop_last());
        lemma_right_keeps(cx, args_code(cx, st, vals.drop_last()).0, vals.last());
    }
}

proof fn lemma_arith_keeps(cx: Context, st: State, e: ArithExpr)
    ensures
        keeps(st, arith_code(cx, st, e).0),
    decreases e,
{
    match e.inner {
        ArithExprInner::ArithBiOpExpr(b) => {
            lemma_arith_keeps(cx, st, *b.left);
            lemma_arith_keeps(cx, arith_code(cx, st, *b.left).0, *b.right);
        },
        ArithExprInner::ExprUnit(u) => lemma_unit_keeps(cx, st, *u),
    }
}

/// Translating a right-hand side brings no variable in or out of scope.
pub proof fn lemma_right_keeps(cx: Context, st: State, v: RightVal)
    ensures
        keeps(st, right_code(cx, st, v).0),
    decreases v,
{
    match v.inner {
        RightValInner::ArithExpr(e) => lemma_arith_keeps(cx, st, *e),
        RightValInner::BoolExpr(e) => {
            let (s1, on_true) = st.label();
            let (s2, on_false) = s1.label();
            let (s3, after) = s2.label();
            let (s4, ptr) = s3.slot(DtypeModel::I32);
            lemma_branch_keeps(cx, s4, *e, on_true, on_false);
        },
    }
}

proof fn lemma_branch_keeps(
    cx: Context,
    st: State,
    e: BoolExpr,
    on_true: LabelModel,
    on_false: LabelModel,
)
    ensures
        keeps(st, branch_code(cx, st, e, on_true, on_false).0),
    decreases e, 0int,
{
    match e.inner {
        BoolExprInner::BoolBiOpExpr(b) => {
            let (s1, eval_right) = st.label();
            let (t, f) = match b.op {
                BoolBiOp::And => (eval_right, on_false),
                BoolBiOp::Or => (on_true, eval_right),
            };
            lemma_branch_keeps(cx, s1, *b.left, t, f);
            let s2 = branch_code(cx, s1, *b.left, t, f).0;
            lemma_branch_keeps(
                cx,
                s2.emit(StmtModel::Label { label: eval_right }),
                *b.right,
                on_true,
                on_false,
            );
        },
        BoolExprInner::BoolUnit(u) => lemma_atom_keeps(cx, st, *u, on_true, on_false),
    }
}

/// Translating a condition brings no variable in or out of scope.
pub proof fn lemma_atom_keeps(
    cx: Context,
    st: State,
    u: BoolUnit,
    on_true: LabelModel,
    on_false: LabelModel,
)
    ensures
        keeps(st, unit_branch_code(cx, st, u, on_true, on_false).0),
    decreases u,
{
    match u.inner {
        BoolUnitInner::ComExpr(c) => {
            lemma_unit_keeps(cx, st, *c.left);
            lemma_unit_keeps(cx, unit_code(cx, st, *c.left).0, *c.right);
            assert(unit_branch_code(cx, st, u, on_true, on_false) == comparison_code(
                cx,
                st,
                *c,
                on_true,
                on_false,
            ));
        },
        BoolUnitInner::BoolExpr(e) => lemma_branch_keeps(cx, st, *e, on_true, on_false),
        BoolUnitInner::BoolUOpExpr(n) => lemma_atom_keeps(cx, st, *n.cond, on_false, on_true),
    }
}

pub proof fn lemma_begins(code: Seq<StmtModel>, a: State, b: State)
    requires
        a.leads_to(b),
        begins(code, b.code),
    ensures
        begins(code, a.code),
{
    assert forall|i: int| 0 <= i < a.code.len() implies #[trigger] code[i] == a.code[i] by {
        assert(b.code[i] == a.code[i]);
    }
}

/// The code of an atomic expression computes its value.
pub proof fn lemma_unit_runs(
    m: Meaning,
    cx: Context,
    code: Seq<StmtModel>,
    st: State,
    w: Machine,
    u: ExprUnit,
) -> (v: Machine)
    requires
        locals_below(st),
        labels_once(code),
        unit_code(cx, st, u).1 is Ok,
        begins(code, unit_code(cx, st, u).0.code),
    ensures
        ({
            let (s, r) = unit_code(cx, st, u);
            let (val, cells) = unit_value(scope(m, cx, st, w), w.cells, u);
            &&& arrives(m, code, st, w, s, v)
            &&& v.cells == cells
            &&& seen(m, v, r->Ok_0) == val
            &&& below(r->Ok_0, s.vreg)
        }),
    decreases u,
{
    match u.inner {
        ExprUnitInner::Num(n) => {
            lemma_here(m, code, st, w);
            w
        },
        ExprUnitInner::Id(id) => {
            lemma_named(m, cx, st, w, id@);
            lemma_here(m, code, st, w);
            lemma_content(m, code, st, w, st, w, lookup(cx, st, id@)->Ok_0)
        },
        ExprUnitInner::ArithExpr(e) => {
            let (s1, r) = arith_code(cx, st, *e);
            assert(s1.leads_to(loaded(s1, r->Ok_0).0));
            lemma_begins(code, s1, loaded(s1, r->Ok_0).0);
            let v = lemma_arith_runs(m, cx, code, st, w, *e);
            lemma_content(m, code, st, w, s1, v, r->Ok_0)
        },
        ExprUnitInner::FnCall(c) => lemma_call_value_runs(m, cx, code, st, w, *c, u),
        ExprUnitInner::ArrayExpr(e) => {
            let (s1, r) = element_code(cx, st, *e);
            assert(s1.leads_to(loaded(s1, r->Ok_0).0));
            lemma_begins(code, s1, loaded(s1, r->Ok_0).0);
            let v = lemma_element_runs(m, cx, code, st, w, *e);
            lemma_content(m, code, st, w, s1, v, r->Ok_0)
        },
        ExprUnitInner::MemberExpr(e) => {
            let (s1, r) = member_code(cx, st, *e);
            assert(s1.leads_to(loaded(s1, r->Ok_0).0));
            lemma_begins(code, s1, loaded(s1, r->Ok_0).0);
            let v = lemma_member_runs(m, cx, code, st, w, *e);
            lemma_content(m, code, st, w, s1, v, r->Ok_0)
        },
        ExprUnitInner::Reference(id) => {
            let op = lookup(cx, st, id@)->Ok_0;
            lemma_named(m, cx, st, w, id@);
            lemma_here(m, code, st, w);
            let ty = array_element(op.ty())->Some_0.array(None).pointer();
            let (s1, target) = st.fresh(ty);
            let gep = StmtModel::Gep {
                new_ptr: target,
                base_ptr: op,
                index: OperandModel::i32_const(0),
            };
            assert(arrives(m, code, st, w, s1, w));
            lemma_emits(m, code, st, w, s1, w, gep);
            w.after(m, gep)
        },
    }
}

/// The code of a call computes the arguments in order and calls.
pub proof fn lemma_call_value_runs(
    m: Meaning,
    cx: Context,
    code: Seq<StmtModel>,
    st: State,
    w: Machine,
    c: FnCall,
    unit: ExprUnit,
) -> (v: Machine)
    requires
        locals_below(st),
        labels_once(code),
        call_value_code(cx, st, c, unit@).1 is Ok,
        begins(code, call_value_code(cx, st, c, unit@).0.code),
    ensures
        ({
            let (s, r) = call_value_code(cx, st, c, unit@);
            let (val, cells) = call_value(scope(m, cx, st, w), w.cells, c);
            &&& arrives(m, code, st, w, s, v)
            &&& v.cells == cells
            &&& seen(m, v, r->Ok_0) == val
            &&& below(r->Ok_0, s.vreg)
        }),
    decreases c,
{
    let (s1, res) = st.fresh(DtypeModel::I32);
    let (s2, values) = args_code(cx, s1, c.vals@);
    let args = values->Ok_0;
    let call = StmtModel::Call {
        func_name: linked(cx.links, c.callee()),
        res: Some(res),
        args,
    };
    assert(call_value_code(cx, st, c, unit@).0 == s2.emit(call));
    assert(s2.leads_to(s2.emit(call)));
    lemma_begins(code, s2, s2.emit(call));
    lemma_here(m, code, st, w);
    assert(arrives(m, code, st, w, s1, w));
    lemma_same_scope(m, cx, st, w, s1, w);
    let v = lemma_args_run(m, cx, code, s1, w, c.vals@);
    lemma_then(m, code, st, w, s1, w, s2, v);
    lemma_emits(m, code, st, w, s2, v, call);
    v.after(m, call)
}

/// The code of arguments computes them, from the first to the last.
pub proof fn lemma_args_run(
    m: Meaning,
    cx: Context,
    code: Seq<StmtModel>,
    st: State,
    w: Machine,
    vals: Seq<RightVal>,
) -> (v: Machine)
    requires
        locals_below(st),
        labels_once(code),
        args_code(cx, st, vals).1 is Ok,
        begins(code, args_code(cx, st, vals).0.code),
    ensures
        ({
            let (s, r) = args_code(cx, st, vals);
            let (nums, cells) = args_values(scope(m, cx, st, w), w.cells, vals);
            &&& arrives(m, code, st, w, s, v)
            &&& v.cells == cells
            &&& v.values(m, r->Ok_0) == nums
            &&& forall|i: int| 0 <= i < r->Ok_0.len() ==> below(#[trigger] r->Ok_0[i], s.vreg)
        }),
    decreases vals,
{
    if vals.len() == 0 {
        lemma_here(m, code, st, w);
        assert(w.values(m, Seq::empty()) =~= Seq::empty());
        w
    } else {
        let (s1, front) = args_code(cx, st, vals.drop_last());
        let (s2, last) = right_code(cx, s1, vals.last());
        let args = front->Ok_0;
        lemma_right_grows(cx, s1, vals.last());
        lemma_begins(code, s1, s2);
        let v1 = lemma_args_run(m, cx, code, st, w, vals.drop_last());
        lemma_same_scope(m, cx, st, w, s1, v1);
        let v2 = lemma_right_runs(m, cx, code, s1, v1, vals.last());
        lemma_then(m, code, st, w, s1, v1, s2, v2);
        let all = args.push(last->Ok_0);
        assert(v2.values(m, all) =~= v1.values(m, args).push(v2.value(m, last->Ok_0))) by {
            assert forall|i: int| 0 <= i < args.len() implies v2.value(m, all[i]) == v1.value(
                m,
                args[i],
            ) by {
                assert(below(args[i], s1.vreg));
            }
        }
        assert forall|i: int| 0 <= i < all.len() implies below(#[trigger] all[i], s2.vreg) by {
            if i < args.len() {
                assert(below(args[i], s1.vreg));
            }
        }
        v2
    }
}

/// The code of an arithmetic expression computes its value.
pub proof fn lemma_arith_runs(
    m: Meaning,
    cx: Context,
    code: Seq<StmtModel>,
    st: State,
    w: Machine,
    e: ArithExpr,
) -> (v: Machine)
    requires
        locals_below(st),
        labels_once(code),
        arith_code(cx, st, e).1 is Ok,
        begins(code, arith_code(cx, st, e).0.code),
    ensures
        ({
            let (s, r) = arith_code(cx, st, e);
            let (val, cells) = arith_value(scope(m, cx, st, w), w.cells, e);
            &&& arrives(m, code, st, w, s, v)
            &&& v.cells == cells
            &&& seen(m, v, r->Ok_0) == val
            &&& below(r->Ok_0, s.vreg)
        }),
    decreases e,
{
    match e.inner {
        ArithExprInner::ArithBiOpExpr(b) => {
            let (s1, l) = arith_code(cx, st, *b.left);
            let (s2, r) = arith_code(cx, s1, *b.right);
            let (s3, dst) = s2.fresh(DtypeModel::I32);
            let op = StmtModel::BiOp {
                kind: crate::ir::stmt::arith_of(b.op),
                left: l->Ok_0,
                right: r->Ok_0,
                dst,
            };
            lemma_arith_grows(cx, s1, *b.right);
            assert(s2.leads_to(s3.emit(op)));
            lemma_begins(code, s2, s3.emit(op));
            lemma_begins(code, s1, s2);
            let v1 = lemma_arith_runs(m, cx, code, st, w, *b.left);
            lemma_same_scope(m, cx, st, w, s1, v1);
            let v2 = lemma_arith_runs(m, cx, code, s1, v1, *b.right);
            lemma_then(m, code, st, w, s1, v1, s2, v2);
            assert(v2.value(m, l->Ok_0) == v1.value(m, l->Ok_0));
            assert(arrives(m, code, st, w, s3, v2));
            lemma_emits(m, code, st, w, s3, v2, op);
            v2.after(m, op)
        },
        ArithExprInner::ExprUnit(u) => lemma_unit_runs(m, cx, code, st, w, *u),
    }
}

/// The code of a right-hand side computes its value.
pub proof fn lemma_right_runs(
    m: Meaning,
    cx: Context,
    code: Seq<StmtModel>,
    st: State,
    w: Machine,
    e: RightVal,
) -> (v: Machine)
    requires
        locals_below(st),
        labels_once(code),
        right_code(cx, st, e).1 is Ok,
        begins(code, right_code(cx, st, e).0.code),
    ensures
        ({
            let (s, r) = right_code(cx, st, e);
            let (val, cells) = right_value(scope(m, cx, st, w), w.cells, e);
            &&& arrives(m, code, st, w, s, v)
            &&& v.cells == cells
            &&& seen(m, v, r->Ok_0) == val
            &&& below(r->Ok_0, s.vreg)
        }),
    decreases e,
{
    match e.inner {
        RightValInner::ArithExpr(a) => lemma_arith_runs(m, cx, code, st, w, *a),
        RightValInner::BoolExpr(b) => lemma_truth_runs(m, cx, code, st, w, *b),
    }
}

/// Running on from a label: what stands there is a label, and goes on behind.
pub proof fn lemma_from_label(
    m: Meaning,
    code: Seq<StmtModel>,
    from: (int, Machine),
    label: LabelModel,
    v: Machine,
    i: int,
)
    requires
        labels_once(code),
        reaches(m, code, from, (place(code, label), v)),
        0 <= i < code.len(),
        code[i] == (StmtModel::Label { label }),
    ensures
        reaches(m, code, from, (i + 1, v)),
{
    lemma_place(code, label, i);
    lemma_one_more(m, code, from, (i, v));
}

/// The end of a boolean value: from either label the number is stored and
/// control goes on behind.
proof fn lemma_materialized(
    m: Meaning,
    code: Seq<StmtModel>,
    from: (int, Machine),
    st: State,
    on_true: LabelModel,
    on_false: LabelModel,
    after: LabelModel,
    ptr: OperandModel,
    b: bool,
    v: Machine,
) -> (u: Machine)
    requires
        labels_once(code),
        begins(code, materialized(st, on_true, on_false, after, ptr).code),
        reaches(
            m,
            code,
            from,
            (
                place(
                    code,
                    if b {
                        on_true
                    } else {
                        on_false
                    },
                ),
                v,
            ),
        ),
    ensures
        u.locals == v.locals,
        u.cells == v.cells.insert(v.value(m, ptr), as_number(b)),
        reaches(
            m,
            code,
            from,
            (materialized(st, on_true, on_false, after, ptr).code.len() as int, u),
        ),
{
    let all = materialized(st, on_true, on_false, after, ptr).code;
    let n = st.code.len() as int;
    assert(all.len() == n + 7);
    assert(all[n] == (StmtModel::Label { label: on_true }));
    assert(all[n + 1] == (StmtModel::Store { src: OperandModel::i32_const(1), ptr }));
    assert(all[n + 2] == (StmtModel::Jump { target: after }));
    assert(all[n + 3] == (StmtModel::Label { label: on_false }));
    assert(all[n + 4] == (StmtModel::Store { src: OperandModel::i32_const(0), ptr }));
    assert(all[n + 5] == (StmtModel::Jump { target: after }));
    assert(all[n + 6] == (StmtModel::Label { label: after }));
    assert(code[n] == all[n] && code[n + 1] == all[n + 1] && code[n + 2] == all[n + 2]);
    assert(code[n + 3] == all[n + 3] && code[n + 4] == all[n + 4] && code[n + 5] == all[n + 5]);
    assert(code[n + 6] == all[n + 6]);
    let i = if b {
        n
    } else {
        n + 3
    };
    lemma_from_label(
        m,
        code,
        from,
        if b {
            on_true
        } else {
            on_false
        },
        v,
        i,
    );
    lemma_one_more(m, code, from, (i + 1, v));
    let u = v.after(m, code[i + 1]);
    lemma_one_more(m, code, from, (i + 2, u));
    lemma_from_label(m, code, from, after, u, n + 6);
    u
}

/// The code of a boolean value computes one or zero.
pub proof fn lemma_truth_runs(
    m: Meaning,
    cx: Context,
    code: Seq<StmtModel>,
    st: State,
    w: Machine,
    e: BoolExpr,
) -> (v: Machine)
    requires
        locals_below(st),
        labels_once(code),
        truth_code(cx, st, e).1 is Ok,
        begins(code, truth_code(cx, st, e).0.code),
    ensures
        ({
            let (s, r) = truth_code(cx, st, e);
            let (val, cells) = truth_value(scope(m, cx, st, w), w.cells, e);
            &&& arrives(m, code, st, w, s, v)
            &&& v.cells == cells
            &&& seen(m, v, r->Ok_0) == val
            &&& below(r->Ok_0, s.vreg)
        }),
    decreases e, 1int,
{
    let (s1, on_true) = st.label();
    let (s2, on_false) = s1.label();
    let (s3, after) = s2.label();
    let (s4, ptr) = s3.slot(DtypeModel::I32);
    let (s5, r) = branch_code(cx, s4, e, on_true, on_false);
    let s6 = materialized(s5, on_true, on_false, after, ptr);
    let (s7, val) = s6.load(DtypeModel::I32, ptr);
    lemma_branch_grows(cx, s4, e, on_true, on_false);
    assert(s6.leads_to(s7));
    lemma_begins(code, s6, s7);
    assert(s5.leads_to(s6));
    lemma_begins(code, s5, s6);
    lemma_begins(code, s4, s5);
    lemma_here(m, code, st, w);
    let slot = StmtModel::Alloca { dst: ptr };
    let (t, _) = s3.fresh(DtypeModel::I32.pointer());
    assert(arrives(m, code, st, w, t, w));
    lemma_emits(m, code, st, w, t, w, slot);
    let w4 = w.after(m, slot);
    assert(arrives(m, code, st, w, s4, w4));
    lemma_same_scope(m, cx, st, w, s4, w4);
    let w5 = lemma_branch_runs(m, cx, code, s4, w4, e, on_true, on_false);
    let from = (st.code.len() as int, w);
    let b = truth(scope(m, cx, st, w), w4.cells, e).0;
    lemma_goes_on(
        m,
        code,
        from,
        (s4.code.len() as int, w4),
        (
            place(
                code,
                if b {
                    on_true
                } else {
                    on_false
                },
            ),
            w5,
        ),
    );
    let w6 = lemma_materialized(m, code, from, s5, on_true, on_false, after, ptr, b, w5);
    assert(w5.value(m, ptr) == w4.value(m, ptr));
    assert(arrives(m, code, st, w, s6, w6));
    lemma_load(m, code, st, w, s6, w6, DtypeModel::I32, ptr)
}

/// The code of a condition goes to the first label exactly where the condition
/// is true, and to the second exactly where it is false.
pub proof fn lemma_branch_runs(
    m: Meaning,
    cx: Context,
    code: Seq<StmtModel>,
    st: State,
    w: Machine,
    e: BoolExpr,
    on_true: LabelModel,
    on_false: LabelModel,
) -> (v: Machine)
    requires
        locals_below(st),
        labels_once(code),
        branch_code(cx, st, e, on_true, on_false).1 is Ok,
        begins(code, branch_code(cx, st, e, on_true, on_false).0.code),
    ensures
        ({
            let s = branch_code(cx, st, e, on_true, on_false).0;
            let (b, cells) = truth(scope(m, cx, st, w), w.cells, e);
            &&& branches(
                m,
                code,
                st,
                w,
                s,
                if b {
                    on_true
                } else {
                    on_false
                },
                v,
            )
            &&& v.cells == cells
        }),
    decreases e, 0int,
{
    match e.inner {
        BoolExprInner::BoolBiOpExpr(b) => {
            let (s1, eval_right) = st.label();
            let (t, f) = match b.op {
                BoolBiOp::And => (eval_right, on_false),
                BoolBiOp::Or => (on_true, eval_right),
            };
            let s2 = branch_code(cx, s1, *b.left, t, f).0;
            let s3 = s2.emit(StmtModel::Label { label: eval_right });
            let s4 = branch_code(cx, s3, *b.right, on_true, on_false).0;
            lemma_branch_grows(cx, s3, *b.right, on_true, on_false);
            lemma_begins(code, s3, s4);
            assert(s2.leads_to(s3));
            lemma_begins(code, s2, s3);
            lemma_same_scope(m, cx, st, w, s1, w);
            let v1 = lemma_branch_runs(m, cx, code, s1, w, *b.left, t, f);
            let l = truth(scope(m, cx, st, w), w.cells, *b.left).0;
            lemma_same_scope(m, cx, st, w, s3, v1);
            lemma_branch_keeps(cx, s3, *b.right, on_true, on_false);
            if l == (b.op == BoolBiOp::And) {
                let at = s2.code.len() as int;
                assert(s3.code[at] == (StmtModel::Label { label: eval_right }));
                assert(code[at] == s3.code[at]);
                let from = (st.code.len() as int, w);
                lemma_from_label(m, code, from, eval_right, v1, at);
                let v2 = lemma_branch_runs(m, cx, code, s3, v1, *b.right, on_true, on_false);
                let r = truth(scope(m, cx, st, w), v1.cells, *b.right).0;
                lemma_goes_on(
                    m,
                    code,
                    from,
                    (s3.code.len() as int, v1),
                    (
                        place(
                            code,
                            if r {
                                on_true
                            } else {
                                on_false
                            },
                        ),
                        v2,
                    ),
                );
                v2
            } else {
                v1
            }
        },
        BoolExprInner::BoolUnit(u) => lemma_atom_runs(m, cx, code, st, w, *u, on_true, on_false),
    }
}

/// The code of an atomic condition goes to the first label exactly where the
/// condition is true, and to the second exactly where it is false.
pub proof fn lemma_atom_runs(
    m: Meaning,
    cx: Context,
    code: Seq<StmtModel>,
    st: State,
    w: Machine,
    u: BoolUnit,
    on_true: LabelModel,
    on_false: LabelModel,
) -> (v: Machine)
    requires
        locals_below(st),
        labels_once(code),
        unit_branch_code(cx, st, u, on_true, on_false).1 is Ok,
        begins(code, unit_branch_code(cx, st, u, on_true, on_false).0.code),
    ensures
        ({
            let s = unit_branch_code(cx, st, u, on_true, on_false).0;
            let (b, cells) = atom_truth(scope(m, cx, st, w), w.cells, u);
            &&& branches(
                m,
                code,
                st,
                w,
                s,
                if b {
                    on_true
                } else {
                    on_false
                },
                v,
            )
            &&& v.cells == cells
        }),
    decreases u,
{
    match u.inner {
        BoolUnitInner::ComExpr(c) => lemma_comparison_runs(
            m,
            cx,
            code,
            st,
            w,
            *c,
            on_true,
            on_false,
        ),
        BoolUnitInner::BoolExpr(e) => lemma_branch_runs(m, cx, code, st, w, *e, on_true, on_false),
        BoolUnitInner::BoolUOpExpr(n) => lemma_atom_runs(
            m,
            cx,
            code,
            st,
            w,
            *n.cond,
            on_false,
            on_true,
        ),
    }
}

/// The code of a comparison goes to the first label exactly where it holds of
/// the two values, and to the second exactly where it does not.
pub proof fn lemma_comparison_runs(
    m: Meaning,
    cx: Context,
    code: Seq<StmtModel>,
    st: State,
    w: Machine,
    c: ComExpr,
    on_true: LabelModel,
    on_false: LabelModel,
) -> (v: Machine)
    requires
        locals_below(st),
        labels_once(code),
        comparison_code(cx, st, c, on_true, on_false).1 is Ok,
        begins(code, comparison_code(cx, st, c, on_true, on_false).0.code),
    ensures
        ({
            let s = comparison_code(cx, st, c, on_true, on_false).0;
            let (b, cells) = comparison_truth(scope(m, cx, st, w), w.cells, c);
            &&& branches(
                m,
                code,
                st,
                w,
                s,
                if b {
                    on_true
                } else {
                    on_false
                },
                v,
            )
            &&& v.cells == cells
        }),
    decreases c,
{
    let (s1, l) = unit_code(cx, st, *c.left);
    let (s2, r) = unit_code(cx, s1, *c.right);
    let (s3, dst) = s2.fresh(DtypeModel::I1);
    let test = StmtModel::Cmp {
        kind: crate::ir::stmt::predicate_of(c.op),
        left: l->Ok_0,
        right: r->Ok_0,
        dst,
    };
    let jump = StmtModel::CJump { cond: dst, true_label: on_true, false_label: on_false };
    let s4 = s3.emit(test);
    let s5 = s4.emit(jump);
    lemma_unit_grows(cx, s1, *c.right);
    assert(s4.leads_to(s5));
    lemma_begins(code, s4, s5);
    assert(s2.leads_to(s4));
    lemma_begins(code, s2, s4);
    lemma_begins(code, s1, s2);
    let v1 = lemma_unit_runs(m, cx, code, st, w, *c.left);
    lemma_same_scope(m, cx, st, w, s1, v1);
    let v2 = lemma_unit_runs(m, cx, code, s1, v1, *c.right);
    lemma_then(m, code, st, w, s1, v1, s2, v2);
    assert(v2.value(m, l->Ok_0) == v1.value(m, l->Ok_0));
    assert(arrives(m, code, st, w, s3, v2));
    lemma_emits(m, code, st, w, s3, v2, test);
    let v = v2.after(m, test);
    let at = s4.code.len() as int;
    assert(s5.code[at] == jump);
    assert(code[at] == jump);
    lemma_one_more(m, code, (st.code.len() as int, w), (at, v));
    v
}

} // verus!
