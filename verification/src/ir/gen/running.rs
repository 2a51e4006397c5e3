//! What statements mean, and that translated code does it.

use crate::ast::decl::{ArrayInitializer, FnDef, VarDecl, VarDeclStmtInner, VarDef, VarDefInner};
use crate::ast::expr::{
    ArithExpr, ArithExprInner, ExprUnit, ExprUnitInner, RightVal, RightValInner,
};
use crate::ast::stmt::{
    AssignmentStmt, CallStmt, CodeBlockStmt, CodeBlockStmtInner, IfStmt, ReturnStmt, WhileStmt,
};
use crate::ir::execution::{
    labels_once, lemma_goes_on, lemma_one_more, place, reaches, Machine, Meaning,
};
use crate::ir::function::LabelModel;
use crate::ir::gen::conversions::{declared, defined};
use crate::ir::gen::labels::lemma_function_labels;
use crate::ir::gen::lowering::{
    function_code, lemma_params_grow, params_code, args_code, arith_code, assignment_code,
    call_code, decl_code, def_code, element_store, else_code, explicit_type, fill_code, if_code,
    init_code, lemma_args_grow, lemma_arith_grows, lemma_branch_grows, lemma_element_grows,
    lemma_else_grows, lemma_member_grows, lemma_fill_grows, lemma_init_grows, lemma_place_grows,
    lemma_right_grows, lemma_stmt_grows, lemma_stmts_grow, lemma_unit_branch_grows, list_init_code,
    local_base, local_of, place_code, return_code, right_code, stmt_code, stmts_code,
    unit_branch_code, unit_code, while_code, Context, State,
};
use crate::ir::gen::meaning::{
    args_values, arrives, atom_truth, begins, below, computed, keeps, lemma_args_keep,
    lemma_args_run, lemma_atom_keeps, lemma_atom_runs, lemma_begins, lemma_emits, lemma_from_label,
    lemma_here, lemma_place_keeps, lemma_place_runs, lemma_right_keeps, lemma_right_runs,
    lemma_same_scope, lemma_then, locals_below, place_value, right_value, same_below, scope, seen,
    Scope, Val,
};
use crate::ir::link::linked;
use crate::ir::stmt::StmtModel;
use crate::ir::types::DtypeModel;
use crate::ir::value::OperandModel;
use vstd::prelude::*;

verus! {

/// Where control goes behind a statement.
pub enum Flow {
    /// To the next statement, with these variables in scope.
    Next(Map<Seq<char>, Val>),
    /// To the test of the loop.
    Continue,
    /// Out of the loop.
    Break,
    /// Out of the function, with this value.
    Return(Option<int>),
}

/// What a statement leaves.
pub struct Done {
    pub flow: Flow,
    pub cells: Map<int, int>,
}

impl Scope {
    /// The scope with other variables.
    pub open spec fn over(self, names: Map<Seq<char>, Val>) -> Scope {
        Scope { m: self.m, cx: self.cx, names }
    }
}

/// A new place for a value of the given type, and the memory with it.
pub open spec fn new_place(sc: Scope, cells: Map<int, int>, ty: DtypeModel) -> (
    Val,
    Map<int, int>,
) {
    let (at, c) = (sc.m.places)(cells, ty.pointer());
    (computed(at, ty.pointer()), c)
}

/// The address of an element of an array.
pub open spec fn element_at(sc: Scope, base: Val, i: int) -> int {
    (sc.m.parts)(base.num, i, base.ty, DtypeModel::I32.pointer())
}

/// The memory after the elements of an array got the values of a list, each
/// computed before it is stored.
pub open spec fn listed(sc: Scope, cells: Map<int, int>, base: Val, vals: Seq<RightVal>) -> Map<
    int,
    int,
>
    decreases vals.len(),
{
    if vals.len() == 0 {
        cells
    } else {
        let front = listed(sc, cells, base, vals.drop_last());
        let (v, c) = right_value(sc, front, vals.last());
        c.insert(element_at(sc, base, vals.len() - 1), v.num)
    }
}

/// The memory after the first `count` elements of an array got the value.
pub open spec fn filled(sc: Scope, cells: Map<int, int>, base: Val, v: int, count: nat) -> Map<
    int,
    int,
>
    decreases count,
{
    if count == 0 {
        cells
    } else {
        filled(sc, cells, base, v, (count - 1) as nat).insert(
            element_at(sc, base, count - 1),
            v,
        )
    }
}

/// A declaration: the name stands for a new place.
pub open spec fn do_decl(sc: Scope, cells: Map<int, int>, d: VarDecl) -> Done {
    let elem = local_base(
        sc.cx,
        d.identifier@,
        explicit_type(d.type_specifier),
        d.inner is Scalar,
    );
    let (at, c) = new_place(sc, cells, declared(elem, d.inner));
    Done { flow: Flow::Next(sc.names.insert(d.identifier@, at)), cells: c }
}

/// A definition: the name stands for a new place that holds the value.
pub open spec fn do_def(sc: Scope, cells: Map<int, int>, d: VarDef) -> Done {
    let elem = local_base(
        sc.cx,
        d.identifier@,
        explicit_type(d.type_specifier),
        d.inner is Scalar,
    );
    match d.inner {
        VarDefInner::Scalar(s) => {
            let (v, c) = right_value(sc, cells, *s.val);
            let (at, e) = new_place(sc, c, defined(elem, d.inner));
            Done {
                flow: Flow::Next(sc.names.insert(d.identifier@, at)),
                cells: e.insert(at.num, v.num),
            }
        },
        VarDefInner::Array(a) => {
            let (at, c) = new_place(sc, cells, defined(elem, d.inner));
            Done {
                flow: Flow::Next(sc.names.insert(d.identifier@, at)),
                cells: match a.initializer {
                    ArrayInitializer::ExplicitList(vals) => listed(sc, c, at, vals@),
                    ArrayInitializer::Fill { val, count } => {
                        let (v, e) = right_value(sc, c, *val);
                        filled(sc, e, at, v.num, count as nat)
                    },
                },
            }
        },
    }
}

/// A statement; nothing where it needs more than `fuel` rounds of loops.
pub open spec fn do_stmt(sc: Scope, cells: Map<int, int>, s: CodeBlockStmt, fuel: nat) -> Option<
    Done,
>
    decreases fuel, s,
{
    match s.inner {
        CodeBlockStmtInner::VarDecl(v) => Some(
            match v.inner {
                VarDeclStmtInner::Decl(d) => do_decl(sc, cells, *d),
                VarDeclStmtInner::Def(d) => do_def(sc, cells, *d),
            },
        ),
        CodeBlockStmtInner::Assignment(a) => {
            let at = place_value(sc, cells, *a.left_val);
            let (v, c) = right_value(sc, cells, *a.right_val);
            Some(Done { flow: Flow::Next(sc.names), cells: c.insert(at.num, v.num) })
        },
        CodeBlockStmtInner::Call(c) => {
            let (args, d) = args_values(sc, cells, c.fn_call.vals@);
            Some(
                Done {
                    flow: Flow::Next(sc.names),
                    cells: (sc.m.calls)(d, linked(sc.cx.links, c.fn_call.callee()), args).1,
                },
            )
        },
        CodeBlockStmtInner::If(i) => do_if(sc, cells, *i, fuel),
        CodeBlockStmtInner::While(w) => do_while(sc, cells, *w, fuel),
        CodeBlockStmtInner::Return(r) => Some(
            match r.val {
                None => Done { flow: Flow::Return(None), cells },
                Some(v) => {
                    let (x, c) = right_value(sc, cells, *v);
                    Done { flow: Flow::Return(Some(x.num)), cells: c }
                },
            },
        ),
        CodeBlockStmtInner::Continue(_) => Some(Done { flow: Flow::Continue, cells }),
        CodeBlockStmtInner::Break(_) => Some(Done { flow: Flow::Break, cells }),
        CodeBlockStmtInner::Null(_) => Some(Done { flow: Flow::Next(sc.names), cells }),
    }
}

/// Statements, one behind the other, until one leaves.
pub open spec fn do_stmts(
    sc: Scope,
    cells: Map<int, int>,
    stmts: Seq<CodeBlockStmt>,
    fuel: nat,
) -> Option<Done>
    decreases fuel, stmts,
{
    if stmts.len() == 0 {
        Some(Done { flow: Flow::Next(sc.names), cells })
    } else {
        match do_stmts(sc, cells, stmts.drop_last(), fuel) {
            None => None,
            Some(d) => match d.flow {
                Flow::Next(names) => do_stmt(sc.over(names), d.cells, stmts.last(), fuel),
                _ => Some(d),
            },
        }
    }
}

/// The end of a block: the variables that it introduced are gone.
pub open spec fn closed(sc: Scope, d: Option<Done>) -> Option<Done> {
    match d {
        Some(d) => match d.flow {
            Flow::Next(_) => Some(Done { flow: Flow::Next(sc.names), cells: d.cells }),
            _ => Some(d),
        },
        None => None,
    }
}

/// A conditional: the first statements where the condition is true, the others
/// where it is false.
pub open spec fn do_if(sc: Scope, cells: Map<int, int>, i: IfStmt, fuel: nat) -> Option<Done>
    decreases fuel, i,
{
    let (b, c) = atom_truth(sc, cells, *i.bool_unit);
    if b {
        closed(sc, do_stmts(sc, c, i.if_stmts@, fuel))
    } else {
        match i.else_stmts {
            Some(stmts) => closed(sc, do_stmts(sc, c, stmts@, fuel)),
            None => Some(Done { flow: Flow::Next(sc.names), cells: c }),
        }
    }
}

/// A loop: the statements as long as the condition is true.
pub open spec fn do_while(sc: Scope, cells: Map<int, int>, w: WhileStmt, fuel: nat) -> Option<Done>
    decreases fuel, w,
{
    if fuel == 0 {
        None
    } else {
        let (b, c) = atom_truth(sc, cells, *w.bool_unit);
        if b {
            match do_stmts(sc, c, w.stmts@, fuel) {
                None => None,
                Some(d) => match d.flow {
                    Flow::Next(_) => do_while(sc, d.cells, w, (fuel - 1) as nat),
                    Flow::Continue => do_while(sc, d.cells, w, (fuel - 1) as nat),
                    Flow::Break => Some(Done { flow: Flow::Next(sc.names), cells: d.cells }),
                    Flow::Return(_) => Some(d),
                },
            }
        } else {
            Some(Done { flow: Flow::Next(sc.names), cells: c })
        }
    }
}

/// The code at the position returns the value.
pub open spec fn gives_back(
    m: Meaning,
    code: Seq<StmtModel>,
    pc: int,
    v: Machine,
    x: Option<int>,
) -> bool {
    &&& 0 <= pc < code.len()
    &&& code[pc] matches StmtModel::Return { val } && match val {
        Some(op) => x == Some(v.value(m, op)),
        None => x is None,
    }
}

/// Running the code between `a` and `b` leads from `w` to `v` and to
/// where the statement says.
pub open spec fn finishes(
    cx: Context,
    m: Meaning,
    code: Seq<StmtModel>,
    a: State,
    w: Machine,
    b: State,
    on_continue: Option<LabelModel>,
    on_break: Option<LabelModel>,
    d: Done,
    v: Machine,
) -> bool {
    let from = (a.code.len() as int, w);
    &&& v.cells == d.cells
    &&& same_below(w, v, a.vreg)
    &&& match d.flow {
        Flow::Next(names) => reaches(m, code, from, (b.code.len() as int, v)) && scope(
            m,
            cx,
            b,
            v,
        ).names == names,
        Flow::Continue => on_continue matches Some(l) && reaches(
            m,
            code,
            from,
            (place(code, l), v),
        ),
        Flow::Break => on_break matches Some(l) && reaches(m, code, from, (place(code, l), v)),
        Flow::Return(x) => exists|pc: int| #[trigger]
            reaches(m, code, from, (pc, v)) && gives_back(m, code, pc, v, x),
    }
}

/// `b` has the variables of `a`, and maybe new ones that its innermost scope
/// knows.
pub open spec fn opens(a: State, b: State) -> bool {
    &&& a.vreg <= b.vreg
    &&& b.scopes.len() == a.scopes.len()
    &&& locals_below(a) ==> locals_below(b)
    &&& forall|id: Seq<char>| #[trigger]
        a.locals.contains_key(id) ==> b.locals.contains_key(id) && b.locals[id] == a.locals[id]
    &&& a.scopes.len() > 0 ==> {
        &&& b.scopes.drop_last() == a.scopes.drop_last()
        &&& a.scopes.last().len() <= b.scopes.last().len()
        &&& b.scopes.last().take(a.scopes.last().len() as int) == a.scopes.last()
        &&& forall|i: int|
            a.scopes.last().len() <= i < b.scopes.last().len() ==> !a.locals.contains_key(
                #[trigger] b.scopes.last()[i],
            )
        &&& forall|id: Seq<char>| #[trigger]
            b.locals.contains_key(id) && !a.locals.contains_key(id) ==> exists|i: int|
                a.scopes.last().len() <= i < b.scopes.last().len() && #[trigger] b.scopes.last()[i]
                    == id
    }
}

proof fn lemma_opens_then(a: State, b: State, c: State)
    requires
        opens(a, b),
        opens(b, c),
    ensures
        opens(a, c),
{
    assert forall|id: Seq<char>| #[trigger] a.locals.contains_key(id) implies c.locals.contains_key(
        id,
    ) && c.locals[id] == a.locals[id] by {
        assert(b.locals.contains_key(id));
    }
    if a.scopes.len() > 0 {
        let x = a.scopes.last();
        let y = b.scopes.last();
        let z = c.scopes.last();
        assert(z.take(x.len() as int) =~= x) by {
            assert forall|i: int| 0 <= i < x.len() implies z[i] == x[i] by {
                assert(z.take(y.len() as int)[i] == y[i]);
                assert(y.take(x.len() as int)[i] == x[i]);
            }
        }
        assert forall|i: int| x.len() <= i < z.len() implies !a.locals.contains_key(
            #[trigger] z[i],
        ) by {
            if i < y.len() {
                assert(z.take(y.len() as int)[i] == y[i]);
            } else if a.locals.contains_key(z[i]) {
                assert(b.locals.contains_key(z[i]));
            }
        }
        assert forall|id: Seq<char>| #[trigger]
            c.locals.contains_key(id) && !a.locals.contains_key(id) implies exists|i: int|
            x.len() <= i < z.len() && #[trigger] z[i] == id by {
            if b.locals.contains_key(id) {
                let i = choose|i: int| x.len() <= i < y.len() && #[trigger] y[i] == id;
                assert(z.take(y.len() as int)[i] == y[i]);
                assert(z[i] == id);
            } else {
                let i = choose|i: int| y.len() <= i < z.len() && #[trigger] z[i] == id;
                assert(z[i] == id);
            }
        }
    }
}

proof fn lemma_opens_keeps(a: State, b: State)
    requires
        keeps(a, b),
        a.vreg <= b.vreg,
    ensures
        opens(a, b),
{
    if a.scopes.len() > 0 {
        assert(a.scopes.last().take(a.scopes.last().len() as int) =~= a.scopes.last());
    }
}

/// Closing the scope that was opened last restores the variables.
proof fn lemma_exit(a: State, b: State)
    requires
        opens(a.enter(), b),
    ensures
        b.exit().locals == a.locals,
        b.exit().scopes == a.scopes,
        b.exit().code == b.code,
        b.exit().vreg == b.vreg,
        a.vreg <= b.vreg,
{
    let e = a.enter();
    let names = b.scopes.last();
    assert(e.scopes.drop_last() =~= a.scopes);
    assert(e.scopes.last().len() == 0);
    assert forall|id: Seq<char>|
        b.exit().locals.contains_key(id) == a.locals.contains_key(id) && (a.locals.contains_key(id)
            ==> b.exit().locals[id] == a.locals[id]) by {
        if a.locals.contains_key(id) {
            assert(e.locals.contains_key(id));
            assert(b.locals.contains_key(id));
            if names.to_set().contains(id) {
                let i = choose|i: int| 0 <= i < names.len() && names[i] == id;
                assert(!e.locals.contains_key(names[i]));
            }
        } else if b.locals.contains_key(id) {
            let i = choose|i: int| 0 <= i < names.len() && #[trigger] names[i] == id;
            assert(names.to_set().contains(id));
        }
    }
    assert(b.exit().locals =~= a.locals);
}

/// A variable that is introduced is new.
proof fn lemma_introduce(a: State, name: Seq<char>, local: crate::ir::value::LocalModel)
    requires
        a.introduce(name, local).1 is Ok,
        local.id < a.vreg,
    ensures
        opens(a, a.introduce(name, local).0),
        a.introduce(name, local).0.locals == a.locals.insert(name, local),
        a.introduce(name, local).0.code == a.code,
        a.introduce(name, local).0.vreg == a.vreg,
{
    let b = a.introduce(name, local).0;
    if a.scopes.len() > 0 {
        let x = a.scopes.last();
        let y = b.scopes.last();
        assert(b.scopes.drop_last() =~= a.scopes.drop_last());
        assert(y == x.push(name));
        assert(y.take(x.len() as int) =~= x);
        assert(y[x.len() as int] == name);
    }
}

/// A statement that introduces no variable is run: control goes on.
proof fn lemma_finished(
    cx: Context,
    m: Meaning,
    code: Seq<StmtModel>,
    a: State,
    w: Machine,
    b: State,
    on_continue: Option<LabelModel>,
    on_break: Option<LabelModel>,
    v: Machine,
)
    requires
        locals_below(a),
        arrives(m, code, a, w, b, v),
    ensures
        finishes(
            cx,
            m,
            code,
            a,
            w,
            b,
            on_continue,
            on_break,
            Done { flow: Flow::Next(scope(m, cx, a, w).names), cells: v.cells },
            v,
        ),
{
    lemma_same_scope(m, cx, a, w, b, v);
}

/// A new slot.
proof fn lemma_slot(
    cx: Context,
    m: Meaning,
    code: Seq<StmtModel>,
    a: State,
    w: Machine,
    b: State,
    v: Machine,
    ty: DtypeModel,
) -> (u: Machine)
    requires
        arrives(m, code, a, w, b, v),
        begins(code, b.slot(ty).0.code),
    ensures
        arrives(m, code, a, w, b.slot(ty).0, u),
        same_below(v, u, b.vreg),
        forall|k: nat| k != b.vreg ==> #[trigger] u.locals[k] == v.locals[k],
        seen(m, u, b.slot(ty).1) == new_place(scope(m, cx, b, v), v.cells, ty).0,
        u.cells == new_place(scope(m, cx, b, v), v.cells, ty).1,
        b.slot(ty).1 is Local,
        below(b.slot(ty).1, b.slot(ty).0.vreg),
{
    let (s1, dst) = b.fresh(ty.pointer());
    let s = StmtModel::Alloca { dst };
    assert(arrives(m, code, a, w, s1, v));
    lemma_emits(m, code, a, w, s1, v, s);
    v.after(m, s)
}

/// A store of an element.
proof fn lemma_element_store(
    cx: Context,
    m: Meaning,
    code: Seq<StmtModel>,
    a: State,
    w: Machine,
    b: State,
    v: Machine,
    base: OperandModel,
    new_ptr: OperandModel,
    i: int,
    src: OperandModel,
) -> (u: Machine)
    requires
        arrives(m, code, a, w, b, v),
        begins(code, element_store(b, base, new_ptr, i, src).code),
        new_ptr matches OperandModel::Local(l) && a.vreg <= l.id && l.dtype
            == DtypeModel::I32.pointer(),
        src != new_ptr,
        src matches OperandModel::Local(l) ==> new_ptr->Local_0.id != l.id,
    ensures
        arrives(m, code, a, w, element_store(b, base, new_ptr, i, src), u),
        forall|k: nat| k != new_ptr->Local_0.id ==> #[trigger] u.locals[k] == v.locals[k],
        u.cells == v.cells.insert(
            (m.parts)(v.value(m, base), i, base.ty(), DtypeModel::I32.pointer()),
            v.value(m, src),
        ),
{
    let gep = StmtModel::Gep { new_ptr, base_ptr: base, index: OperandModel::i32_const(i) };
    let store = StmtModel::Store { src, ptr: new_ptr };
    let b1 = b.emit(gep);
    let b2 = b1.emit(store);
    assert(b1.leads_to(b2));
    lemma_begins(code, b1, b2);
    lemma_emits(m, code, a, w, b, v, gep);
    let v1 = v.after(m, gep);
    lemma_emits(m, code, a, w, b1, v1, store);
    v1.after(m, store)
}

/// The operand is no local value, or a new one, or the address of a variable.
pub open spec fn sourced(st: State, op: OperandModel) -> bool {
    op matches OperandModel::Local(l) ==> l.id >= st.vreg || exists|id: Seq<char>| #[trigger]
        st.locals.contains_key(id) && st.locals[id] == l
}

proof fn lemma_unit_source(cx: Context, st: State, u: ExprUnit)
    ensures
        unit_code(cx, st, u).1 matches Ok(op) ==> sourced(st, op),
    decreases u,
{
    match u.inner {
        ExprUnitInner::ArithExpr(e) => {
            lemma_arith_source(cx, st, *e);
            lemma_arith_grows(cx, st, *e);
        },
        ExprUnitInner::ArrayExpr(e) => {
            lemma_element_grows(cx, st, *e);
            lemma_place_grows(cx, st, *e.arr);
        },
        ExprUnitInner::MemberExpr(e) => {
            lemma_member_grows(cx, st, *e);
            lemma_place_grows(cx, st, *e.struct_id);
        },
        _ => {},
    }
}

proof fn lemma_arith_source(cx: Context, st: State, e: ArithExpr)
    ensures
        arith_code(cx, st, e).1 matches Ok(op) ==> sourced(st, op),
    decreases e,
{
    match e.inner {
        ArithExprInner::ArithBiOpExpr(b) => {
            lemma_arith_grows(cx, st, *b.left);
            lemma_arith_grows(cx, arith_code(cx, st, *b.left).0, *b.right);
        },
        ArithExprInner::ExprUnit(u) => lemma_unit_source(cx, st, *u),
    }
}

proof fn lemma_right_source(cx: Context, st: State, v: RightVal)
    ensures
        right_code(cx, st, v).1 matches Ok(op) ==> sourced(st, op),
{
    match v.inner {
        RightValInner::ArithExpr(e) => lemma_arith_source(cx, st, *e),
        RightValInner::BoolExpr(e) => {
            let (s1, on_true) = st.label();
            let (s2, on_false) = s1.label();
            let (s3, after) = s2.label();
            let (s4, ptr) = s3.slot(DtypeModel::I32);
            lemma_branch_grows(cx, s4, *e, on_true, on_false);
        },
    }
}

/// The stores of a list of elements.
proof fn lemma_list_runs(
    cx: Context,
    m: Meaning,
    code: Seq<StmtModel>,
    st: State,
    w: Machine,
    base: OperandModel,
    vals: Seq<RightVal>,
) -> (v: Machine)
    requires
        locals_below(st),
        labels_once(code),
        below(base, st.vreg),
        list_init_code(cx, st, base, vals).1 is Ok,
        begins(code, list_init_code(cx, st, base, vals).0.code),
    ensures
        arrives(m, code, st, w, list_init_code(cx, st, base, vals).0, v),
        keeps(st, list_init_code(cx, st, base, vals).0),
        v.cells == listed(scope(m, cx, st, w), w.cells, seen(m, w, base), vals),
    decreases vals.len(),
{
    if vals.len() == 0 {
        lemma_here(m, code, st, w);
        w
    } else {
        let sc = scope(m, cx, st, w);
        let s1 = list_init_code(cx, st, base, vals.drop_last()).0;
        let (s2, new_ptr) = s1.fresh(DtypeModel::I32.pointer());
        let (s3, r) = right_code(cx, s2, vals.last());
        let s4 = element_store(s3, base, new_ptr, vals.len() - 1, r->Ok_0);
        lemma_right_grows(cx, s2, vals.last());
        lemma_right_keeps(cx, s2, vals.last());
        assert(s3.leads_to(s4));
        lemma_begins(code, s3, s4);
        lemma_begins(code, s2, s3);
        let v1 = lemma_list_runs(cx, m, code, st, w, base, vals.drop_last());
        assert(arrives(m, code, st, w, s2, v1));
        lemma_same_scope(m, cx, st, w, s2, v1);
        let v3 = lemma_right_runs(m, cx, code, s2, v1, vals.last());
        lemma_then(m, code, st, w, s2, v1, s3, v3);
        assert(v3.value(m, base) == w.value(m, base));
        lemma_right_source(cx, s2, vals.last());
        lemma_element_store(
            cx,
            m,
            code,
            st,
            w,
            s3,
            v3,
            base,
            new_ptr,
            vals.len() - 1,
            r->Ok_0,
        )
    }
}

/// The stores of one value to elements.
proof fn lemma_fill_runs(
    cx: Context,
    m: Meaning,
    code: Seq<StmtModel>,
    a: State,
    w: Machine,
    st: State,
    v: Machine,
    base: OperandModel,
    src: OperandModel,
    count: nat,
) -> (u: Machine)
    requires
        arrives(m, code, a, w, st, v),
        below(base, st.vreg),
        below(src, st.vreg),
        begins(code, fill_code(st, base, src, count).code),
    ensures
        arrives(m, code, a, w, fill_code(st, base, src, count), u),
        same_below(v, u, st.vreg),
        keeps(st, fill_code(st, base, src, count)),
        st.vreg <= fill_code(st, base, src, count).vreg,
        u.cells == filled(
            scope(m, cx, st, v),
            v.cells,
            seen(m, v, base),
            v.value(m, src),
            count,
        ),
    decreases count,
{
    if count == 0 {
        v
    } else {
        let s1 = fill_code(st, base, src, (count - 1) as nat);
        let (s2, new_ptr) = s1.fresh(DtypeModel::I32.pointer());
        let s3 = element_store(s2, base, new_ptr, count - 1, src);
        assert(s1.leads_to(s3));
        lemma_begins(code, s1, s3);
        let v1 = lemma_fill_runs(cx, m, code, a, w, st, v, base, src, (count - 1) as nat);
        assert(arrives(m, code, a, w, s2, v1));
        assert(v1.value(m, base) == v.value(m, base));
        assert(v1.value(m, src) == v.value(m, src));
        lemma_element_store(cx, m, code, a, w, s2, v1, base, new_ptr, count - 1, src)
    }
}

proof fn lemma_list_keeps(cx: Context, st: State, base: OperandModel, vals: Seq<RightVal>)
    ensures
        keeps(st, list_init_code(cx, st, base, vals).0),
    decreases vals.len(),
{
    if vals.len() > 0 {
        lemma_list_keeps(cx, st, base, vals.drop_last());
        let s1 = list_init_code(cx, st, base, vals.drop_last()).0;
        lemma_right_keeps(cx, s1.fresh(DtypeModel::I32.pointer()).0, vals.last());
    }
}

proof fn lemma_fill_keeps(st: State, base: OperandModel, v: OperandModel, count: nat)
    ensures
        keeps(st, fill_code(st, base, v, count)),
        st.vreg <= fill_code(st, base, v, count).vreg,
    decreases count,
{
    if count > 0 {
        lemma_fill_keeps(st, base, v, (count - 1) as nat);
    }
}

/// Translating an initialization brings no variable in or out of scope.
proof fn lemma_init_keeps(cx: Context, st: State, base: OperandModel, init: ArrayInitializer)
    ensures
        keeps(st, init_code(cx, st, base, init).0),
        st.vreg <= init_code(cx, st, base, init).0.vreg,
{
    lemma_init_grows(cx, st, base, init);
    match init {
        ArrayInitializer::ExplicitList(vals) => lemma_list_keeps(cx, st, base, vals@),
        ArrayInitializer::Fill { val, count } => {
            lemma_right_keeps(cx, st, *val);
            let (s1, r) = right_code(cx, st, *val);
            if let Ok(v) = r {
                lemma_fill_keeps(s1, base, v, count as nat);
            }
        },
    }
}

/// What a definition takes before its name is introduced.
proof fn lemma_def_opens(cx: Context, st: State, d: VarDef)
    requires
        def_code(cx, st, d).1 is Ok,
    ensures
        opens(st, def_code(cx, st, d).0),
{
    let elem = local_base(
        cx,
        d.identifier@,
        explicit_type(d.type_specifier),
        d.inner is Scalar,
    );
    let pointee = defined(elem, d.inner);
    match d.inner {
        VarDefInner::Scalar(s) => {
            let (s1, r) = right_code(cx, st, *s.val);
            lemma_right_keeps(cx, st, *s.val);
            lemma_right_grows(cx, st, *s.val);
            let (s2, slot) = s1.slot(pointee);
            let s3 = s2.emit(StmtModel::Store { src: r->Ok_0, ptr: slot });
            lemma_opens_keeps(st, s3);
            lemma_introduce(s3, d.identifier@, local_of(slot));
            lemma_opens_then(st, s3, def_code(cx, st, d).0);
        },
        VarDefInner::Array(a) => {
            let (s1, slot) = st.slot(pointee);
            let s2 = init_code(cx, s1, slot, a.initializer).0;
            lemma_init_keeps(cx, s1, slot, a.initializer);
            lemma_opens_keeps(st, s2);
            lemma_introduce(s2, d.identifier@, local_of(slot));
            lemma_opens_then(st, s2, def_code(cx, st, d).0);
        },
    }
}

/// A statement only brings new variables into the innermost scope.
pub proof fn lemma_stmt_opens(
    cx: Context,
    st: State,
    s: CodeBlockStmt,
    on_continue: Option<LabelModel>,
    on_break: Option<LabelModel>,
)
    requires
        stmt_code(cx, st, s, on_continue, on_break).1 is Ok,
    ensures
        opens(st, stmt_code(cx, st, s, on_continue, on_break).0),
    decreases s,
{
    let end = stmt_code(cx, st, s, on_continue, on_break).0;
    match s.inner {
        CodeBlockStmtInner::VarDecl(v) => match v.inner {
            VarDeclStmtInner::Decl(d) => {
                let elem = local_base(
                    cx,
                    d.identifier@,
                    explicit_type(d.type_specifier),
                    d.inner is Scalar,
                );
                let (s1, slot) = st.slot(declared(elem, d.inner));
                lemma_opens_keeps(st, s1);
                lemma_introduce(s1, d.identifier@, local_of(slot));
                lemma_opens_then(st, s1, end);
            },
            VarDeclStmtInner::Def(d) => lemma_def_opens(cx, st, *d),
        },
        CodeBlockStmtInner::Assignment(a) => {
            lemma_place_keeps(cx, st, *a.left_val);
            lemma_place_grows(cx, st, *a.left_val);
            let s1 = place_code(cx, st, *a.left_val).0;
            lemma_right_keeps(cx, s1, *a.right_val);
            lemma_right_grows(cx, s1, *a.right_val);
            lemma_opens_keeps(st, end);
        },
        CodeBlockStmtInner::Call(c) => {
            lemma_args_keep(cx, st, c.fn_call.vals@);
            lemma_args_grow(cx, st, c.fn_call.vals@);
            lemma_opens_keeps(st, end);
        },
        CodeBlockStmtInner::If(i) => {
            lemma_if_opens(cx, st, *i, on_continue, on_break);
        },
        CodeBlockStmtInner::While(w) => {
            lemma_while_opens(cx, st, *w);
        },
        CodeBlockStmtInner::Return(r) => {
            if let Some(v) = r.val {
                lemma_right_keeps(cx, st, *v);
                lemma_right_grows(cx, st, *v);
            }
            lemma_opens_names(st, end);
        },
        _ => {
            lemma_opens_keeps(st, end);
        },
    }
}

/// Statements only bring new variables into the innermost scope.
pub proof fn lemma_stmts_open(
    cx: Context,
    st: State,
    stmts: Seq<CodeBlockStmt>,
    on_continue: Option<LabelModel>,
    on_break: Option<LabelModel>,
)
    requires
        stmts_code(cx, st, stmts, on_continue, on_break).1 is Ok,
    ensures
        opens(st, stmts_code(cx, st, stmts, on_continue, on_break).0),
    decreases stmts,
{
    if stmts.len() == 0 {
        lemma_opens_keeps(st, st);
    } else {
        let s1 = stmts_code(cx, st, stmts.drop_last(), on_continue, on_break).0;
        lemma_stmts_open(cx, st, stmts.drop_last(), on_continue, on_break);
        lemma_stmt_opens(cx, s1, stmts.last(), on_continue, on_break);
        lemma_opens_then(st, s1, stmts_code(cx, st, stmts, on_continue, on_break).0);
    }
}

proof fn lemma_if_opens(
    cx: Context,
    st: State,
    i: IfStmt,
    on_continue: Option<LabelModel>,
    on_break: Option<LabelModel>,
)
    requires
        if_code(cx, st, i, on_continue, on_break).1 is Ok,
    ensures
        opens(st, if_code(cx, st, i, on_continue, on_break).0),
        keeps_names(st, if_code(cx, st, i, on_continue, on_break).0),
    decreases i,
{
    let (s1, on_true) = st.label();
    let (s2, on_false) = s1.label();
    let (s3, after) = s2.label();
    let s4 = unit_branch_code(cx, s3, *i.bool_unit, on_true, on_false).0;
    lemma_atom_keeps(cx, s3, *i.bool_unit, on_true, on_false);
    lemma_unit_branch_grows(cx, s3, *i.bool_unit, on_true, on_false);
    let t = s4.emit(StmtModel::Label { label: on_true });
    let s5 = stmts_code(cx, t.enter(), i.if_stmts@, on_continue, on_break).0;
    lemma_stmts_open(cx, t.enter(), i.if_stmts@, on_continue, on_break);
    lemma_exit(t, s5);
    let f = s5.exit().emit(StmtModel::Jump { target: after }).emit(
        StmtModel::Label { label: on_false },
    );
    let s7 = else_code(cx, f.enter(), i.else_stmts, on_continue, on_break).0;
    match i.else_stmts {
        Some(stmts) => lemma_stmts_open(cx, f.enter(), stmts@, on_continue, on_break),
        None => lemma_opens_keeps(f.enter(), f.enter()),
    }
    lemma_exit(f, s7);
    let end = s7.exit().emit(StmtModel::Jump { target: after }).emit(
        StmtModel::Label { label: after },
    );
    assert(end == if_code(cx, st, i, on_continue, on_break).0);
    lemma_opens_names(st, end);
}

proof fn lemma_while_opens(cx: Context, st: State, w: WhileStmt)
    requires
        while_code(cx, st, w).1 is Ok,
    ensures
        opens(st, while_code(cx, st, w).0),
        keeps_names(st, while_code(cx, st, w).0),
    decreases w,
{
    let (s1, test) = st.label();
    let (s2, on_true) = s1.label();
    let (s3, on_false) = s2.label();
    let s4 = s3.emit(StmtModel::Jump { target: test }).emit(StmtModel::Label { label: test });
    let s5 = unit_branch_code(cx, s4, *w.bool_unit, on_true, on_false).0;
    lemma_atom_keeps(cx, s4, *w.bool_unit, on_true, on_false);
    lemma_unit_branch_grows(cx, s4, *w.bool_unit, on_true, on_false);
    let t = s5.emit(StmtModel::Label { label: on_true });
    let s6 = stmts_code(cx, t.enter(), w.stmts@, Some(test), Some(on_false)).0;
    lemma_stmts_open(cx, t.enter(), w.stmts@, Some(test), Some(on_false));
    lemma_exit(t, s6);
    lemma_opens_names(st, while_code(cx, st, w).0);
}

/// The same variables are in scope.
pub open spec fn keeps_names(a: State, b: State) -> bool {
    b.locals == a.locals && b.scopes == a.scopes && a.vreg <= b.vreg
}

proof fn lemma_opens_names(a: State, b: State)
    requires
        keeps_names(a, b),
    ensures
        opens(a, b),
{
    if a.scopes.len() > 0 {
        assert(a.scopes.last().take(a.scopes.last().len() as int) =~= a.scopes.last());
    }
}

/// A name is introduced for a slot: the scope has it.
proof fn lemma_introduced(
    cx: Context,
    m: Meaning,
    code: Seq<StmtModel>,
    a: State,
    w: Machine,
    b: State,
    v: Machine,
    name: Seq<char>,
    slot: OperandModel,
    on_continue: Option<LabelModel>,
    on_break: Option<LabelModel>,
)
    requires
        locals_below(a),
        arrives(m, code, a, w, b, v),
        slot is Local,
        below(slot, b.vreg),
        b.introduce(name, local_of(slot)).1 is Ok,
    ensures
        finishes(
            cx,
            m,
            code,
            a,
            w,
            b.introduce(name, local_of(slot)).0,
            on_continue,
            on_break,
            Done {
                flow: Flow::Next(scope(m, cx, a, w).names.insert(name, seen(m, v, slot))),
                cells: v.cells,
            },
            v,
        ),
{
    lemma_introduce(b, name, local_of(slot));
    lemma_same_scope(m, cx, a, w, b, v);
    let end = b.introduce(name, local_of(slot)).0;
    assert(scope(m, cx, end, v).names =~= scope(m, cx, b, v).names.insert(
        name,
        seen(m, v, slot),
    ));
}

/// A declaration does what it means.
proof fn lemma_decl_runs(
    cx: Context,
    m: Meaning,
    code: Seq<StmtModel>,
    st: State,
    w: Machine,
    d: VarDecl,
    on_continue: Option<LabelModel>,
    on_break: Option<LabelModel>,
) -> (v: Machine)
    requires
        locals_below(st),
        decl_code(cx, st, d).1 is Ok,
        begins(code, decl_code(cx, st, d).0.code),
    ensures
        finishes(
            cx,
            m,
            code,
            st,
            w,
            decl_code(cx, st, d).0,
            on_continue,
            on_break,
            do_decl(scope(m, cx, st, w), w.cells, d),
            v,
        ),
{
    let elem = local_base(
        cx,
        d.identifier@,
        explicit_type(d.type_specifier),
        d.inner is Scalar,
    );
    let ty = declared(elem, d.inner);
    let (s1, slot) = st.slot(ty);
    lemma_introduce(s1, d.identifier@, local_of(slot));
    lemma_here(m, code, st, w);
    let v = lemma_slot(cx, m, code, st, w, st, w, ty);
    lemma_introduced(
        cx,
        m,
        code,
        st,
        w,
        s1,
        v,
        d.identifier@,
        slot,
        on_continue,
        on_break,
    );
    v
}

/// A definition does what it means.
proof fn lemma_def_runs(
    cx: Context,
    m: Meaning,
    code: Seq<StmtModel>,
    st: State,
    w: Machine,
    d: VarDef,
    on_continue: Option<LabelModel>,
    on_break: Option<LabelModel>,
) -> (v: Machine)
    requires
        locals_below(st),
        labels_once(code),
        def_code(cx, st, d).1 is Ok,
        begins(code, def_code(cx, st, d).0.code),
    ensures
        finishes(
            cx,
            m,
            code,
            st,
            w,
            def_code(cx, st, d).0,
            on_continue,
            on_break,
            do_def(scope(m, cx, st, w), w.cells, d),
            v,
        ),
{
    let elem = local_base(
        cx,
        d.identifier@,
        explicit_type(d.type_specifier),
        d.inner is Scalar,
    );
    let ty = defined(elem, d.inner);
    match d.inner {
        VarDefInner::Scalar(s) => {
            let (s1, r) = right_code(cx, st, *s.val);
            let (s2, slot) = s1.slot(ty);
            let store = StmtModel::Store { src: r->Ok_0, ptr: slot };
            let s3 = s2.emit(store);
            lemma_introduce(s3, d.identifier@, local_of(slot));
            assert(s2.leads_to(s3));
            lemma_begins(code, s2, s3);
            assert(s1.leads_to(s2));
            lemma_begins(code, s1, s2);
            let v1 = lemma_right_runs(m, cx, code, st, w, *s.val);
            lemma_same_scope(m, cx, st, w, s1, v1);
            let v2 = lemma_slot(cx, m, code, st, w, s1, v1, ty);
            assert(v2.value(m, r->Ok_0) == v1.value(m, r->Ok_0));
            lemma_emits(m, code, st, w, s2, v2, store);
            let v3 = v2.after(m, store);
            lemma_introduced(
                cx,
                m,
                code,
                st,
                w,
                s3,
                v3,
                d.identifier@,
                slot,
                on_continue,
                on_break,
            );
            v3
        },
        VarDefInner::Array(a) => {
            let (s1, slot) = st.slot(ty);
            let s2 = init_code(cx, s1, slot, a.initializer).0;
            lemma_init_keeps(cx, s1, slot, a.initializer);
            lemma_init_grows(cx, s1, slot, a.initializer);
            lemma_introduce(s2, d.identifier@, local_of(slot));
            lemma_begins(code, s1, s2);
            lemma_here(m, code, st, w);
            let v1 = lemma_slot(cx, m, code, st, w, st, w, ty);
            lemma_same_scope(m, cx, st, w, s1, v1);
            let v2 = match a.initializer {
                ArrayInitializer::ExplicitList(vals) => {
                    let v2 = lemma_list_runs(cx, m, code, s1, v1, slot, vals@);
                    lemma_then(m, code, st, w, s1, v1, s2, v2);
                    v2
                },
                ArrayInitializer::Fill { val, count } => {
                    let (t, r) = right_code(cx, s1, *val);
                    lemma_fill_grows(t, slot, r->Ok_0, 0, count as nat);
                    lemma_begins(code, t, s2);
                    let u = lemma_right_runs(m, cx, code, s1, v1, *val);
                    lemma_then(m, code, st, w, s1, v1, t, u);
                    lemma_same_scope(m, cx, s1, v1, t, u);
                    assert(u.value(m, slot) == v1.value(m, slot));
                    lemma_fill_runs(
                        cx,
                        m,
                        code,
                        st,
                        w,
                        t,
                        u,
                        slot,
                        r->Ok_0,
                        count as nat,
                    )
                },
            };
            assert(seen(m, v2, slot) == seen(m, v1, slot));
            lemma_introduced(
                cx,
                m,
                code,
                st,
                w,
                s2,
                v2,
                d.identifier@,
                slot,
                on_continue,
                on_break,
            );
            v2
        },
    }
}

/// What leaves from further on leaves from the start.
proof fn lemma_leaves(
    cx: Context,
    m: Meaning,
    code: Seq<StmtModel>,
    st: State,
    w: Machine,
    a: State,
    wa: Machine,
    b: State,
    end: State,
    on_continue: Option<LabelModel>,
    on_break: Option<LabelModel>,
    d: Done,
    v: Machine,
)
    requires
        reaches(m, code, (st.code.len() as int, w), (a.code.len() as int, wa)),
        same_below(w, wa, st.vreg),
        st.vreg <= a.vreg,
        finishes(cx, m, code, a, wa, b, on_continue, on_break, d, v),
        !(d.flow is Next),
    ensures
        finishes(cx, m, code, st, w, end, on_continue, on_break, d, v),
{
    let from = (st.code.len() as int, w);
    let mid = (a.code.len() as int, wa);
    match d.flow {
        Flow::Continue => lemma_goes_on(m, code, from, mid, (place(code, on_continue->Some_0), v)),
        Flow::Break => lemma_goes_on(m, code, from, mid, (place(code, on_break->Some_0), v)),
        Flow::Return(x) => {
            let pc = choose|pc: int| #[trigger]
                reaches(m, code, mid, (pc, v)) && gives_back(m, code, pc, v, x);
            lemma_goes_on(m, code, from, mid, (pc, v));
        },
        Flow::Next(_) => {},
    }
}

/// An assignment does what it means.
proof fn lemma_assignment_runs(
    cx: Context,
    m: Meaning,
    code: Seq<StmtModel>,
    st: State,
    w: Machine,
    a: AssignmentStmt,
) -> (v: Machine)
    requires
        locals_below(st),
        labels_once(code),
        assignment_code(cx, st, a).1 is Ok,
        begins(code, assignment_code(cx, st, a).0.code),
    ensures
        arrives(m, code, st, w, assignment_code(cx, st, a).0, v),
        ({
            let sc = scope(m, cx, st, w);
            let (x, c) = right_value(sc, w.cells, *a.right_val);
            v.cells == c.insert(place_value(sc, w.cells, *a.left_val).num, x.num)
        }),
{
    let (s1, l) = place_code(cx, st, *a.left_val);
    let (s2, r) = right_code(cx, s1, *a.right_val);
    let store = StmtModel::Store { src: r->Ok_0, ptr: l->Ok_0 };
    lemma_right_grows(cx, s1, *a.right_val);
    assert(s2.leads_to(s2.emit(store)));
    lemma_begins(code, s2, s2.emit(store));
    lemma_begins(code, s1, s2);
    let v1 = lemma_place_runs(m, cx, code, st, w, *a.left_val);
    lemma_same_scope(m, cx, st, w, s1, v1);
    let v2 = lemma_right_runs(m, cx, code, s1, v1, *a.right_val);
    lemma_then(m, code, st, w, s1, v1, s2, v2);
    assert(v2.value(m, l->Ok_0) == v1.value(m, l->Ok_0));
    lemma_emits(m, code, st, w, s2, v2, store);
    v2.after(m, store)
}

/// A call does what it means.
proof fn lemma_call_runs(
    cx: Context,
    m: Meaning,
    code: Seq<StmtModel>,
    st: State,
    w: Machine,
    c: CallStmt,
) -> (v: Machine)
    requires
        locals_below(st),
        labels_once(code),
        call_code(cx, st, c).1 is Ok,
        begins(code, call_code(cx, st, c).0.code),
    ensures
        arrives(m, code, st, w, call_code(cx, st, c).0, v),
        ({
            let sc = scope(m, cx, st, w);
            let (args, d) = args_values(sc, w.cells, c.fn_call.vals@);
            v.cells == (m.calls)(d, linked(cx.links, c.fn_call.callee()), args).1
        }),
{
    let callee = c.fn_call.callee();
    let func_name = linked(cx.links, callee);
    let (s1, values) = args_code(cx, st, c.fn_call.vals@);
    let args = values->Ok_0;
    let end = call_code(cx, st, c).0;
    assert(s1.leads_to(end));
    lemma_begins(code, s1, end);
    let v1 = lemma_args_run(m, cx, code, st, w, c.fn_call.vals@);
    if cx.functions[callee].return_dtype is I32 {
        let (s2, res) = s1.fresh(DtypeModel::I32);
        let call = StmtModel::Call { func_name, res: Some(res), args };
        assert(arrives(m, code, st, w, s2, v1));
        lemma_emits(m, code, st, w, s2, v1, call);
        v1.after(m, call)
    } else {
        let call = StmtModel::Call { func_name, res: None, args };
        lemma_emits(m, code, st, w, s1, v1, call);
        v1.after(m, call)
    }
}

/// A return does what it means.
proof fn lemma_return_runs(
    cx: Context,
    m: Meaning,
    code: Seq<StmtModel>,
    st: State,
    w: Machine,
    r: ReturnStmt,
    on_continue: Option<LabelModel>,
    on_break: Option<LabelModel>,
) -> (v: Machine)
    requires
        locals_below(st),
        labels_once(code),
        return_code(cx, st, r).1 is Ok,
        begins(code, return_code(cx, st, r).0.code),
    ensures
        finishes(
            cx,
            m,
            code,
            st,
            w,
            return_code(cx, st, r).0,
            on_continue,
            on_break,
            match r.val {
                None => Done { flow: Flow::Return(None), cells: w.cells },
                Some(x) => {
                    let (val, c) = right_value(scope(m, cx, st, w), w.cells, *x);
                    Done { flow: Flow::Return(Some(val.num)), cells: c }
                },
            },
            v,
        ),
{
    let end = return_code(cx, st, r).0;
    let pc = end.code.len() - 1;
    assert(code[pc] == end.code[pc]);
    match r.val {
        None => {
            lemma_here(m, code, st, w);
            assert(reaches(m, code, (st.code.len() as int, w), (pc, w)));
            assert(gives_back(m, code, pc, w, None));
            w
        },
        Some(x) => {
            let (s1, val) = right_code(cx, st, *x);
            assert(s1.leads_to(end));
            lemma_begins(code, s1, end);
            let v = lemma_right_runs(m, cx, code, st, w, *x);
            assert(reaches(m, code, (st.code.len() as int, w), (pc, v)));
            assert(gives_back(m, code, pc, v, Some(v.value(m, val->Ok_0))));
            v
        },
    }
}

/// The statements between a label and a jump to the end, in a scope of their
/// own.
proof fn lemma_block_runs(
    cx: Context,
    m: Meaning,
    code: Seq<StmtModel>,
    st: State,
    w: Machine,
    t: State,
    v: Machine,
    stmts: Seq<CodeBlockStmt>,
    on_continue: Option<LabelModel>,
    on_break: Option<LabelModel>,
    target: LabelModel,
    end: State,
    fuel: nat,
) -> (u: Machine)
    requires
        locals_below(st),
        labels_once(code),
        t.locals == st.locals,
        st.vreg <= t.vreg,
        reaches(m, code, (st.code.len() as int, w), (t.code.len() as int, v)),
        same_below(w, v, st.vreg),
        stmts_code(cx, t.enter(), stmts, on_continue, on_break).1 is Ok,
        begins(
            code,
            stmts_code(cx, t.enter(), stmts, on_continue, on_break).0.emit(
                StmtModel::Jump { target },
            ).code,
        ),
        do_stmts(scope(m, cx, st, w), v.cells, stmts, fuel) is Some,
    ensures
        ({
            let d = do_stmts(scope(m, cx, st, w), v.cells, stmts, fuel)->Some_0;
            &&& d.flow is Next ==> reaches(
                m,
                code,
                (st.code.len() as int, w),
                (place(code, target), u),
            ) && same_below(w, u, st.vreg) && u.cells == d.cells
            &&& !(d.flow is Next) ==> finishes(
                cx,
                m,
                code,
                st,
                w,
                end,
                on_continue,
                on_break,
                d,
                u,
            )
        }),
    decreases fuel, stmts, 1nat,
{
    let e = t.enter();
    let s = stmts_code(cx, e, stmts, on_continue, on_break).0;
    let jump = StmtModel::Jump { target };
    assert(s.leads_to(s.emit(jump)));
    lemma_begins(code, s, s.emit(jump));
    lemma_same_scope(m, cx, st, w, e, v);
    let d = do_stmts(scope(m, cx, st, w), v.cells, stmts, fuel)->Some_0;
    let u = lemma_stmts_run(cx, m, code, e, v, stmts, on_continue, on_break, fuel);
    if d.flow is Next {
        let from = (st.code.len() as int, w);
        let at = s.code.len() as int;
        lemma_goes_on(m, code, from, (t.code.len() as int, v), (at, u));
        assert(s.emit(jump).code[at] == jump);
        assert(code[at] == jump);
        lemma_one_more(m, code, from, (at, u));
    } else {
        lemma_leaves(cx, m, code, st, w, e, v, s, end, on_continue, on_break, d, u);
    }
    u
}

/// A conditional does what it means.
proof fn lemma_if_runs(
    cx: Context,
    m: Meaning,
    code: Seq<StmtModel>,
    st: State,
    w: Machine,
    i: IfStmt,
    on_continue: Option<LabelModel>,
    on_break: Option<LabelModel>,
    fuel: nat,
) -> (v: Machine)
    requires
        locals_below(st),
        labels_once(code),
        if_code(cx, st, i, on_continue, on_break).1 is Ok,
        begins(code, if_code(cx, st, i, on_continue, on_break).0.code),
        do_if(scope(m, cx, st, w), w.cells, i, fuel) is Some,
    ensures
        finishes(
            cx,
            m,
            code,
            st,
            w,
            if_code(cx, st, i, on_continue, on_break).0,
            on_continue,
            on_break,
            do_if(scope(m, cx, st, w), w.cells, i, fuel)->Some_0,
            v,
        ),
    decreases fuel, i, 0nat,
{
    let sc = scope(m, cx, st, w);
    let (s1, on_true) = st.label();
    let (s2, on_false) = s1.label();
    let (s3, after) = s2.label();
    let s4 = unit_branch_code(cx, s3, *i.bool_unit, on_true, on_false).0;
    let t = s4.emit(StmtModel::Label { label: on_true });
    let s5 = stmts_code(cx, t.enter(), i.if_stmts@, on_continue, on_break).0;
    let j = s5.exit().emit(StmtModel::Jump { target: after });
    let f = j.emit(StmtModel::Label { label: on_false });
    let s7 = else_code(cx, f.enter(), i.else_stmts, on_continue, on_break).0;
    let k = s7.exit().emit(StmtModel::Jump { target: after });
    let end = k.emit(StmtModel::Label { label: after });
    assert(end == if_code(cx, st, i, on_continue, on_break).0);
    lemma_if_opens(cx, st, i, on_continue, on_break);
    lemma_atom_keeps(cx, s3, *i.bool_unit, on_true, on_false);
    lemma_unit_branch_grows(cx, s3, *i.bool_unit, on_true, on_false);
    lemma_stmts_grow(cx, t.enter(), i.if_stmts@, on_continue, on_break);
    lemma_stmts_open(cx, t.enter(), i.if_stmts@, on_continue, on_break);
    lemma_exit(t, s5);
    lemma_else_grows(cx, f.enter(), i.else_stmts, on_continue, on_break);
    assert(k.leads_to(end));
    lemma_begins(code, k, end);
    assert(f.leads_to(k)) by {
        assert(f.enter().leads_to(s7));
        assert(s7.code == s7.exit().code);
    }
    lemma_begins(code, f, k);
    assert(j.leads_to(f));
    lemma_begins(code, j, f);
    assert(t.leads_to(j)) by {
        assert(t.enter().leads_to(s5));
    }
    lemma_begins(code, t, j);
    assert(s4.leads_to(t));
    lemma_begins(code, s4, t);
    lemma_same_scope(m, cx, st, w, s3, w);
    let v4 = lemma_atom_runs(m, cx, code, s3, w, *i.bool_unit, on_true, on_false);
    let (b, c) = atom_truth(sc, w.cells, *i.bool_unit);
    let from = (st.code.len() as int, w);
    let last = k.code.len() as int;
    assert(end.code[last] == (StmtModel::Label { label: after }));
    assert(code[last] == end.code[last]);
    let d = do_if(sc, w.cells, i, fuel)->Some_0;
    if b {
        let at = s4.code.len() as int;
        assert(t.code[at] == (StmtModel::Label { label: on_true }));
        assert(code[at] == t.code[at]);
        lemma_from_label(m, code, from, on_true, v4, at);
        assert(s5.emit(StmtModel::Jump { target: after }).code == j.code);
        let u = lemma_block_runs(
            cx,
            m,
            code,
            st,
            w,
            t,
            v4,
            i.if_stmts@,
            on_continue,
            on_break,
            after,
            end,
            fuel,
        );
        if do_stmts(sc, c, i.if_stmts@, fuel)->Some_0.flow is Next {
            lemma_from_label(m, code, from, after, u, last);
            lemma_same_scope(m, cx, st, w, end, u);
        }
        u
    } else {
        let at = j.code.len() as int;
        assert(f.code[at] == (StmtModel::Label { label: on_false }));
        assert(code[at] == f.code[at]);
        lemma_from_label(m, code, from, on_false, v4, at);
        match i.else_stmts {
            Some(stmts) => {
                assert(s7.emit(StmtModel::Jump { target: after }).code == k.code);
                let u = lemma_block_runs(
                    cx,
                    m,
                    code,
                    st,
                    w,
                    f,
                    v4,
                    stmts@,
                    on_continue,
                    on_break,
                    after,
                    end,
                    fuel,
                );
                if do_stmts(sc, c, stmts@, fuel)->Some_0.flow is Next {
                    lemma_from_label(m, code, from, after, u, last);
                    lemma_same_scope(m, cx, st, w, end, u);
                }
                u
            },
            None => {
                let at = f.code.len() as int;
                assert(k.code[at] == (StmtModel::Jump { target: after }));
                assert(code[at] == k.code[at]);
                lemma_one_more(m, code, from, (at, v4));
                lemma_from_label(m, code, from, after, v4, last);
                lemma_same_scope(m, cx, st, w, end, v4);
                v4
            },
        }
    }
}

/// A loop that has come to its test does what it means.
proof fn lemma_while_runs(
    cx: Context,
    m: Meaning,
    code: Seq<StmtModel>,
    st: State,
    w: Machine,
    x: WhileStmt,
    v: Machine,
    on_continue: Option<LabelModel>,
    on_break: Option<LabelModel>,
    fuel: nat,
) -> (u: Machine)
    requires
        locals_below(st),
        labels_once(code),
        while_code(cx, st, x).1 is Ok,
        begins(code, while_code(cx, st, x).0.code),
        do_while(scope(m, cx, st, w), v.cells, x, fuel) is Some,
        same_below(w, v, st.vreg),
        reaches(
            m,
            code,
            (st.code.len() as int, w),
            (place(code, LabelModel::BasicBlock(st.block)), v),
        ),
    ensures
        finishes(
            cx,
            m,
            code,
            st,
            w,
            while_code(cx, st, x).0,
            on_continue,
            on_break,
            do_while(scope(m, cx, st, w), v.cells, x, fuel)->Some_0,
            u,
        ),
    decreases fuel, x, 0nat,
{
    let sc = scope(m, cx, st, w);
    let (s1, test) = st.label();
    let (s2, on_true) = s1.label();
    let (s3, on_false) = s2.label();
    let p = s3.emit(StmtModel::Jump { target: test });
    let s4 = p.emit(StmtModel::Label { label: test });
    let s5 = unit_branch_code(cx, s4, *x.bool_unit, on_true, on_false).0;
    let t = s5.emit(StmtModel::Label { label: on_true });
    let s6 = stmts_code(cx, t.enter(), x.stmts@, Some(test), Some(on_false)).0;
    let k = s6.exit().emit(StmtModel::Jump { target: test });
    let end = k.emit(StmtModel::Label { label: on_false });
    assert(end == while_code(cx, st, x).0);
    lemma_while_opens(cx, st, x);
    lemma_atom_keeps(cx, s4, *x.bool_unit, on_true, on_false);
    lemma_unit_branch_grows(cx, s4, *x.bool_unit, on_true, on_false);
    lemma_stmts_grow(cx, t.enter(), x.stmts@, Some(test), Some(on_false));
    lemma_stmts_open(cx, t.enter(), x.stmts@, Some(test), Some(on_false));
    lemma_exit(t, s6);
    assert(k.leads_to(end));
    lemma_begins(code, k, end);
    assert(t.leads_to(k)) by {
        assert(t.enter().leads_to(s6));
    }
    lemma_begins(code, t, k);
    assert(s5.leads_to(t));
    lemma_begins(code, s5, t);
    lemma_begins(code, s4, s5);
    let from = (st.code.len() as int, w);
    let at = p.code.len() as int;
    assert(s4.code[at] == (StmtModel::Label { label: test }));
    assert(code[at] == s4.code[at]);
    lemma_from_label(m, code, from, test, v, at);
    lemma_same_scope(m, cx, st, w, s4, v);
    let v5 = lemma_atom_runs(m, cx, code, s4, v, *x.bool_unit, on_true, on_false);
    let (b, c) = atom_truth(sc, v.cells, *x.bool_unit);
    lemma_goes_on(
        m,
        code,
        from,
        (s4.code.len() as int, v),
        (
            place(
                code,
                if b {
                    on_true
                } else {
                    on_false
                },
            ),
            v5,
        ),
    );
    let last = k.code.len() as int;
    assert(end.code[last] == (StmtModel::Label { label: on_false }));
    assert(code[last] == end.code[last]);
    if b {
        let here = s5.code.len() as int;
        assert(t.code[here] == (StmtModel::Label { label: on_true }));
        assert(code[here] == t.code[here]);
        lemma_from_label(m, code, from, on_true, v5, here);
        assert(s6.emit(StmtModel::Jump { target: test }).code == k.code);
        let u = lemma_block_runs(
            cx,
            m,
            code,
            st,
            w,
            t,
            v5,
            x.stmts@,
            Some(test),
            Some(on_false),
            test,
            end,
            fuel,
        );
        let d = do_stmts(sc, c, x.stmts@, fuel)->Some_0;
        match d.flow {
            Flow::Next(_) => lemma_while_runs(
                cx,
                m,
                code,
                st,
                w,
                x,
                u,
                on_continue,
                on_break,
                (fuel - 1) as nat,
            ),
            Flow::Continue => lemma_while_runs(
                cx,
                m,
                code,
                st,
                w,
                x,
                u,
                on_continue,
                on_break,
                (fuel - 1) as nat,
            ),
            Flow::Break => {
                lemma_from_label(m, code, from, on_false, u, last);
                lemma_same_scope(m, cx, st, w, end, u);
                u
            },
            Flow::Return(_) => u,
        }
    } else {
        lemma_from_label(m, code, from, on_false, v5, last);
        lemma_same_scope(m, cx, st, w, end, v5);
        v5
    }
}

/// Whatever a statement means, running its code does: the memory is the same
/// behind it, and control goes where the statement says, with the value that
/// it returns.
pub proof fn lemma_stmt_runs(
    cx: Context,
    m: Meaning,
    code: Seq<StmtModel>,
    st: State,
    w: Machine,
    s: CodeBlockStmt,
    on_continue: Option<LabelModel>,
    on_break: Option<LabelModel>,
    fuel: nat,
) -> (v: Machine)
    requires
        locals_below(st),
        labels_once(code),
        stmt_code(cx, st, s, on_continue, on_break).1 is Ok,
        begins(code, stmt_code(cx, st, s, on_continue, on_break).0.code),
        do_stmt(scope(m, cx, st, w), w.cells, s, fuel) is Some,
    ensures
        finishes(
            cx,
            m,
            code,
            st,
            w,
            stmt_code(cx, st, s, on_continue, on_break).0,
            on_continue,
            on_break,
            do_stmt(scope(m, cx, st, w), w.cells, s, fuel)->Some_0,
            v,
        ),
    decreases fuel, s, 0nat,
{
    let end = stmt_code(cx, st, s, on_continue, on_break).0;
    match s.inner {
        CodeBlockStmtInner::VarDecl(d) => match d.inner {
            VarDeclStmtInner::Decl(d) => lemma_decl_runs(
                cx,
                m,
                code,
                st,
                w,
                *d,
                on_continue,
                on_break,
            ),
            VarDeclStmtInner::Def(d) => lemma_def_runs(
                cx,
                m,
                code,
                st,
                w,
                *d,
                on_continue,
                on_break,
            ),
        },
        CodeBlockStmtInner::Assignment(a) => {
            let v = lemma_assignment_runs(cx, m, code, st, w, *a);
            lemma_finished(cx, m, code, st, w, end, on_continue, on_break, v);
            v
        },
        CodeBlockStmtInner::Call(c) => {
            let v = lemma_call_runs(cx, m, code, st, w, *c);
            lemma_finished(cx, m, code, st, w, end, on_continue, on_break, v);
            v
        },
        CodeBlockStmtInner::If(i) => lemma_if_runs(
            cx,
            m,
            code,
            st,
            w,
            *i,
            on_continue,
            on_break,
            fuel,
        ),
        CodeBlockStmtInner::While(x) => {
            let test = LabelModel::BasicBlock(st.block);
            let at = st.code.len() as int;
            lemma_while_starts(cx, st, *x);
            assert(end.code[at] == (StmtModel::Jump { target: test }));
            assert(code[at] == end.code[at]);
            lemma_here(m, code, st, w);
            lemma_one_more(m, code, (at, w), (at, w));
            lemma_while_runs(cx, m, code, st, w, *x, w, on_continue, on_break, fuel)
        },
        CodeBlockStmtInner::Return(r) => lemma_return_runs(
            cx,
            m,
            code,
            st,
            w,
            *r,
            on_continue,
            on_break,
        ),
        CodeBlockStmtInner::Null(_) => {
            lemma_here(m, code, st, w);
            lemma_finished(cx, m, code, st, w, end, on_continue, on_break, w);
            w
        },
        _ => {
            let at = st.code.len() as int;
            assert(code[at] == end.code[at]);
            lemma_here(m, code, st, w);
            lemma_one_more(m, code, (at, w), (at, w));
            w
        },
    }
}

proof fn lemma_while_starts(cx: Context, st: State, x: WhileStmt)
    ensures
        while_code(cx, st, x).0.code.len() > st.code.len(),
        while_code(cx, st, x).0.code[st.code.len() as int] == (StmtModel::Jump {
            target: LabelModel::BasicBlock(st.block),
        }),
{
    let (s1, test) = st.label();
    let (s2, on_true) = s1.label();
    let (s3, on_false) = s2.label();
    let p = s3.emit(StmtModel::Jump { target: test });
    let s4 = p.emit(StmtModel::Label { label: test });
    let s5 = unit_branch_code(cx, s4, *x.bool_unit, on_true, on_false).0;
    lemma_unit_branch_grows(cx, s4, *x.bool_unit, on_true, on_false);
    let t = s5.emit(StmtModel::Label { label: on_true });
    lemma_stmts_grow(cx, t.enter(), x.stmts@, Some(test), Some(on_false));
    let at = st.code.len() as int;
    assert(p.code[at] == (StmtModel::Jump { target: test }));
    assert(s4.code[at] == p.code[at]);
    assert(s5.code[at] == s4.code[at]);
    assert(t.enter().code[at] == s5.code[at]);
}

/// Whatever statements mean, running their code does.
pub proof fn lemma_stmts_run(
    cx: Context,
    m: Meaning,
    code: Seq<StmtModel>,
    st: State,
    w: Machine,
    stmts: Seq<CodeBlockStmt>,
    on_continue: Option<LabelModel>,
    on_break: Option<LabelModel>,
    fuel: nat,
) -> (v: Machine)
    requires
        locals_below(st),
        labels_once(code),
        stmts_code(cx, st, stmts, on_continue, on_break).1 is Ok,
        begins(code, stmts_code(cx, st, stmts, on_continue, on_break).0.code),
        do_stmts(scope(m, cx, st, w), w.cells, stmts, fuel) is Some,
    ensures
        finishes(
            cx,
            m,
            code,
            st,
            w,
            stmts_code(cx, st, stmts, on_continue, on_break).0,
            on_continue,
            on_break,
            do_stmts(scope(m, cx, st, w), w.cells, stmts, fuel)->Some_0,
            v,
        ),
    decreases fuel, stmts, 0nat,
{
    let sc = scope(m, cx, st, w);
    if stmts.len() == 0 {
        lemma_here(m, code, st, w);
        lemma_finished(cx, m, code, st, w, st, on_continue, on_break, w);
        w
    } else {
        let front = stmts.drop_last();
        let s1 = stmts_code(cx, st, front, on_continue, on_break).0;
        let end = stmts_code(cx, st, stmts, on_continue, on_break).0;
        lemma_stmt_grows(cx, s1, stmts.last(), on_continue, on_break);
        lemma_begins(code, s1, end);
        lemma_stmts_open(cx, st, front, on_continue, on_break);
        let v1 = lemma_stmts_run(cx, m, code, st, w, front, on_continue, on_break, fuel);
        let d1 = do_stmts(sc, w.cells, front, fuel)->Some_0;
        match d1.flow {
            Flow::Next(names) => {
                assert(scope(m, cx, s1, v1) == sc.over(names));
                let v2 = lemma_stmt_runs(
                    cx,
                    m,
                    code,
                    s1,
                    v1,
                    stmts.last(),
                    on_continue,
                    on_break,
                    fuel,
                );
                let d = do_stmts(sc, w.cells, stmts, fuel)->Some_0;
                if d.flow is Next {
                    lemma_goes_on(
                        m,
                        code,
                        (st.code.len() as int, w),
                        (s1.code.len() as int, v1),
                        (end.code.len() as int, v2),
                    );
                } else {
                    lemma_leaves(
                        cx,
                        m,
                        code,
                        st,
                        w,
                        s1,
                        v1,
                        end,
                        end,
                        on_continue,
                        on_break,
                        d,
                        v2,
                    );
                }
                v2
            },
            _ => v1,
        }
    }
}

/// The parameters stand for new places that hold the arguments.
pub open spec fn bound(
    sc: Scope,
    cells: Map<int, int>,
    params: Seq<(Seq<char>, DtypeModel)>,
    args: Seq<int>,
) -> (Map<Seq<char>, Val>, Map<int, int>)
    decreases params.len(),
{
    if params.len() == 0 {
        (sc.names, cells)
    } else {
        let (names, c) = bound(sc, cells, params.drop_last(), args);
        let (name, ty) = params.last();
        let (at, d) = new_place(sc, c, ty);
        (names.insert(name, at), d.insert(at.num, args[params.len() - 1]))
    }
}

/// The entry of a function stores the arguments, which it finds under every
/// second number.
proof fn lemma_params_run(
    cx: Context,
    m: Meaning,
    code: Seq<StmtModel>,
    st: State,
    w: Machine,
    params: Seq<(Seq<char>, DtypeModel)>,
    args: Seq<int>,
) -> (v: Machine)
    requires
        locals_below(st),
        params_code(st, params).1 is Ok,
        begins(code, params_code(st, params).0.code),
        params.len() <= args.len(),
        forall|i: int|
            0 <= i < args.len() ==> w.locals[(st.vreg + 2 * i) as nat] == #[trigger] args[i],
    ensures
        ({
            let s = params_code(st, params).0;
            let (names, cells) = bound(scope(m, cx, st, w), w.cells, params, args);
            &&& reaches(m, code, (st.code.len() as int, w), (s.code.len() as int, v))
            &&& scope(m, cx, s, v).names == names
            &&& v.cells == cells
            &&& locals_below(s)
            &&& s.vreg == st.vreg + 2 * params.len()
            &&& forall|k: nat| k >= s.vreg ==> #[trigger] v.locals[k] == w.locals[k]
        }),
    decreases params.len(),
{
    if params.len() == 0 {
        lemma_here(m, code, st, w);
        w
    } else {
        let front = params.drop_last();
        let s1 = params_code(st, front).0;
        let (name, d) = params.last();
        let (s2, arg) = s1.fresh(d);
        let s3 = State { arguments: s2.arguments.push(local_of(arg)), ..s2 };
        let (s4, slot) = s3.slot(d);
        let store = StmtModel::Store { src: arg, ptr: slot };
        let s5 = s4.emit(store);
        let end = params_code(st, params).0;
        assert(end.code == s5.code);
        assert(s4.leads_to(s5));
        lemma_begins(code, s4, s5);
        assert(s1.leads_to(s4));
        lemma_begins(code, s1, s4);
        let v1 = lemma_params_run(cx, m, code, st, w, front, args);
        lemma_here(m, code, s3, v1);
        let v4 = lemma_slot(cx, m, code, s3, v1, s3, v1, d);
        let (t, dst) = s3.fresh(d.pointer());
        assert(v4.value(m, arg) == v1.locals[s1.vreg]);
        assert(v1.locals[s1.vreg] == w.locals[s1.vreg]);
        let i = params.len() - 1;
        assert(w.locals[(st.vreg + 2 * i) as nat] == args[i]);
        lemma_emits(m, code, s3, v1, s4, v4, store);
        let v5 = v4.after(m, store);
        lemma_goes_on(
            m,
            code,
            (st.code.len() as int, w),
            (s1.code.len() as int, v1),
            (s5.code.len() as int, v5),
        );
        lemma_same_scope(m, cx, s1, v1, s5, v5);
        assert(scope(m, cx, end, v5).names =~= scope(m, cx, s1, v1).names.insert(
            name,
            seen(m, v5, slot),
        ));
        let sc = scope(m, cx, st, w);
        assert(new_place(sc, v1.cells, d) == new_place(scope(m, cx, s3, v1), v1.cells, d));
        v5
    }
}

/// What a function gives back, and the memory behind it; nothing where it
/// needs more than `fuel` rounds of loops.
pub open spec fn do_function(
    sc: Scope,
    cells: Map<int, int>,
    f: FnDef,
    args: Seq<int>,
    fuel: nat,
) -> Option<(Option<int>, Map<int, int>)> {
    let ty = sc.cx.functions[f.fn_decl.identifier@];
    let (names, c) = bound(sc, cells, ty.arguments, args);
    match do_stmts(sc.over(names), c, f.stmts@, fuel) {
        Some(d) => match d.flow {
            Flow::Return(x) => Some((x, d.cells)),
            _ => Some(
                (
                    if ty.return_dtype is I32 {
                        Some(0)
                    } else {
                        None
                    },
                    d.cells,
                ),
            ),
        },
        None => None,
    }
}

/// Where control comes to the end of a statement, its code does not end with a
/// return.
proof fn lemma_stmt_open_end(
    sc: Scope,
    cells: Map<int, int>,
    cx: Context,
    st: State,
    s: CodeBlockStmt,
    on_continue: Option<LabelModel>,
    on_break: Option<LabelModel>,
    fuel: nat,
)
    requires
        stmt_code(cx, st, s, on_continue, on_break).1 is Ok,
        do_stmt(sc, cells, s, fuel) matches Some(d) && d.flow is Next,
    ensures
        ({
            let end = stmt_code(cx, st, s, on_continue, on_break).0;
            end.code == st.code || end.code.len() > 0 && !(end.code.last() is Return)
        }),
{
    match s.inner {
        CodeBlockStmtInner::VarDecl(v) => match v.inner {
            VarDeclStmtInner::Decl(d) => {},
            VarDeclStmtInner::Def(d) => match d.inner {
                VarDefInner::Scalar(x) => {},
                VarDefInner::Array(a) => {
                    let elem = local_base(
                        cx,
                        d.identifier@,
                        explicit_type(d.type_specifier),
                        d.inner is Scalar,
                    );
                    let (s1, slot) = st.slot(defined(elem, d.inner));
                    let s2 = init_code(cx, s1, slot, a.initializer).0;
                    lemma_init_keeps(cx, s1, slot, a.initializer);
                    let k = s2.code.len() - 1;
                    if k == s1.code.len() - 1 {
                        assert(s2.code[k] == s1.code[k]);
                    }
                    assert(!(s2.code[k] is Return));
                },
            },
        },
        _ => {},
    }
}

/// Where control comes to the end of statements, their code does not end with
/// a return.
proof fn lemma_open_end(
    sc: Scope,
    cells: Map<int, int>,
    cx: Context,
    st: State,
    stmts: Seq<CodeBlockStmt>,
    on_continue: Option<LabelModel>,
    on_break: Option<LabelModel>,
    fuel: nat,
)
    requires
        stmts_code(cx, st, stmts, on_continue, on_break).1 is Ok,
        do_stmts(sc, cells, stmts, fuel) matches Some(d) && d.flow is Next,
    ensures
        ({
            let end = stmts_code(cx, st, stmts, on_continue, on_break).0;
            end.code == st.code || end.code.len() > 0 && !(end.code.last() is Return)
        }),
    decreases stmts.len(),
{
    if stmts.len() > 0 {
        let front = stmts.drop_last();
        let d = do_stmts(sc, cells, front, fuel)->Some_0;
        lemma_open_end(sc, cells, cx, st, front, on_continue, on_break, fuel);
        let s1 = stmts_code(cx, st, front, on_continue, on_break).0;
        lemma_stmt_open_end(
            sc.over(d.flow->Next_0),
            d.cells,
            cx,
            s1,
            stmts.last(),
            on_continue,
            on_break,
            fuel,
        );
    }
}

/// A translated function gives back what the function means: running its code
/// from the start, with the arguments under their numbers, comes to a return of
/// that value, with that memory.
pub proof fn lemma_function_runs(
    cx: Context,
    m: Meaning,
    st: State,
    w: Machine,
    f: FnDef,
    args: Seq<int>,
    fuel: nat,
) -> (v: Machine)
    requires
        st.code.len() == 0,
        st.locals == Map::<Seq<char>, crate::ir::value::LocalModel>::empty(),
        function_code(cx, st, f).1 is Ok,
        args.len() == cx.functions[f.fn_decl.identifier@].arguments.len(),
        forall|i: int|
            0 <= i < args.len() ==> w.locals[(st.vreg + 2 * i) as nat] == #[trigger] args[i],
        do_function(scope(m, cx, st, w), w.cells, f, args, fuel) is Some,
    ensures
        ({
            let code = function_code(cx, st, f).0.code;
            let (x, cells) = do_function(scope(m, cx, st, w), w.cells, f, args, fuel)->Some_0;
            &&& v.cells == cells
            &&& exists|pc: int| #[trigger]
                reaches(m, code, (0, w), (pc, v)) && gives_back(m, code, pc, v, x)
        }),
{
    let name = f.fn_decl.identifier@;
    let ty = cx.functions[name];
    let s1 = st.emit(StmtModel::Label { label: LabelModel::Function(name) });
    let s2 = params_code(s1, ty.arguments).0;
    let s3 = stmts_code(cx, s2, f.stmts@, None, None).0;
    let end = function_code(cx, st, f).0;
    let code = end.code;
    lemma_function_labels(cx, st, f);
    lemma_params_grow(s1, ty.arguments);
    lemma_stmts_grow(cx, s2, f.stmts@, None, None);
    assert(s3.leads_to(end));
    assert(begins(code, code));
    lemma_begins(code, s3, end);
    lemma_begins(code, s2, s3);
    lemma_begins(code, s1, s2);
    let from = (0int, w);
    lemma_here(m, code, st, w);
    assert(s1.code[0] is Label);
    assert(code[0] == s1.code[0]);
    lemma_one_more(m, code, from, (0, w));
    lemma_same_scope(m, cx, st, w, s1, w);
    let v2 = lemma_params_run(cx, m, code, s1, w, ty.arguments, args);
    lemma_goes_on(m, code, from, (1, w), (s2.code.len() as int, v2));
    let sc = scope(m, cx, st, w);
    assert(scope(m, cx, s2, v2) == sc.over(bound(sc, w.cells, ty.arguments, args).0));
    let v3 = lemma_stmts_run(cx, m, code, s2, v2, f.stmts@, None, None, fuel);
    let d = do_stmts(scope(m, cx, s2, v2), v2.cells, f.stmts@, fuel)->Some_0;
    match d.flow {
        Flow::Return(x) => {
            let pc = choose|pc: int| #[trigger]
                reaches(m, code, (s2.code.len() as int, v2), (pc, v3)) && gives_back(
                    m,
                    code,
                    pc,
                    v3,
                    x,
                );
            lemma_goes_on(m, code, from, (s2.code.len() as int, v2), (pc, v3));
        },
        Flow::Next(_) => {
            let pc = s3.code.len() as int;
            lemma_goes_on(m, code, from, (s2.code.len() as int, v2), (pc, v3));
            lemma_open_end(scope(m, cx, s2, v2), v2.cells, cx, s2, f.stmts@, None, None, fuel);
            assert(!(s2.code.last() is Return)) by {
                if ty.arguments.len() == 0 {
                    assert(s2.code.last() == s1.code[0]);
                }
            }
            assert(code[pc] is Return);
            assert(reaches(m, code, from, (pc, v3)));
        },
        _ => {},
    }
    v3
}

} // verus!
