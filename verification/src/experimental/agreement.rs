//! What inference promises: a function without a return type gets the type
//! of all its returns, or the program is rejected.

use super::return_infer::{
    after_assignment, after_decl, after_def, after_else, after_if, after_return, after_stmt,
    after_stmts, after_while, all_within, arith_ty, array_ty, branch_ty, call_ty, collected,
    collected_fn, constrained, filled_in, found_type, inferred, lemma_seeded, merged_progress,
    merged_tys, parameter_tys, pending_within, place_ty, right_ty, seeded, site_of, unit_ty,
    Progress, Seeds, Site, TyEnv,
};
use super::union_find::{
    lemma_bind_consistent, lemma_union_consistent, unified, Store, TyModel,
};
use crate::ast::decl::{FnDef, VarDecl, VarDeclStmtInner, VarDef, VarDefInner};
use crate::ast::expr::{
    ArithExpr, ArithExprInner, ArrayExpr, ExprUnit, ExprUnitInner, FnCall, LeftVal, LeftValInner,
    RightVal, RightValInner,
};
use crate::ast::program::{ProgramElement, ProgramElementInner};
use crate::ast::stmt::{
    AssignmentStmt, CodeBlockStmt, CodeBlockStmtInner, IfStmt, ReturnStmt, WhileStmt,
};
use crate::ir::gen::conversions::{signature_decls, specified};
use crate::ir::gen::type_infer::{declared_state, Known};
use crate::ir::types::{DtypeModel, FunctionTypeModel};
use vstd::prelude::*;

verus! {

/// `t` knows all that `s` knows.
pub open spec fn later(s: Store, t: Store) -> bool {
    &&& t.consistent()
    &&& t.labels.len() == s.labels.len()
    &&& forall|x: int, y: int|
        0 <= x < s.labels.len() && 0 <= y < s.labels.len() && #[trigger] s.same(x, y) ==> t.same(
            x,
            y,
        )
    &&& forall|x: int|
        #![trigger s.bound[x]]
        #![trigger t.bound[x]]
        0 <= x < s.labels.len() && s.bound[x] is Some ==> t.bound[x] == s.bound[x]
}

/// The store knows that two types are equal.
pub open spec fn equal_in(s: Store, a: TyModel, b: TyModel) -> bool {
    match (a, b) {
        (TyModel::Concrete(x), TyModel::Concrete(y)) => x == y,
        (TyModel::Var(v), TyModel::Concrete(c)) => s.bound[v as int] == Some(c),
        (TyModel::Concrete(c), TyModel::Var(v)) => s.bound[v as int] == Some(c),
        (TyModel::Var(x), TyModel::Var(y)) => s.same(x as int, y as int),
    }
}

/// What is known to be equal stays equal.
proof fn lemma_equal_stays(s: Store, t: Store, a: TyModel, b: TyModel)
    requires
        later(s, t),
        a.within(s),
        b.within(s),
        equal_in(s, a, b),
    ensures
        equal_in(t, a, b),
{
}

proof fn lemma_later_trans(s: Store, t: Store, u: Store)
    requires
        later(s, t),
        later(t, u),
    ensures
        later(s, u),
{
    assert forall|x: int, y: int|
        0 <= x < s.labels.len() && 0 <= y < s.labels.len() && #[trigger] s.same(
            x,
            y,
        ) implies u.same(x, y) by {
        assert(t.same(x, y));
    }
    assert forall|x: int|
        #![trigger s.bound[x]]
        0 <= x < s.labels.len() && s.bound[x] is Some implies u.bound[x] == s.bound[x] by {
        assert(t.bound[x] == s.bound[x]);
    }
}

/// Making two types equal keeps what is known, and they are equal afterwards.
pub proof fn lemma_unified_later(s: Store, a: TyModel, b: TyModel, symbol: Seq<char>)
    requires
        s.consistent(),
        a.within(s),
        b.within(s),
    ensures
        unified(s, a, b, symbol) matches Ok(t) ==> later(s, t) && equal_in(t, a, b),
{
    if let Ok(t) = unified(s, a, b, symbol) {
        match (a, b) {
            (TyModel::Concrete(_), TyModel::Concrete(_)) => {},
            (TyModel::Var(v), TyModel::Concrete(c)) => lemma_bind_later(s, v as int, c, symbol),
            (TyModel::Concrete(c), TyModel::Var(v)) => lemma_bind_later(s, v as int, c, symbol),
            (TyModel::Var(x), TyModel::Var(y)) => {
                lemma_union_consistent(s, x as int, y as int, symbol);
                let (x, y) = (x as int, y as int);
                if !s.same(x, y) {
                    assert forall|u: int, w: int|
                        0 <= u < s.labels.len() && 0 <= w < s.labels.len() && #[trigger] s.same(
                            u,
                            w,
                        ) implies t.same(u, w) by {
                        assert(s.same(u, y) == s.same(w, y));
                    }
                    assert forall|u: int|
                        #![trigger s.bound[u]]
                        #![trigger t.bound[u]]
                        0 <= u < s.labels.len() && s.bound[u] is Some implies t.bound[u]
                        == s.bound[u] by {
                        if s.same(u, x) {
                            assert(s.bound[u] == s.bound[x]);
                        } else if s.same(u, y) {
                            assert(s.bound[u] == s.bound[y]);
                        }
                    }
                }
            },
        }
    }
}

proof fn lemma_bind_later(s: Store, v: int, d: DtypeModel, symbol: Seq<char>)
    requires
        s.consistent(),
        0 <= v < s.labels.len(),
    ensures
        s.bind(v, d, symbol) matches Ok(t) ==> later(s, t) && t.bound[v] == Some(d),
{
    lemma_bind_consistent(s, v, d, symbol);
    if let Ok(t) = s.bind(v, d, symbol) {
        assert forall|u: int|
            #![trigger s.bound[u]]
            #![trigger t.bound[u]]
            0 <= u < s.labels.len() && s.bound[u] is Some implies t.bound[u] == s.bound[u] by {
            if s.bound[v] is None && s.same(u, v) {
                assert(s.bound[u] == s.bound[v]);
            }
        }
        assert forall|u: int, w: int|
            0 <= u < s.labels.len() && 0 <= w < s.labels.len() && #[trigger] s.same(
                u,
                w,
            ) implies t.same(u, w) by {}
    }
}

/// The constraints are consistent, and all variables that occur are theirs.
spec fn sound(k: Site, p: Progress) -> bool {
    &&& p.store.consistent()
    &&& all_within(p.env.tys, p.store)
    &&& forall|i: int| 0 <= i < p.env.names.len() ==> p.env.tys.contains_key(
        #[trigger] p.env.names[i],
    )
    &&& pending_within(k.pending, p.store)
    &&& k.result matches Some(v) ==> v < p.store.labels.len()
}

/// The types of a sound state are types of its store.
proof fn lemma_place_within(k: Site, p: Progress, e: LeftVal)
    requires
        sound(k, p),
    ensures
        place_ty(k, p.env, e) matches Ok(t) ==> t.within(p.store),
    decreases e,
{
    match e.inner {
        LeftValInner::Id(_) => {},
        LeftValInner::ArrayExpr(a) => lemma_array_within(k, p, *a),
        LeftValInner::MemberExpr(_) => {},
    }
}

proof fn lemma_array_within(k: Site, p: Progress, e: ArrayExpr)
    requires
        sound(k, p),
    ensures
        array_ty(k, p.env, e) matches Ok(t) ==> t.within(p.store),
    decreases e,
{
    lemma_place_within(k, p, *e.arr);
}

proof fn lemma_unit_within(k: Site, p: Progress, u: ExprUnit)
    requires
        sound(k, p),
    ensures
        unit_ty(k, p.env, u) matches Ok(t) ==> t.within(p.store),
    decreases u,
{
    match u.inner {
        ExprUnitInner::ArithExpr(e) => lemma_arith_within(k, p, *e),
        ExprUnitInner::FnCall(c) => {
            assert(call_ty(k, p.env, *c) matches Ok(t) ==> t.within(p.store));
        },
        ExprUnitInner::ArrayExpr(e) => lemma_array_within(k, p, *e),
        _ => {},
    }
}

proof fn lemma_arith_within(k: Site, p: Progress, e: ArithExpr)
    requires
        sound(k, p),
    ensures
        arith_ty(k, p.env, e) matches Ok(t) ==> t.within(p.store),
    decreases e,
{
    if let ArithExprInner::ExprUnit(u) = e.inner {
        lemma_unit_within(k, p, *u);
    }
}

proof fn lemma_right_within(k: Site, p: Progress, v: RightVal)
    requires
        sound(k, p),
    ensures
        right_ty(k, p.env, v) matches Ok(t) ==> t.within(p.store),
{
    if let RightValInner::ArithExpr(e) = v.inner {
        lemma_arith_within(k, p, *e);
    }
}

/// A variable that gets a type of the store leaves the state sound.
proof fn lemma_with(k: Site, p: Progress, name: Seq<char>, t: TyModel)
    requires
        sound(k, p),
        t.within(p.store),
    ensures
        sound(k, (Progress { store: p.store, env: p.env.with(name, t) })),
{
    let env = p.env.with(name, t);
    assert forall|i: int| 0 <= i < env.names.len() implies env.tys.contains_key(
        #[trigger] env.names[i],
    ) by {
        if i < p.env.names.len() {
            assert(env.names[i] == p.env.names[i]);
        }
    }
}

/// A later store leaves the state sound.
proof fn lemma_sound_later(k: Site, p: Progress, store: Store)
    requires
        sound(k, p),
        later(p.store, store),
    ensures
        sound(k, (Progress { store, env: p.env })),
{
    assert forall|x: Seq<char>| #[trigger] p.env.tys.contains_key(x) implies p.env.tys[x].within(
        store,
    ) by {
        assert(p.env.tys[x].within(p.store));
    }
}

proof fn lemma_merged(
    store: Store,
    env: TyEnv,
    a: Map<Seq<char>, TyModel>,
    b: Map<Seq<char>, TyModel>,
    n: nat,
)
    requires
        store.consistent(),
        n <= env.names.len(),
        all_within(env.tys, store),
        all_within(a, store),
        all_within(b, store),
        forall|i: int| 0 <= i < env.names.len() ==> env.tys.contains_key(#[trigger] env.names[i]),
    ensures
        merged_tys(store, env, a, b, n) matches Ok((s, tys)) ==> {
            &&& later(store, s)
            &&& all_within(tys, s)
            &&& forall|i: int| 0 <= i < env.names.len() ==> tys.contains_key(
                #[trigger] env.names[i],
            )
        },
    decreases n,
{
    if n > 0 {
        lemma_merged(store, env, a, b, (n - 1) as nat);
        let name = env.names[n - 1];
        if let Ok((s, tys)) = merged_tys(store, env, a, b, (n - 1) as nat) {
            let x = branch_ty(env, a, name);
            let y = branch_ty(env, b, name);
            assert(x.within(store) && y.within(store));
            lemma_unified_later(s, x, y, name);
            if let Ok(t) = unified(s, x, y, name) {
                lemma_later_trans(store, s, t);
                assert(all_within(tys.insert(name, x), t)) by {
                    assert forall|z: Seq<char>| #[trigger] tys.insert(name, x).contains_key(
                        z,
                    ) implies tys.insert(name, x)[z].within(t) by {
                        if z != name {
                            assert(tys.contains_key(z));
                            assert(tys[z].within(s));
                        }
                    }
                }
            }
        }
    }
}

/// The return occurs in the statements, at any depth.
pub open spec fn returns_in(stmts: Seq<CodeBlockStmt>, r: ReturnStmt) -> bool
    decreases stmts,
{
    if stmts.len() == 0 {
        false
    } else {
        returns_in(stmts.drop_last(), r) || returns_by(stmts.last(), r)
    }
}

/// The return is the statement or occurs in it.
pub open spec fn returns_by(s: CodeBlockStmt, r: ReturnStmt) -> bool
    decreases s,
{
    match s.inner {
        CodeBlockStmtInner::Return(x) => *x == r,
        CodeBlockStmtInner::If(i) => returns_in(i.if_stmts@, r) || (match i.else_stmts {
            Some(list) => returns_in(list@, r),
            None => false,
        }),
        CodeBlockStmtInner::While(w) => returns_in(w.stmts@, r),
        _ => false,
    }
}

/// The type of a return, with the given local variables.
pub open spec fn return_ty(k: Site, env: TyEnv, r: ReturnStmt) -> Option<TyModel> {
    match r.val {
        None => Some(TyModel::Concrete(DtypeModel::Void)),
        Some(v) => match right_ty(k, env, *v) {
            Ok(t) => Some(t),
            Err(_) => None,
        },
    }
}

/// The store knows that the type of the return is that of the function.
pub open spec fn settled(k: Site, store: Store, r: ReturnStmt) -> bool {
    exists|env: TyEnv|
        (#[trigger] return_ty(k, env, r)) matches Some(t) && t.within(store) && (k.result matches Some(v)
            ==> equal_in(store, TyModel::Var(v as nat), t))
}

proof fn lemma_settled_stays(k: Site, s: Store, t: Store, r: ReturnStmt)
    requires
        later(s, t),
        settled(k, s, r),
        k.result matches Some(v) ==> v < s.labels.len(),
    ensures
        settled(k, t, r),
{
    let env = choose|env: TyEnv|
        (#[trigger] return_ty(k, env, r)) matches Some(ty) && ty.within(s) && (k.result matches Some(v)
            ==> equal_in(s, TyModel::Var(v as nat), ty));
    let ty = return_ty(k, env, r)->0;
    if let Some(v) = k.result {
        lemma_equal_stays(s, t, TyModel::Var(v as nat), ty);
    }
    assert(return_ty(k, env, r) == Some(ty));
}

/// What a step leaves: a sound state that knows all that was known, and in
/// which the given return is settled if the step went through it.
spec fn step_ok(k: Site, p: Progress, q: Progress, r: ReturnStmt, through: bool) -> bool {
    &&& sound(k, q)
    &&& later(p.store, q.store)
    &&& through ==> settled(k, q.store, r)
}

proof fn lemma_later_same(s: Store)
    requires
        s.consistent(),
    ensures
        later(s, s),
{
}

proof fn lemma_decl(k: Site, p: Progress, d: VarDecl, r: ReturnStmt)
    requires
        sound(k, p),
    ensures
        step_ok(k, p, after_decl(p, d), r, false),
{
    lemma_later_same(p.store);
    if let Some(t) = declared_state(d) {
        lemma_with(k, p, d.identifier@, TyModel::Concrete(t));
    }
}

proof fn lemma_def(k: Site, p: Progress, d: VarDef, r: ReturnStmt)
    requires
        sound(k, p),
    ensures
        after_def(k, p, d) matches Ok(q) ==> step_ok(k, p, q, r, false),
{
    lemma_later_same(p.store);
    match d.inner {
        VarDefInner::Scalar(s) => {
            lemma_right_within(k, p, *s.val);
            if let Ok(t) = right_ty(k, p.env, *s.val) {
                match d.type_specifier {
                    Some(ts) => {
                        let lhs = TyModel::Concrete(specified(ts));
                        lemma_unified_later(p.store, lhs, t, d.identifier@);
                        if let Ok(store) = unified(p.store, lhs, t, d.identifier@) {
                            lemma_sound_later(k, p, store);
                            lemma_with(k, Progress { store, env: p.env }, d.identifier@, lhs);
                        }
                    },
                    None => lemma_with(k, p, d.identifier@, t),
                }
            }
        },
        VarDefInner::Array(a) => {
            let element = match d.type_specifier {
                Some(ts) => specified(ts),
                None => DtypeModel::I32,
            };
            lemma_with(
                k,
                p,
                d.identifier@,
                TyModel::Concrete(element.array(Some(a.len as nat))),
            );
        },
    }
}

proof fn lemma_constrained(
    k: Site,
    p: Progress,
    a: TyModel,
    b: TyModel,
    symbol: Seq<char>,
    r: ReturnStmt,
)
    requires
        sound(k, p),
        a.within(p.store),
        b.within(p.store),
    ensures
        constrained(p, a, b, symbol) matches Ok(q) ==> step_ok(k, p, q, r, false) && equal_in(
            q.store,
            a,
            b,
        ),
{
    lemma_unified_later(p.store, a, b, symbol);
    if let Ok(store) = unified(p.store, a, b, symbol) {
        lemma_sound_later(k, p, store);
    }
}

proof fn lemma_assignment(k: Site, p: Progress, a: AssignmentStmt, r: ReturnStmt)
    requires
        sound(k, p),
    ensures
        after_assignment(k, p, a) matches Ok(q) ==> step_ok(k, p, q, r, false),
{
    lemma_later_same(p.store);
    lemma_right_within(k, p, *a.right_val);
    if let Ok(t) = right_ty(k, p.env, *a.right_val) {
        if let LeftValInner::Id(id) = a.left_val.inner {
            if p.env.tys.contains_key(id@) {
                lemma_constrained(k, p, p.env.tys[id@], t, id@, r);
            } else {
                lemma_with(k, p, id@, t);
            }
        }
    }
}

proof fn lemma_return(k: Site, p: Progress, x: ReturnStmt, r: ReturnStmt)
    requires
        sound(k, p),
    ensures
        after_return(k, p, x) matches Ok(q) ==> step_ok(k, p, q, r, x == r),
{
    lemma_later_same(p.store);
    if let Some(v) = x.val {
        lemma_right_within(k, p, *v);
    }
    if let Ok(q) = after_return(k, p, x) {
        let t = return_ty(k, p.env, x)->0;
        assert(return_ty(k, p.env, x) == Some(t));
        if let Some(v) = k.result {
            lemma_constrained(k, p, TyModel::Var(v as nat), t, k.name, r);
        }
        if x == r {
            assert(return_ty(k, p.env, r) == Some(t));
            assert(settled(k, q.store, r));
        }
    }
}

proof fn lemma_stmt(k: Site, p: Progress, s: CodeBlockStmt, r: ReturnStmt)
    requires
        sound(k, p),
    ensures
        after_stmt(k, p, s) matches Ok(q) ==> step_ok(k, p, q, r, returns_by(s, r)),
    decreases s,
{
    lemma_later_same(p.store);
    match s.inner {
        CodeBlockStmtInner::VarDecl(v) => match v.inner {
            VarDeclStmtInner::Decl(d) => lemma_decl(k, p, *d, r),
            VarDeclStmtInner::Def(d) => lemma_def(k, p, *d, r),
        },
        CodeBlockStmtInner::Assignment(a) => lemma_assignment(k, p, *a, r),
        CodeBlockStmtInner::If(i) => lemma_if(k, p, *i, r),
        CodeBlockStmtInner::While(w) => lemma_while(k, p, *w, r),
        CodeBlockStmtInner::Return(x) => lemma_return(k, p, *x, r),
        _ => {},
    }
}

proof fn lemma_stmts(k: Site, p: Progress, stmts: Seq<CodeBlockStmt>, r: ReturnStmt)
    requires
        sound(k, p),
    ensures
        after_stmts(k, p, stmts) matches Ok(q) ==> step_ok(k, p, q, r, returns_in(stmts, r)),
    decreases stmts,
{
    lemma_later_same(p.store);
    if stmts.len() > 0 {
        lemma_stmts(k, p, stmts.drop_last(), r);
        if let Ok(m) = after_stmts(k, p, stmts.drop_last()) {
            lemma_stmt(k, m, stmts.last(), r);
            if let Ok(q) = after_stmt(k, m, stmts.last()) {
                lemma_later_trans(p.store, m.store, q.store);
                if returns_in(stmts.drop_last(), r) {
                    lemma_settled_stays(k, m.store, q.store, r);
                }
            }
        }
    }
}

proof fn lemma_else(k: Site, p: Progress, branch: Option<Vec<CodeBlockStmt>>, r: ReturnStmt)
    requires
        sound(k, p),
    ensures
        after_else(k, p, branch) matches Ok(q) ==> step_ok(
            k,
            p,
            q,
            r,
            branch matches Some(list) && returns_in(list@, r),
        ),
    decreases branch,
{
    lemma_later_same(p.store);
    if let Some(list) = branch {
        lemma_stmts(k, p, list@, r);
    }
}

/// Merging two branches keeps what is known.
proof fn lemma_merge(
    k: Site,
    p: Progress,
    a: Progress,
    b: Progress,
    r: ReturnStmt,
)
    requires
        sound(k, p),
        sound(k, a),
        sound(k, b),
        later(p.store, a.store),
        later(a.store, b.store),
    ensures
        merged_progress(b.store, p.env, a.env.tys, b.env.tys) matches Ok(q) ==> sound(k, q) && later(
            b.store,
            q.store,
        ),
{
    assert forall|x: Seq<char>| #[trigger] p.env.tys.contains_key(x) implies p.env.tys[x].within(
        b.store,
    ) by {
        assert(p.env.tys[x].within(p.store));
    }
    assert forall|x: Seq<char>| #[trigger] a.env.tys.contains_key(x) implies a.env.tys[x].within(
        b.store,
    ) by {
        assert(a.env.tys[x].within(a.store));
    }
    lemma_merged(b.store, p.env, a.env.tys, b.env.tys, p.env.names.len());
}

proof fn lemma_if(k: Site, p: Progress, i: IfStmt, r: ReturnStmt)
    requires
        sound(k, p),
    ensures
        after_if(k, p, i) matches Ok(q) ==> step_ok(
            k,
            p,
            q,
            r,
            returns_in(i.if_stmts@, r) || (i.else_stmts matches Some(list) && returns_in(list@, r)),
        ),
    decreases i,
{
    lemma_stmts(k, p, i.if_stmts@, r);
    if let Ok(q) = after_if(k, p, i) {
        let a = after_stmts(k, p, i.if_stmts@)->Ok_0;
        let mid = Progress { store: a.store, env: p.env };
        lemma_sound_later(k, p, a.store);
        lemma_else(k, mid, i.else_stmts, r);
        let b = after_else(k, mid, i.else_stmts)->Ok_0;
        lemma_merge(k, p, a, b, r);
        lemma_later_trans(p.store, a.store, b.store);
        lemma_later_trans(p.store, b.store, q.store);
        lemma_later_trans(a.store, b.store, q.store);
        if returns_in(i.if_stmts@, r) {
            lemma_settled_stays(k, a.store, q.store, r);
        } else if i.else_stmts matches Some(list) && returns_in(list@, r) {
            lemma_settled_stays(k, b.store, q.store, r);
        }
    }
}

proof fn lemma_while(k: Site, p: Progress, w: WhileStmt, r: ReturnStmt)
    requires
        sound(k, p),
    ensures
        after_while(k, p, w) matches Ok(q) ==> step_ok(k, p, q, r, returns_in(w.stmts@, r)),
    decreases w,
{
    lemma_stmts(k, p, w.stmts@, r);
    if let Ok(q) = after_while(k, p, w) {
        let b = after_stmts(k, p, w.stmts@)->Ok_0;
        lemma_later_same(p.store);
        lemma_merge(k, p, p, b, r);
        lemma_later_trans(p.store, b.store, q.store);
        if returns_in(w.stmts@, r) {
            lemma_settled_stays(k, b.store, q.store, r);
        }
    }
}

proof fn lemma_parameters(decls: Seq<VarDecl>)
    ensures
        forall|x: Seq<char>| #[trigger]
            parameter_tys(decls).tys.contains_key(x) ==> parameter_tys(decls).tys[x] is Concrete,
        forall|i: int|
            0 <= i < parameter_tys(decls).names.len() ==> parameter_tys(decls).tys.contains_key(
                #[trigger] parameter_tys(decls).names[i],
            ),
    decreases decls.len(),
{
    if decls.len() > 0 {
        lemma_parameters(decls.drop_last());
        let front = parameter_tys(decls.drop_last());
        let all = parameter_tys(decls);
        assert forall|i: int| 0 <= i < all.names.len() implies all.tys.contains_key(
            #[trigger] all.names[i],
        ) by {
            if i < front.names.len() {
                assert(all.names[i] == front.names[i]);
            }
        }
    }
}

/// One function: its returns are settled.
proof fn lemma_function(
    known: Known,
    pending: Map<Seq<char>, usize>,
    store: Store,
    f: FnDef,
    r: ReturnStmt,
)
    requires
        store.consistent(),
        pending_within(pending, store),
    ensures
        collected_fn(known, pending, store, f) matches Ok(t) ==> later(store, t) && (returns_in(
            f.stmts@,
            r,
        ) ==> settled(site_of(known, pending, f), t, r)),
{
    let k = site_of(known, pending, f);
    let p = Progress { store, env: parameter_tys(signature_decls(*f.fn_decl)) };
    lemma_parameters(signature_decls(*f.fn_decl));
    assert(all_within(p.env.tys, store)) by {
        assert forall|x: Seq<char>| #[trigger] p.env.tys.contains_key(
            x,
        ) implies p.env.tys[x].within(store) by {
            assert(p.env.tys[x] is Concrete);
        }
    }
    lemma_stmts(k, p, f.stmts@, r);
}

/// All functions: the returns of the one at position `i` are settled.
proof fn lemma_collected(
    known: Known,
    pending: Map<Seq<char>, usize>,
    store: Store,
    elements: Seq<ProgramElement>,
    i: int,
    r: ReturnStmt,
)
    requires
        store.consistent(),
        pending_within(pending, store),
    ensures
        collected(known, pending, store, elements) matches Ok(t) ==> {
            &&& later(store, t)
            &&& 0 <= i < elements.len() ==> (elements[i].inner matches ProgramElementInner::FnDef(f)
                ==> (returns_in(f.stmts@, r) ==> settled(site_of(known, pending, *f), t, r)))
        },
    decreases elements.len(),
{
    lemma_later_same(store);
    if elements.len() > 0 {
        let front = elements.drop_last();
        lemma_collected(known, pending, store, front, i, r);
        if let Ok(s) = collected(known, pending, store, front) {
            lemma_later_same(s);
            if let ProgramElementInner::FnDef(g) = elements.last().inner {
                lemma_function(known, pending, s, *g, r);
                if let Ok(t) = collected_fn(known, pending, s, *g) {
                    lemma_later_trans(store, s, t);
                    if 0 <= i < front.len() {
                        assert(elements[i] == front[i]);
                        if let ProgramElementInner::FnDef(f) = elements[i].inner {
                            if returns_in(f.stmts@, r) {
                                lemma_settled_stays(site_of(known, pending, *f), s, t, r);
                            }
                        }
                    }
                }
            }
        }
    }
}

/// A function whose variable was asked for has the type found for it.
proof fn lemma_filled(
    types: Map<Seq<char>, FunctionTypeModel>,
    seeds: Seeds,
    store: Store,
    n: nat,
    name: Seq<char>,
)
    requires
        n <= seeds.names.len(),
        seeds.names.take(n as int).contains(name),
    ensures
        filled_in(types, seeds, store, n) matches Ok(m) ==> m.contains_key(name)
            && m[name].return_dtype == found_type(store, seeds.vars[name]),
    decreases n,
{
    let first = seeds.names.take(n as int);
    let i = choose|i: int| 0 <= i < first.len() && first[i] == name;
    if i < n - 1 {
        let fewer = seeds.names.take(n - 1);
        assert(fewer[i] == name);
        assert(fewer.contains(name));
        lemma_filled(types, seeds, store, (n - 1) as nat, name);
    }
}

/// The functions without a return type are those that were given a variable.
proof fn lemma_seeded_names(elements: Seq<ProgramElement>, name: Seq<char>)
    ensures
        seeded(elements).vars.contains_key(name) == seeded(elements).names.contains(name),
    decreases elements.len(),
{
    if elements.len() > 0 {
        lemma_seeded_names(elements.drop_last(), name);
        let front = seeded(elements.drop_last());
        let all = seeded(elements);
        if let ProgramElementInner::FnDef(f) = elements.last().inner {
            if f.fn_decl.return_dtype is None {
                let id = f.fn_decl.identifier@;
                if front.names.contains(name) {
                    let i = choose|i: int| 0 <= i < front.names.len() && front.names[i] == name;
                    assert(all.names[i] == name);
                }
                if name == id {
                    if !front.names.contains(id) {
                        assert(all.names[front.names.len() as int] == id);
                    }
                }
                if all.names.contains(name) {
                    let i = choose|i: int| 0 <= i < all.names.len() && all.names[i] == name;
                    if i < front.names.len() {
                        assert(front.names[i] == name);
                    }
                }
            }
        }
    }
}

/// The function at position `i` leaves out its return type.
pub open spec fn leaves_out(elements: Seq<ProgramElement>, i: int, f: FnDef) -> bool {
    &&& 0 <= i < elements.len()
    &&& elements[i].inner matches ProgramElementInner::FnDef(g) && *g == f
    &&& f.fn_decl.return_dtype is None
}

proof fn lemma_left_out_seeded(elements: Seq<ProgramElement>, i: int, f: FnDef)
    requires
        leaves_out(elements, i, f),
    ensures
        seeded(elements).vars.contains_key(f.fn_decl.identifier@),
    decreases elements.len(),
{
    if i < elements.len() - 1 {
        assert(elements.drop_last()[i] == elements[i]);
        lemma_left_out_seeded(elements.drop_last(), i, f);
    }
}

/// The type that inference gives to a type variable or a known type.
pub open spec fn comes_to(
    m: Map<Seq<char>, FunctionTypeModel>,
    pending: Map<Seq<char>, usize>,
    t: TyModel,
    d: DtypeModel,
) -> bool {
    match t {
        TyModel::Concrete(c) => c == d,
        TyModel::Var(v) => forall|g: Seq<char>| #[trigger]
            pending.contains_key(g) && pending[g] == v ==> m.contains_key(g) && m[g].return_dtype
                == d,
    }
}

/// When inference succeeds, a function that leaves out its return type has
/// the type of each of its returns: nothing where a return has no value, else
/// the type of the value, which may be that of another such function.
pub proof fn lemma_returns_agree(
    known: Known,
    elements: Seq<ProgramElement>,
    i: int,
    f: FnDef,
    r: ReturnStmt,
)
    requires
        elements.len() <= usize::MAX,
        leaves_out(elements, i, f),
        returns_in(f.stmts@, r),
    ensures
        inferred(known, elements) matches Ok(m) ==> {
            let pending = seeded(elements).vars;
            let name = f.fn_decl.identifier@;
            &&& m.contains_key(name)
            &&& r.val is None ==> m[name].return_dtype is Void
            &&& exists|env: TyEnv|
                (#[trigger] return_ty(site_of(known, pending, f), env, r)) matches Some(t)
                    && comes_to(m, pending, t, m[name].return_dtype)
        },
{
    let seeds = seeded(elements);
    let pending = seeds.vars;
    let name = f.fn_decl.identifier@;
    let k = site_of(known, pending, f);
    lemma_seeded(elements);
    lemma_left_out_seeded(elements, i, f);
    lemma_seeded_names(elements, name);
    lemma_collected(known, pending, seeds.store, elements, i, r);
    if let Ok(m) = inferred(known, elements) {
        let store = collected(known, pending, seeds.store, elements)->Ok_0;
        let all = seeds.names.take(seeds.names.len() as int);
        assert(all =~= seeds.names);
        lemma_filled(known.functions, seeds, store, seeds.names.len(), name);
        let v = pending[name];
        let env = choose|env: TyEnv|
            (#[trigger] return_ty(k, env, r)) matches Some(t) && t.within(store) && (
            k.result matches Some(v) ==> equal_in(store, TyModel::Var(v as nat), t));
        let t = return_ty(k, env, r)->0;
        assert(equal_in(store, TyModel::Var(v as nat), t));
        assert(comes_to(m, pending, t, m[name].return_dtype)) by {
            if let TyModel::Var(w) = t {
                assert forall|g: Seq<char>| #[trigger]
                    pending.contains_key(g) && pending[g] == w implies m.contains_key(g)
                    && m[g].return_dtype == m[name].return_dtype by {
                    lemma_seeded_names(elements, g);
                    lemma_filled(known.functions, seeds, store, seeds.names.len(), g);
                    assert(store.same(v as int, w as int));
                }
            }
        }
        assert(return_ty(k, env, r) == Some(t));
    }
}

/// The value is an integer whatever its variables are.
pub open spec fn surely_integer(v: RightVal) -> bool {
    match v.inner {
        RightValInner::BoolExpr(_) => true,
        RightValInner::ArithExpr(e) => match e.inner {
            ArithExprInner::ArithBiOpExpr(_) => true,
            ArithExprInner::ExprUnit(u) => u.inner is Num,
        },
    }
}

/// A function that leaves out its return type and returns an integer in one
/// place and nothing in another is rejected.
pub proof fn lemma_conflict_rejected(
    known: Known,
    elements: Seq<ProgramElement>,
    i: int,
    f: FnDef,
    r: ReturnStmt,
    s: ReturnStmt,
)
    requires
        elements.len() <= usize::MAX,
        leaves_out(elements, i, f),
        returns_in(f.stmts@, r),
        returns_in(f.stmts@, s),
        r.val is None,
        s.val matches Some(v) && surely_integer(*v),
    ensures
        inferred(known, elements) is Err,
{
    lemma_returns_agree(known, elements, i, f, r);
    lemma_returns_agree(known, elements, i, f, s);
    if let Ok(m) = inferred(known, elements) {
        let pending = seeded(elements).vars;
        let k = site_of(known, pending, f);
        let d = m[f.fn_decl.identifier@].return_dtype;
        let env = choose|env: TyEnv|
            (#[trigger] return_ty(k, env, s)) matches Some(t) && comes_to(m, pending, t, d);
        assert(return_ty(k, env, s) == Some(TyModel::Concrete(DtypeModel::I32)));
    }
}

/// The first functions that got their types changed nothing else.
proof fn lemma_filled_others(
    types: Map<Seq<char>, FunctionTypeModel>,
    seeds: Seeds,
    store: Store,
    n: nat,
    name: Seq<char>,
)
    requires
        n <= seeds.names.len(),
    ensures
        filled_in(types, seeds, store, n) matches Ok(m) ==> {
            &&& m.contains_key(name) == types.contains_key(name)
            &&& types.contains_key(name) ==> m[name].arguments == types[name].arguments
            &&& types.contains_key(name) && !seeds.names.contains(name) ==> m[name] == types[name]
        },
    decreases n,
{
    if n > 0 {
        lemma_filled_others(types, seeds, store, (n - 1) as nat, name);
        assert(seeds.names.contains(seeds.names[n - 1]));
    }
}

/// Inference leaves parameters as they are, and functions that have a return
/// type altogether.
pub proof fn lemma_others_kept(known: Known, elements: Seq<ProgramElement>, name: Seq<char>)
    requires
        known.functions.contains_key(name),
    ensures
        inferred(known, elements) matches Ok(m) ==> {
            &&& m.contains_key(name)
            &&& m[name].arguments == known.functions[name].arguments
            &&& !seeded(elements).vars.contains_key(name) ==> m[name] == known.functions[name]
        },
{
    let seeds = seeded(elements);
    lemma_seeded_names(elements, name);
    if let Ok(store) = collected(known, seeds.vars, seeds.store, elements) {
        lemma_filled_others(known.functions, seeds, store, seeds.names.len(), name);
    }
}

/// Where no function leaves out its return type there is nothing to infer.
pub proof fn lemma_nothing_to_infer(known: Known, elements: Seq<ProgramElement>)
    requires
        forall|i: int, f: FnDef| !leaves_out(elements, i, f),
    ensures
        inferred(known, elements) == Ok::<
            Map<Seq<char>, FunctionTypeModel>,
            crate::ir::error::ErrorModel,
        >(known.functions),
{
    lemma_no_seeds(elements);
}

proof fn lemma_no_seeds(elements: Seq<ProgramElement>)
    requires
        forall|i: int, f: FnDef| !leaves_out(elements, i, f),
    ensures
        seeded(elements).names.len() == 0,
    decreases elements.len(),
{
    if elements.len() > 0 {
        let front = elements.drop_last();
        assert forall|i: int, f: FnDef| !leaves_out(front, i, f) by {
            assert(!leaves_out(elements, i, f));
            if 0 <= i < front.len() {
                assert(front[i] == elements[i]);
            }
        }
        lemma_no_seeds(front);
        if let ProgramElementInner::FnDef(f) = elements.last().inner {
            assert(!leaves_out(elements, elements.len() - 1, *f));
        }
    }
}

} // verus!
