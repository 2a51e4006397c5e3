//! Inference of the return types that functions leave out.
//!
//! Every function without a return type gets a type variable.  The bodies of
//! all functions are walked for constraints, and then the variables are
//! replaced by what is known of them.

use super::union_find::{unified, unify, Store, Ty, TyModel, UnionFind};
use crate::ast::decl::{ArrayInitializer, FnDef, VarDecl, VarDeclInner, VarDeclStmtInner, VarDef, VarDefInner};
use crate::ast::expr::{
    ArithExpr, ArithExprInner, ArrayExpr, BoolExpr, BoolExprInner, BoolUnit, BoolUnitInner,
    ExprUnit, ExprUnitInner, FnCall, LeftVal, LeftValInner, MemberExpr, RightVal, RightValInner,
};
use crate::ast::program::{Program, ProgramElement, ProgramElementInner};
use crate::ast::stmt::{
    AssignmentStmt, CodeBlockStmt, CodeBlockStmtInner, IfStmt, ReturnStmt, WhileStmt,
};
use crate::common::names::{with_name, NameMap};
use crate::ir::error::{Error, ErrorModel};
use crate::ir::gen::conversions::{
    outcome, returnable, signature_decls, specified, specified_dtype, var_decl_dtype, var_decl_type,
};
use crate::ir::gen::function_gen::done;
use crate::ir::gen::type_infer::{
    array_elements, declared_state, element_of, known_of, type_of_member, Known,
};
use crate::ir::gen::module_gen::known;
use crate::ir::module::{IrGenerator, Registry, Unit};
use crate::ir::pass::ModulePass;
use crate::ir::types::{copy_parameters, Dtype, DtypeModel, FunctionType, FunctionTypeModel};
use crate::ir::value::GlobalDef;
use vstd::prelude::*;

verus! {

/// What the body of a function can refer to.
pub struct Site {
    pub known: Known,
    /// The type variables of the functions without a return type.
    pub pending: Map<Seq<char>, usize>,
    /// The name of the function.
    pub name: Seq<char>,
    /// The type variable of the function itself.
    pub result: Option<usize>,
}

/// The local variables with their types, in the order in which they were
/// first seen.
#[verifier::ext_equal]
pub struct TyEnv {
    pub names: Seq<Seq<char>>,
    pub tys: Map<Seq<char>, TyModel>,
}

impl TyEnv {
    /// The environment with a type for the variable.
    pub open spec fn with(self, name: Seq<char>, t: TyModel) -> TyEnv {
        TyEnv { names: with_name(self.names, name), tys: self.tys.insert(name, t) }
    }
}

/// The constraints and the local variables.
#[verifier::ext_equal]
pub struct Progress {
    pub store: Store,
    pub env: TyEnv,
}

/// The type of the variable `id`.
pub open spec fn name_ty(k: Site, env: TyEnv, id: Seq<char>) -> Result<TyModel, ErrorModel> {
    if env.tys.contains_key(id) {
        Ok(env.tys[id])
    } else if k.known.globals.contains_key(id) {
        Ok(TyModel::Concrete(k.known.globals[id].dtype))
    } else {
        Err(ErrorModel::VariableNotDefined { symbol: id })
    }
}

/// The type of a variable as a value: arrays count as their elements.
pub open spec fn variable_ty(k: Site, env: TyEnv, id: Seq<char>) -> Result<TyModel, ErrorModel> {
    match name_ty(k, env, id) {
        Ok(TyModel::Concrete(DtypeModel::Array(element, _))) => Ok(TyModel::Concrete(*element)),
        other => other,
    }
}

/// The type of an element of something of type `t`.
pub open spec fn indexed_ty(t: TyModel) -> TyModel {
    match t {
        TyModel::Concrete(d) => TyModel::Concrete(element_of(d)),
        TyModel::Var(_) => t,
    }
}

/// The type of a reference to `id`.
pub open spec fn reference_ty(k: Site, env: TyEnv, id: Seq<char>) -> Result<TyModel, ErrorModel> {
    match name_ty(k, env, id) {
        Err(e) => Err(e),
        Ok(TyModel::Var(_)) => Err(ErrorModel::InvalidReference { symbol: id }),
        Ok(TyModel::Concrete(d)) => match array_elements(d) {
            Some(e) => Ok(TyModel::Concrete(e.array(None).pointer())),
            None => Err(ErrorModel::InvalidReference { symbol: id }),
        },
    }
}

/// The type of a place.
pub open spec fn place_ty(k: Site, env: TyEnv, p: LeftVal) -> Result<TyModel, ErrorModel>
    decreases p,
{
    match p.inner {
        LeftValInner::Id(id) => name_ty(k, env, id@),
        LeftValInner::ArrayExpr(e) => array_ty(k, env, *e),
        LeftValInner::MemberExpr(e) => member_ty(k, env, *e),
    }
}

/// The type of an array element.
pub open spec fn array_ty(k: Site, env: TyEnv, e: ArrayExpr) -> Result<TyModel, ErrorModel>
    decreases e,
{
    match place_ty(k, env, *e.arr) {
        Err(x) => Err(x),
        Ok(t) => Ok(indexed_ty(t)),
    }
}

/// The type of a struct member.
pub open spec fn member_ty(k: Site, env: TyEnv, e: MemberExpr) -> Result<TyModel, ErrorModel>
    decreases e,
{
    match place_ty(k, env, *e.struct_id) {
        Err(x) => Err(x),
        Ok(TyModel::Var(_)) => Err(
            ErrorModel::InvalidStructMemberExpression { expr: e },
        ),
        Ok(TyModel::Concrete(d)) => match type_of_member(k.known, d, e.member_id@) {
            Some(t) => Ok(TyModel::Concrete(t)),
            None => Err(ErrorModel::InvalidStructMemberExpression { expr: e }),
        },
    }
}

/// The type of an atomic expression.
pub open spec fn unit_ty(k: Site, env: TyEnv, u: ExprUnit) -> Result<TyModel, ErrorModel>
    decreases u,
{
    match u.inner {
        ExprUnitInner::Num(_) => Ok(TyModel::Concrete(DtypeModel::I32)),
        ExprUnitInner::Id(id) => variable_ty(k, env, id@),
        ExprUnitInner::ArithExpr(e) => arith_ty(k, env, *e),
        ExprUnitInner::FnCall(c) => call_ty(k, env, *c),
        ExprUnitInner::ArrayExpr(e) => array_ty(k, env, *e),
        ExprUnitInner::MemberExpr(e) => member_ty(k, env, *e),
        ExprUnitInner::Reference(id) => reference_ty(k, env, id@),
    }
}

/// The type of a call: the variable of a function without a return type.
pub open spec fn call_ty(k: Site, env: TyEnv, c: FnCall) -> Result<TyModel, ErrorModel>
    decreases c,
{
    match values_ok(k, env, c.vals@) {
        Err(x) => Err(x),
        Ok(_) => if k.pending.contains_key(c.callee()) {
            Ok(TyModel::Var(k.pending[c.callee()] as nat))
        } else if k.known.functions.contains_key(c.callee()) {
            Ok(TyModel::Concrete(k.known.functions[c.callee()].return_dtype))
        } else {
            Err(ErrorModel::FunctionNotDefined { symbol: c.callee() })
        },
    }
}

/// All values have types.
pub open spec fn values_ok(k: Site, env: TyEnv, vals: Seq<RightVal>) -> Result<(), ErrorModel>
    decreases vals,
{
    if vals.len() == 0 {
        Ok(())
    } else {
        match values_ok(k, env, vals.drop_last()) {
            Err(x) => Err(x),
            Ok(_) => match right_ty(k, env, vals.last()) {
                Err(x) => Err(x),
                Ok(_) => Ok(()),
            },
        }
    }
}

/// The type of an arithmetic expression.
pub open spec fn arith_ty(k: Site, env: TyEnv, e: ArithExpr) -> Result<TyModel, ErrorModel>
    decreases e,
{
    match e.inner {
        ArithExprInner::ArithBiOpExpr(b) => match arith_ty(k, env, *b.left) {
            Err(x) => Err(x),
            Ok(_) => match arith_ty(k, env, *b.right) {
                Err(x) => Err(x),
                Ok(_) => Ok(TyModel::Concrete(DtypeModel::I32)),
            },
        },
        ArithExprInner::ExprUnit(u) => unit_ty(k, env, *u),
    }
}

/// The type of a right-hand side.
pub open spec fn right_ty(k: Site, env: TyEnv, v: RightVal) -> Result<TyModel, ErrorModel>
    decreases v,
{
    match v.inner {
        RightValInner::ArithExpr(e) => arith_ty(k, env, *e),
        RightValInner::BoolExpr(e) => match bool_ok(k, env, *e) {
            Err(x) => Err(x),
            Ok(_) => Ok(TyModel::Concrete(DtypeModel::I32)),
        },
    }
}

/// The parts of a boolean expression have types.
pub open spec fn bool_ok(k: Site, env: TyEnv, e: BoolExpr) -> Result<(), ErrorModel>
    decreases e,
{
    match e.inner {
        BoolExprInner::BoolBiOpExpr(b) => match bool_ok(k, env, *b.left) {
            Err(x) => Err(x),
            Ok(_) => bool_ok(k, env, *b.right),
        },
        BoolExprInner::BoolUnit(u) => bool_unit_ok(k, env, *u),
    }
}

/// The parts of an atomic boolean expression have types.
pub open spec fn bool_unit_ok(k: Site, env: TyEnv, u: BoolUnit) -> Result<(), ErrorModel>
    decreases u,
{
    match u.inner {
        BoolUnitInner::ComExpr(c) => match unit_ty(k, env, *c.left) {
            Err(x) => Err(x),
            Ok(_) => match unit_ty(k, env, *c.right) {
                Err(x) => Err(x),
                Ok(_) => Ok(()),
            },
        },
        BoolUnitInner::BoolExpr(e) => bool_ok(k, env, *e),
        BoolUnitInner::BoolUOpExpr(o) => bool_unit_ok(k, env, *o.cond),
    }
}

/// Adds the constraint that two types are equal.
pub open spec fn constrained(p: Progress, a: TyModel, b: TyModel, symbol: Seq<char>) -> Result<
    Progress,
    ErrorModel,
> {
    match unified(p.store, a, b, symbol) {
        Err(x) => Err(x),
        Ok(store) => Ok(Progress { store, env: p.env }),
    }
}

/// A declaration: a variable without a type stays out.
pub open spec fn after_decl(p: Progress, d: VarDecl) -> Progress {
    match declared_state(d) {
        Some(t) => Progress {
            store: p.store,
            env: p.env.with(d.identifier@, TyModel::Concrete(t)),
        },
        None => p,
    }
}

/// The parts of an initializer have types.
pub open spec fn init_ok(k: Site, env: TyEnv, init: ArrayInitializer) -> Result<(), ErrorModel> {
    match init {
        ArrayInitializer::ExplicitList(vals) => values_ok(k, env, vals@),
        ArrayInitializer::Fill { val, .. } => match right_ty(k, env, *val) {
            Err(x) => Err(x),
            Ok(_) => Ok(()),
        },
    }
}

/// A definition: a type that is given equals that of the value.
pub open spec fn after_def(k: Site, p: Progress, d: VarDef) -> Result<Progress, ErrorModel> {
    match d.inner {
        VarDefInner::Scalar(s) => match right_ty(k, p.env, *s.val) {
            Err(x) => Err(x),
            Ok(t) => match d.type_specifier {
                Some(ts) => {
                    let lhs = TyModel::Concrete(specified(ts));
                    match unified(p.store, lhs, t, d.identifier@) {
                        Err(x) => Err(x),
                        Ok(store) => Ok(Progress { store, env: p.env.with(d.identifier@, lhs) }),
                    }
                },
                None => Ok(Progress { store: p.store, env: p.env.with(d.identifier@, t) }),
            },
        },
        VarDefInner::Array(a) => match init_ok(k, p.env, a.initializer) {
            Err(x) => Err(x),
            Ok(_) => {
                let element = match d.type_specifier {
                    Some(ts) => specified(ts),
                    None => DtypeModel::I32,
                };
                Ok(
                    Progress {
                        store: p.store,
                        env: p.env.with(
                            d.identifier@,
                            TyModel::Concrete(element.array(Some(a.len as nat))),
                        ),
                    },
                )
            },
        },
    }
}

/// An assignment: the types of both sides are equal.
pub open spec fn after_assignment(k: Site, p: Progress, a: AssignmentStmt) -> Result<
    Progress,
    ErrorModel,
> {
    match right_ty(k, p.env, *a.right_val) {
        Err(x) => Err(x),
        Ok(t) => match a.left_val.inner {
            LeftValInner::Id(id) => if p.env.tys.contains_key(id@) {
                constrained(p, p.env.tys[id@], t, id@)
            } else if k.known.globals.contains_key(id@) {
                Ok(p)
            } else {
                Ok(Progress { store: p.store, env: p.env.with(id@, t) })
            },
            LeftValInner::ArrayExpr(e) => match array_ty(k, p.env, *e) {
                Err(x) => Err(x),
                Ok(_) => Ok(p),
            },
            LeftValInner::MemberExpr(e) => match member_ty(k, p.env, *e) {
                Err(x) => Err(x),
                Ok(_) => Ok(p),
            },
        },
    }
}

/// The type of `name` at the end of a branch that began in `env`.
pub open spec fn branch_ty(env: TyEnv, branch: Map<Seq<char>, TyModel>, name: Seq<char>) -> TyModel {
    if branch.contains_key(name) {
        branch[name]
    } else {
        env.tys[name]
    }
}

/// The first `n` variables have the same type in both branches.
pub open spec fn merged_tys(
    store: Store,
    env: TyEnv,
    a: Map<Seq<char>, TyModel>,
    b: Map<Seq<char>, TyModel>,
    n: nat,
) -> Result<(Store, Map<Seq<char>, TyModel>), ErrorModel>
    decreases n,
{
    if n == 0 {
        Ok((store, env.tys))
    } else {
        let name = env.names[n - 1];
        match merged_tys(store, env, a, b, (n - 1) as nat) {
            Err(x) => Err(x),
            Ok((s, tys)) => match unified(
                s,
                branch_ty(env, a, name),
                branch_ty(env, b, name),
                name,
            ) {
                Err(x) => Err(x),
                Ok(t) => Ok((t, tys.insert(name, branch_ty(env, a, name)))),
            },
        }
    }
}

/// The state after one of two branches.
pub open spec fn merged_progress(
    store: Store,
    env: TyEnv,
    a: Map<Seq<char>, TyModel>,
    b: Map<Seq<char>, TyModel>,
) -> Result<Progress, ErrorModel> {
    match merged_tys(store, env, a, b, env.names.len()) {
        Err(x) => Err(x),
        Ok((s, tys)) => Ok(Progress { store: s, env: TyEnv { names: env.names, tys } }),
    }
}

/// The state after a `return`: its type is that of the function.
pub open spec fn after_return(k: Site, p: Progress, r: ReturnStmt) -> Result<Progress, ErrorModel> {
    let actual = match r.val {
        Some(v) => right_ty(k, p.env, *v),
        None => Ok(TyModel::Concrete(DtypeModel::Void)),
    };
    match actual {
        Err(x) => Err(x),
        Ok(t) => match k.result {
            Some(v) => constrained(p, TyModel::Var(v as nat), t, k.name),
            None => Ok(p),
        },
    }
}

/// The state after a statement.
pub open spec fn after_stmt(k: Site, p: Progress, s: CodeBlockStmt) -> Result<Progress, ErrorModel>
    decreases s,
{
    match s.inner {
        CodeBlockStmtInner::VarDecl(v) => match v.inner {
            VarDeclStmtInner::Decl(d) => Ok(after_decl(p, *d)),
            VarDeclStmtInner::Def(d) => after_def(k, p, *d),
        },
        CodeBlockStmtInner::Assignment(a) => after_assignment(k, p, *a),
        CodeBlockStmtInner::If(i) => after_if(k, p, *i),
        CodeBlockStmtInner::While(w) => after_while(k, p, *w),
        CodeBlockStmtInner::Call(c) => match call_ty(k, p.env, *c.fn_call) {
            Err(x) => Err(x),
            Ok(_) => Ok(p),
        },
        CodeBlockStmtInner::Return(r) => after_return(k, p, *r),
        _ => Ok(p),
    }
}

/// The state after a list of statements.
pub open spec fn after_stmts(k: Site, p: Progress, stmts: Seq<CodeBlockStmt>) -> Result<
    Progress,
    ErrorModel,
>
    decreases stmts,
{
    if stmts.len() == 0 {
        Ok(p)
    } else {
        match after_stmts(k, p, stmts.drop_last()) {
            Err(x) => Err(x),
            Ok(q) => after_stmt(k, q, stmts.last()),
        }
    }
}

/// The state after an else branch.
pub open spec fn after_else(k: Site, p: Progress, branch: Option<Vec<CodeBlockStmt>>) -> Result<
    Progress,
    ErrorModel,
>
    decreases branch,
{
    match branch {
        Some(stmts) => after_stmts(k, p, stmts@),
        None => Ok(p),
    }
}

/// The state after a conditional: both branches begin with the same
/// variables, and constraints of both stay.
pub open spec fn after_if(k: Site, p: Progress, i: IfStmt) -> Result<Progress, ErrorModel>
    decreases i,
{
    match bool_unit_ok(k, p.env, *i.bool_unit) {
        Err(x) => Err(x),
        Ok(_) => match after_stmts(k, p, i.if_stmts@) {
            Err(x) => Err(x),
            Ok(a) => match after_else(k, Progress { store: a.store, env: p.env }, i.else_stmts) {
                Err(x) => Err(x),
                Ok(b) => merged_progress(b.store, p.env, a.env.tys, b.env.tys),
            },
        },
    }
}

/// The state after a loop, whose body may not run at all.
pub open spec fn after_while(k: Site, p: Progress, w: WhileStmt) -> Result<Progress, ErrorModel>
    decreases w,
{
    match bool_unit_ok(k, p.env, *w.bool_unit) {
        Err(x) => Err(x),
        Ok(_) => match after_stmts(k, p, w.stmts@) {
            Err(x) => Err(x),
            Ok(b) => merged_progress(b.store, p.env, p.env.tys, b.env.tys),
        },
    }
}

/// The variables of the parameters.
pub open spec fn parameter_tys(decls: Seq<VarDecl>) -> TyEnv
    decreases decls.len(),
{
    if decls.len() == 0 {
        TyEnv { names: Seq::empty(), tys: Map::empty() }
    } else {
        parameter_tys(decls.drop_last()).with(
            decls.last().identifier@,
            TyModel::Concrete(var_decl_type(decls.last())),
        )
    }
}

/// The functions without a return type, each with its variable.
#[verifier::ext_equal]
pub struct Seeds {
    pub names: Seq<Seq<char>>,
    pub vars: Map<Seq<char>, usize>,
    pub store: Store,
}

/// Gives every function without a return type a variable.
pub open spec fn seeded(elements: Seq<ProgramElement>) -> Seeds
    decreases elements.len(),
{
    if elements.len() == 0 {
        Seeds { names: Seq::empty(), vars: Map::empty(), store: Store::empty() }
    } else {
        let front = seeded(elements.drop_last());
        match elements.last().inner {
            ProgramElementInner::FnDef(f) => if f.fn_decl.return_dtype is None {
                Seeds {
                    names: with_name(front.names, f.fn_decl.identifier@),
                    vars: front.vars.insert(
                        f.fn_decl.identifier@,
                        front.store.labels.len() as usize,
                    ),
                    store: front.store.fresh(),
                }
            } else {
                front
            },
            _ => front,
        }
    }
}

/// What the body of `f` can refer to.
pub open spec fn site_of(known: Known, pending: Map<Seq<char>, usize>, f: FnDef) -> Site {
    Site {
        known,
        pending,
        name: f.fn_decl.identifier@,
        result: if pending.contains_key(f.fn_decl.identifier@) {
            Some(pending[f.fn_decl.identifier@])
        } else {
            None
        },
    }
}

/// The constraints after those of one function.
pub open spec fn collected_fn(
    known: Known,
    pending: Map<Seq<char>, usize>,
    store: Store,
    f: FnDef,
) -> Result<Store, ErrorModel> {
    match after_stmts(
        site_of(known, pending, f),
        Progress { store, env: parameter_tys(signature_decls(*f.fn_decl)) },
        f.stmts@,
    ) {
        Err(x) => Err(x),
        Ok(p) => Ok(p.store),
    }
}

/// The constraints of all functions.
pub open spec fn collected(
    known: Known,
    pending: Map<Seq<char>, usize>,
    store: Store,
    elements: Seq<ProgramElement>,
) -> Result<Store, ErrorModel>
    decreases elements.len(),
{
    if elements.len() == 0 {
        Ok(store)
    } else {
        match collected(known, pending, store, elements.drop_last()) {
            Err(x) => Err(x),
            Ok(s) => match elements.last().inner {
                ProgramElementInner::FnDef(f) => collected_fn(known, pending, s, *f),
                _ => Ok(s),
            },
        }
    }
}

/// The return type found for a variable: nothing where nothing is known.
pub open spec fn found_type(store: Store, v: usize) -> DtypeModel {
    match store.bound[v as int] {
        Some(d) => d,
        None => DtypeModel::Void,
    }
}

/// The function types after the first `n` functions got their return types.
pub open spec fn filled_in(
    types: Map<Seq<char>, FunctionTypeModel>,
    seeds: Seeds,
    store: Store,
    n: nat,
) -> Result<Map<Seq<char>, FunctionTypeModel>, ErrorModel>
    decreases n,
{
    if n == 0 {
        Ok(types)
    } else {
        let name = seeds.names[n - 1];
        match filled_in(types, seeds, store, (n - 1) as nat) {
            Err(x) => Err(x),
            Ok(m) => {
                let d = found_type(store, seeds.vars[name]);
                if !returnable(d) {
                    Err(ErrorModel::UnsupportedReturnType { symbol: name })
                } else if !m.contains_key(name) {
                    Err(ErrorModel::FunctionNotDefined { symbol: name })
                } else {
                    Ok(
                        m.insert(
                            name,
                            FunctionTypeModel { return_dtype: d, arguments: m[name].arguments },
                        ),
                    )
                }
            },
        }
    }
}

/// The function types that the first failing one of the first `n` functions
/// leaves: those before it have their return types.
pub open spec fn filled_left(
    types: Map<Seq<char>, FunctionTypeModel>,
    seeds: Seeds,
    store: Store,
    n: nat,
) -> Map<Seq<char>, FunctionTypeModel>
    decreases n,
{
    if n == 0 {
        types
    } else {
        match filled_in(types, seeds, store, (n - 1) as nat) {
            Err(_) => filled_left(types, seeds, store, (n - 1) as nat),
            Ok(m) => m,
        }
    }
}

/// The function types with all return types.
pub open spec fn inferred(known: Known, elements: Seq<ProgramElement>) -> Result<
    Map<Seq<char>, FunctionTypeModel>,
    ErrorModel,
> {
    let seeds = seeded(elements);
    if seeds.names.len() == 0 {
        Ok(known.functions)
    } else {
        match collected(known, seeds.vars, seeds.store, elements) {
            Err(x) => Err(x),
            Ok(store) => filled_in(known.functions, seeds, store, seeds.names.len()),
        }
    }
}

/// The function types that are left where some return type cannot be found.
pub open spec fn inferred_left(known: Known, elements: Seq<ProgramElement>) -> Map<
    Seq<char>,
    FunctionTypeModel,
> {
    let seeds = seeded(elements);
    match collected(known, seeds.vars, seeds.store, elements) {
        Err(_) => known.functions,
        Ok(store) => filled_left(known.functions, seeds, store, seeds.names.len()),
    }
}

proof fn lemma_values_stop(k: Site, env: TyEnv, vals: Seq<RightVal>, i: int)
    requires
        0 <= i <= vals.len(),
        values_ok(k, env, vals.take(i)) is Err,
    ensures
        values_ok(k, env, vals) == values_ok(k, env, vals.take(i)),
    decreases vals.len() - i,
{
    if i < vals.len() {
        assert(vals.take(i + 1).drop_last() =~= vals.take(i));
        lemma_values_stop(k, env, vals, i + 1);
    } else {
        assert(vals.take(i) =~= vals);
    }
}

proof fn lemma_stmts_stop(k: Site, p: Progress, stmts: Seq<CodeBlockStmt>, i: int)
    requires
        0 <= i <= stmts.len(),
        after_stmts(k, p, stmts.take(i)) is Err,
    ensures
        after_stmts(k, p, stmts) == after_stmts(k, p, stmts.take(i)),
    decreases stmts.len() - i,
{
    if i < stmts.len() {
        assert(stmts.take(i + 1).drop_last() =~= stmts.take(i));
        lemma_stmts_stop(k, p, stmts, i + 1);
    } else {
        assert(stmts.take(i) =~= stmts);
    }
}

proof fn lemma_merge_stops(
    store: Store,
    env: TyEnv,
    a: Map<Seq<char>, TyModel>,
    b: Map<Seq<char>, TyModel>,
    i: nat,
    n: nat,
)
    requires
        i <= n,
        merged_tys(store, env, a, b, i) is Err,
    ensures
        merged_tys(store, env, a, b, n) == merged_tys(store, env, a, b, i),
    decreases n,
{
    if i < n {
        lemma_merge_stops(store, env, a, b, i, (n - 1) as nat);
    }
}

proof fn lemma_collected_stops(
    known: Known,
    pending: Map<Seq<char>, usize>,
    store: Store,
    elements: Seq<ProgramElement>,
    i: int,
)
    requires
        0 <= i <= elements.len(),
        collected(known, pending, store, elements.take(i)) is Err,
    ensures
        collected(known, pending, store, elements) == collected(
            known,
            pending,
            store,
            elements.take(i),
        ),
    decreases elements.len() - i,
{
    if i < elements.len() {
        assert(elements.take(i + 1).drop_last() =~= elements.take(i));
        lemma_collected_stops(known, pending, store, elements, i + 1);
    } else {
        assert(elements.take(i) =~= elements);
    }
}

proof fn lemma_filled_stops(
    types: Map<Seq<char>, FunctionTypeModel>,
    seeds: Seeds,
    store: Store,
    i: nat,
    n: nat,
)
    requires
        i <= n,
        filled_in(types, seeds, store, i) is Err,
    ensures
        filled_in(types, seeds, store, n) == filled_in(types, seeds, store, i),
        filled_left(types, seeds, store, n) == filled_left(types, seeds, store, i),
    decreases n,
{
    if i < n {
        lemma_filled_stops(types, seeds, store, i, (n - 1) as nat);
    }
}

/// A table of local variables.
pub type TyTable = NameMap<Ty>;

/// The model of a table.
pub open spec fn tys_of(t: TyTable) -> TyEnv {
    TyEnv { names: t.names(), tys: t@ }
}

/// The variables in the types of a table are variables of the store.
pub open spec fn all_within(tys: Map<Seq<char>, TyModel>, s: Store) -> bool {
    forall|x: Seq<char>| #[trigger] tys.contains_key(x) ==> tys[x].within(s)
}

/// The variables of the pending functions are variables of the store.
pub open spec fn pending_within(pending: Map<Seq<char>, usize>, s: Store) -> bool {
    forall|x: Seq<char>| #[trigger] pending.contains_key(x) ==> pending[x] < s.labels.len()
}

fn copy_tys(t: &TyTable) -> (copy: TyTable)
    requires
        t.wf(),
    ensures
        copy.wf(),
        tys_of(copy) == tys_of(*t),
{
    let mut copy: TyTable = NameMap::new();
    let ghost names = t.names();
    proof {
        t.lemma_names();
    }
    let n: usize = t.len();
    let mut i: usize = 0;
    assert(names.take(0) =~= Seq::empty());
    while i < n
        invariant
            i <= n,
            t.wf(),
            names == t.names(),
            n == names.len(),
            names.no_duplicates(),
            copy.wf(),
            copy.names() == names.take(i as int),
            forall|x: Seq<char>| #[trigger]
                copy@.contains_key(x) <==> names.take(i as int).contains(x),
            forall|x: Seq<char>| #[trigger] copy@.contains_key(x) ==> copy@[x] == t@[x],
        decreases n - i,
    {
        let ghost before_names = copy.names();
        let ghost name = names[i as int];
        proof {
            if names.take(i as int).contains(name) {
                let j = choose|j: int|
                    0 <= j < names.take(i as int).len() && names.take(i as int)[j] == name;
                assert(names[j] == names[i as int]);
            }
        }
        copy.insert(t.name_at(i).clone(), t.value_at(i).clone());
        proof {
            assert(names.take(i + 1) =~= names.take(i as int).push(name));
            assert forall|x: Seq<char>| #[trigger]
                copy@.contains_key(x) <==> names.take(i + 1).contains(x) by {
                let longer = names.take(i + 1);
                let shorter = names.take(i as int);
                if shorter.contains(x) {
                    let j = choose|j: int| 0 <= j < shorter.len() && shorter[j] == x;
                    assert(longer[j] == x);
                }
                assert(longer[i as int] == name);
                if longer.contains(x) && x != name {
                    let j = choose|j: int| 0 <= j < longer.len() && longer[j] == x;
                    assert(shorter[j] == x);
                }
            }
        }
        i = i + 1;
    }
    proof {
        assert(names.take(i as int) =~= names);
        assert forall|x: Seq<char>| copy@.contains_key(x) <==> t@.contains_key(x) by {
            assert(names.contains(x) <==> t@.contains_key(x));
        }
        assert(copy@ =~= t@);
    }
    copy
}

/// Walks the body of one function.
pub struct Collector<'a> {
    pub registry: &'a Registry,
    pub globals: &'a NameMap<GlobalDef>,
    pub pending: &'a NameMap<usize>,
    pub uf: UnionFind,
    pub fn_name: String,
    pub return_var: Option<usize>,
    pub env: TyTable,
}

/// The outcome of a step that ends in the state `p`.
pub open spec fn steps(r: Result<(), Error>, p: Progress, expected: Result<Progress, ErrorModel>) -> bool {
    match r {
        Ok(_) => expected == Ok::<Progress, ErrorModel>(p),
        Err(e) => expected == Err::<Progress, ErrorModel>(e@),
    }
}

impl<'a> Collector<'a> {
    /// What the body can refer to.
    pub open spec fn site(&self) -> Site {
        Site {
            known: known_of(*self.registry, *self.globals),
            pending: self.pending@,
            name: self.fn_name@,
            result: self.return_var,
        }
    }

    /// The local variables.
    pub open spec fn locals(&self) -> TyEnv {
        tys_of(self.env)
    }

    /// The constraints and the local variables.
    pub open spec fn progress(&self) -> Progress {
        Progress { store: self.uf@, env: self.locals() }
    }

    /// The tables are well formed.
    pub open spec fn wf(&self) -> bool {
        &&& self.registry.wf()
        &&& self.globals.wf()
        &&& self.pending.wf()
        &&& self.uf.wf()
        &&& self.env.wf()
        &&& all_within(self.env@, self.uf@)
        &&& pending_within(self.pending@, self.uf@)
        &&& self.return_var matches Some(v) ==> v < self.uf@.labels.len()
    }

    fn lookup_ty(&self, id: &String) -> (r: Result<Ty, Error>)
        requires
            self.wf(),
        ensures
            outcome(r) == name_ty(self.site(), self.locals(), id@),
            r matches Ok(t) ==> t@.within(self.uf@),
    {
        match self.env.get(id.as_str()) {
            Some(t) => Ok(t.clone()),
            None => match self.globals.get(id.as_str()) {
                Some(g) => Ok(Ty::Concrete(g.dtype.clone())),
                None => Err(Error::VariableNotDefined { symbol: id.clone() }),
            },
        }
    }

    fn resolve_variable(&self, id: &String) -> (r: Result<Ty, Error>)
        requires
            self.wf(),
        ensures
            outcome(r) == variable_ty(self.site(), self.locals(), id@),
            r matches Ok(t) ==> t@.within(self.uf@),
    {
        let ty = self.lookup_ty(id)?;
        match &ty {
            Ty::Concrete(d) => match d {
                Dtype::Array { element, .. } => Ok(Ty::Concrete((**element).clone())),
                _ => Ok(ty),
            },
            Ty::Var(_) => Ok(ty),
        }
    }

    fn elements(dtype: &Dtype) -> (r: Option<Dtype>)
        ensures
            match r {
                Some(d) => array_elements(dtype@) == Some(d@),
                None => array_elements(dtype@) is None,
            },
    {
        proof {
            reveal_with_fuel(Dtype::model, 3);
        }
        match dtype {
            Dtype::Array { element, .. } => Some((**element).clone()),
            Dtype::Pointer { pointee } => match &**pointee {
                Dtype::Array { element, .. } => Some((**element).clone()),
                _ => None,
            },
            _ => None,
        }
    }

    fn element_ty_of_indexing(ty: &Ty) -> (t: Ty)
        ensures
            t@ == indexed_ty(ty@),
    {
        match ty {
            Ty::Concrete(d) => match Self::elements(d) {
                Some(e) => Ty::Concrete(e),
                None => ty.clone(),
            },
            Ty::Var(_) => ty.clone(),
        }
    }

    fn type_of_reference(&self, id: &String) -> (r: Result<Ty, Error>)
        requires
            self.wf(),
        ensures
            outcome(r) == reference_ty(self.site(), self.locals(), id@),
            r matches Ok(t) ==> t@.within(self.uf@),
    {
        let ty = self.lookup_ty(id)?;
        match &ty {
            Ty::Concrete(d) => match Self::elements(d) {
                Some(e) => Ok(Ty::Concrete(Dtype::ptr_to(Dtype::unsized_array(e)))),
                None => Err(Error::InvalidReference { symbol: id.clone() }),
            },
            Ty::Var(_) => Err(Error::InvalidReference { symbol: id.clone() }),
        }
    }

    fn type_of_left_val(&self, val: &LeftVal) -> (r: Result<Ty, Error>)
        requires
            self.wf(),
        ensures
            outcome(r) == place_ty(self.site(), self.locals(), *val),
            r matches Ok(t) ==> t@.within(self.uf@),
        decreases val,
    {
        match &val.inner {
            LeftValInner::Id(id) => self.lookup_ty(id),
            LeftValInner::ArrayExpr(e) => self.type_of_array_expr(e),
            LeftValInner::MemberExpr(e) => self.type_of_member_expr(e),
        }
    }

    fn type_of_array_expr(&self, expr: &ArrayExpr) -> (r: Result<Ty, Error>)
        requires
            self.wf(),
        ensures
            outcome(r) == array_ty(self.site(), self.locals(), *expr),
            r matches Ok(t) ==> t@.within(self.uf@),
        decreases expr,
    {
        let arr = self.type_of_left_val(&expr.arr)?;
        Ok(Self::element_ty_of_indexing(&arr))
    }

    fn type_of_member_expr(&self, expr: &MemberExpr) -> (r: Result<Ty, Error>)
        requires
            self.wf(),
        ensures
            outcome(r) == member_ty(self.site(), self.locals(), *expr),
            r matches Ok(t) ==> t@.within(self.uf@),
        decreases expr,
    {
        let ty = self.type_of_left_val(&expr.struct_id)?;
        let dtype = match ty {
            Ty::Concrete(d) => d,
            Ty::Var(_) => {
                return Err(Error::InvalidStructMemberExpression { expr: expr.copy() });
            },
        };
        let name = match dtype.struct_type_name() {
            Some(name) => name,
            None => {
                return Err(Error::InvalidStructMemberExpression { expr: expr.copy() });
            },
        };
        match self.registry.struct_types.get(name.as_str()) {
            Some(st) => match st.member(&expr.member_id) {
                Some(m) => Ok(Ty::Concrete(m.dtype.clone())),
                None => Err(Error::InvalidStructMemberExpression { expr: expr.copy() }),
            },
            None => Err(Error::InvalidStructMemberExpression { expr: expr.copy() }),
        }
    }

    fn type_of_expr_unit(&self, unit: &ExprUnit) -> (r: Result<Ty, Error>)
        requires
            self.wf(),
        ensures
            outcome(r) == unit_ty(self.site(), self.locals(), *unit),
            r matches Ok(t) ==> t@.within(self.uf@),
        decreases unit,
    {
        match &unit.inner {
            ExprUnitInner::Num(_) => Ok(Ty::Concrete(Dtype::I32)),
            ExprUnitInner::Id(id) => self.resolve_variable(id),
            ExprUnitInner::ArithExpr(e) => self.type_of_arith_expr(e),
            ExprUnitInner::FnCall(c) => self.type_of_fn_call(c),
            ExprUnitInner::ArrayExpr(e) => self.type_of_array_expr(e),
            ExprUnitInner::MemberExpr(e) => self.type_of_member_expr(e),
            ExprUnitInner::Reference(id) => self.type_of_reference(id),
        }
    }

    fn type_of_fn_call(&self, call: &FnCall) -> (r: Result<Ty, Error>)
        requires
            self.wf(),
        ensures
            outcome(r) == call_ty(self.site(), self.locals(), *call),
            r matches Ok(t) ==> t@.within(self.uf@),
        decreases call,
    {
        self.check_values(&call.vals)?;
        let name = call.qualified_name();
        match self.pending.get(name.as_str()) {
            Some(v) => {
                return Ok(Ty::Var(*v));
            },
            None => {},
        }
        match self.registry.function_types.get(name.as_str()) {
            Some(ft) => Ok(Ty::Concrete(ft.return_dtype.clone())),
            None => Err(Error::FunctionNotDefined { symbol: name }),
        }
    }

    fn check_values(&self, vals: &Vec<RightVal>) -> (r: Result<(), Error>)
        requires
            self.wf(),
        ensures
            done(r) == values_ok(self.site(), self.locals(), vals@),
        decreases vals,
    {
        let ghost k = self.site();
        let ghost env = self.locals();
        let mut i: usize = 0;
        assert(vals@.take(0) =~= Seq::empty());
        while i < vals.len()
            invariant
                i <= vals.len(),
                self.wf(),
                k == self.site(),
                env == self.locals(),
                values_ok(k, env, vals@.take(i as int)) == Ok::<(), ErrorModel>(()),
            decreases vals.len() - i,
        {
            proof {
                assert(vals@.take(i + 1).drop_last() =~= vals@.take(i as int));
                assert(vals@.take(i + 1).last() == vals@[i as int]);
                if values_ok(k, env, vals@.take(i + 1)) is Err {
                    lemma_values_stop(k, env, vals@, i + 1);
                }
            }
            self.type_of_right_val(&vals[i])?;
            i = i + 1;
        }
        assert(vals@.take(i as int) =~= vals@);
        Ok(())
    }

    fn type_of_arith_expr(&self, expr: &ArithExpr) -> (r: Result<Ty, Error>)
        requires
            self.wf(),
        ensures
            outcome(r) == arith_ty(self.site(), self.locals(), *expr),
            r matches Ok(t) ==> t@.within(self.uf@),
        decreases expr,
    {
        match &expr.inner {
            ArithExprInner::ArithBiOpExpr(b) => {
                self.type_of_arith_expr(&b.left)?;
                self.type_of_arith_expr(&b.right)?;
                Ok(Ty::Concrete(Dtype::I32))
            },
            ArithExprInner::ExprUnit(u) => self.type_of_expr_unit(u),
        }
    }

    fn type_of_right_val(&self, val: &RightVal) -> (r: Result<Ty, Error>)
        requires
            self.wf(),
        ensures
            outcome(r) == right_ty(self.site(), self.locals(), *val),
            r matches Ok(t) ==> t@.within(self.uf@),
        decreases val,
    {
        match &val.inner {
            RightValInner::ArithExpr(e) => self.type_of_arith_expr(e),
            RightValInner::BoolExpr(e) => {
                self.check_bool_expr(e)?;
                Ok(Ty::Concrete(Dtype::I32))
            },
        }
    }

    fn check_bool_expr(&self, expr: &BoolExpr) -> (r: Result<(), Error>)
        requires
            self.wf(),
        ensures
            done(r) == bool_ok(self.site(), self.locals(), *expr),
        decreases expr,
    {
        match &expr.inner {
            BoolExprInner::BoolBiOpExpr(b) => {
                self.check_bool_expr(&b.left)?;
                self.check_bool_expr(&b.right)
            },
            BoolExprInner::BoolUnit(u) => self.check_bool_unit(u),
        }
    }

    fn check_bool_unit(&self, unit: &BoolUnit) -> (r: Result<(), Error>)
        requires
            self.wf(),
        ensures
            done(r) == bool_unit_ok(self.site(), self.locals(), *unit),
        decreases unit,
    {
        match &unit.inner {
            BoolUnitInner::ComExpr(e) => {
                self.type_of_expr_unit(&e.left)?;
                self.type_of_expr_unit(&e.right)?;
                Ok(())
            },
            BoolUnitInner::BoolExpr(e) => self.check_bool_expr(e),
            BoolUnitInner::BoolUOpExpr(e) => self.check_bool_unit(&e.cond),
        }
    }

    /// Adds the constraint that two types are equal.
    fn constrain(&mut self, a: &Ty, b: &Ty, symbol: &String) -> (r: Result<(), Error>)
        requires
            old(self).wf(),
            a@.within(old(self).uf@),
            b@.within(old(self).uf@),
        ensures
            final(self).wf(),
            final(self).site() == old(self).site(),
            final(self).uf@.labels.len() == old(self).uf@.labels.len(),
            final(self).env == old(self).env,
            steps(
                r,
                final(self).progress(),
                constrained(old(self).progress(), a@, b@, symbol@),
            ),
    {
        proof {
            self.uf.lemma_wf();
            super::union_find::lemma_unified_agree(self.uf@, a@, b@, symbol@);
        }
        unify(&mut self.uf, a, b, symbol)
    }

    fn process_var_decl(&mut self, decl: &VarDecl)
        requires
            old(self).wf(),
        ensures
            final(self).wf(),
            final(self).site() == old(self).site(),
            final(self).uf@.labels.len() == old(self).uf@.labels.len(),
            final(self).progress() == after_decl(old(self).progress(), *decl),
    {
        proof {
            reveal_with_fuel(Dtype::model, 2);
        }
        let ty: Option<Ty> = match (&decl.type_specifier, &decl.inner) {
            (Some(ts), VarDeclInner::Scalar) => Some(Ty::Concrete(specified_dtype(ts))),
            (Some(ts), VarDeclInner::Array(a)) => Some(
                Ty::Concrete(Dtype::array_of(specified_dtype(ts), a.len)),
            ),
            (None, VarDeclInner::Array(a)) => Some(Ty::Concrete(Dtype::array_of(Dtype::I32, a.len))),
            (None, VarDeclInner::Scalar) => None,
        };
        match ty {
            Some(t) => {
                self.env.insert(decl.identifier.clone(), t);
            },
            None => {},
        }
    }

    fn check_array_initializer(&self, init: &ArrayInitializer) -> (r: Result<(), Error>)
        requires
            self.wf(),
        ensures
            done(r) == init_ok(self.site(), self.locals(), *init),
    {
        match init {
            ArrayInitializer::ExplicitList(vals) => self.check_values(vals),
            ArrayInitializer::Fill { val, .. } => {
                self.type_of_right_val(val)?;
                Ok(())
            },
        }
    }

    fn process_var_def(&mut self, def: &VarDef) -> (r: Result<(), Error>)
        requires
            old(self).wf(),
        ensures
            final(self).wf(),
            final(self).site() == old(self).site(),
            final(self).uf@.labels.len() == old(self).uf@.labels.len(),
            steps(
                r,
                final(self).progress(),
                after_def(old(self).site(), old(self).progress(), *def),
            ),
    {
        match &def.inner {
            VarDefInner::Scalar(s) => {
                let rhs = self.type_of_right_val(&s.val)?;
                match &def.type_specifier {
                    Some(ts) => {
                        let lhs = Ty::Concrete(specified_dtype(ts));
                        self.constrain(&lhs, &rhs, &def.identifier)?;
                        self.env.insert(def.identifier.clone(), lhs);
                    },
                    None => {
                        self.env.insert(def.identifier.clone(), rhs);
                    },
                }
            },
            VarDefInner::Array(a) => {
                let element = match &def.type_specifier {
                    Some(ts) => specified_dtype(ts),
                    None => Dtype::I32,
                };
                self.check_array_initializer(&a.initializer)?;
                self.env.insert(
                    def.identifier.clone(),
                    Ty::Concrete(Dtype::array_of(element, a.len)),
                );
            },
        }
        Ok(())
    }

    fn process_assignment(&mut self, stmt: &AssignmentStmt) -> (r: Result<(), Error>)
        requires
            old(self).wf(),
        ensures
            final(self).wf(),
            final(self).site() == old(self).site(),
            final(self).uf@.labels.len() == old(self).uf@.labels.len(),
            steps(
                r,
                final(self).progress(),
                after_assignment(old(self).site(), old(self).progress(), *stmt),
            ),
    {
        let rhs = self.type_of_right_val(&stmt.right_val)?;
        match &stmt.left_val.inner {
            LeftValInner::Id(id) => {
                let lhs: Option<Ty> = match self.env.get(id.as_str()) {
                    Some(t) => Some(t.clone()),
                    None => None,
                };
                match lhs {
                    Some(t) => {
                        self.constrain(&t, &rhs, id)?;
                    },
                    None => {
                        if !self.globals.contains_key(id.as_str()) {
                            self.env.insert(id.clone(), rhs);
                        }
                    },
                }
            },
            LeftValInner::ArrayExpr(e) => {
                self.type_of_array_expr(e)?;
            },
            LeftValInner::MemberExpr(e) => {
                self.type_of_member_expr(e)?;
            },
        }
        Ok(())
    }

    /// Merges two branches that began with the variables of `base`, which are
    /// the variables now.
    fn merge_branches(&mut self, env_a: &TyTable, env_b: &TyTable) -> (r: Result<(), Error>)
        requires
            old(self).wf(),
            env_a.wf(),
            env_b.wf(),
            all_within(env_a@, old(self).uf@),
            all_within(env_b@, old(self).uf@),
        ensures
            final(self).wf(),
            final(self).site() == old(self).site(),
            final(self).uf@.labels.len() == old(self).uf@.labels.len(),
            steps(
                r,
                final(self).progress(),
                merged_progress(old(self).uf@, old(self).locals(), env_a@, env_b@),
            ),
    {
        let base = copy_tys(&self.env);
        let ghost env = self.locals();
        let ghost k = self.site();
        let ghost store = self.uf@;
        proof {
            base.lemma_names();
        }
        let n: usize = base.len();
        let mut i: usize = 0;
        while i < n
            invariant
                i <= n,
                self.wf(),
                self.site() == k,
                base.wf(),
                tys_of(base) == env,
                env_a.wf(),
                env_b.wf(),
                all_within(env_a@, self.uf@),
                all_within(env_b@, self.uf@),
                all_within(env.tys, self.uf@),
                self.uf@.labels.len() == store.labels.len(),
                n == env.names.len(),
                env.names.no_duplicates(),
                forall|x: Seq<char>| #[trigger] env.names.contains(x) <==> env.tys.contains_key(x),
                self.locals().names == env.names,
                merged_tys(store, env, env_a@, env_b@, i as nat) == Ok::<
                    (Store, Map<Seq<char>, TyModel>),
                    ErrorModel,
                >((self.uf@, self.locals().tys)),
                env == old(self).locals(),
                k == old(self).site(),
                store == old(self).uf@,
            decreases n - i,
        {
            let name = base.name_at(i);
            let ty = base.value_at(i);
            proof {
                assert(env.names.contains(env.names[i as int]));
                if merged_tys(store, env, env_a@, env_b@, (i + 1) as nat) is Err {
                    lemma_merge_stops(store, env, env_a@, env_b@, (i + 1) as nat, n as nat);
                }
            }
            let a = match env_a.get(name.as_str()) {
                Some(t) => t,
                None => ty,
            };
            let b = match env_b.get(name.as_str()) {
                Some(t) => t,
                None => ty,
            };
            self.constrain(a, b, name)?;
            self.env.insert(name.clone(), a.clone());
            i = i + 1;
        }
        Ok(())
    }

    fn process_stmt(&mut self, stmt: &CodeBlockStmt) -> (r: Result<(), Error>)
        requires
            old(self).wf(),
        ensures
            final(self).wf(),
            final(self).site() == old(self).site(),
            final(self).uf@.labels.len() == old(self).uf@.labels.len(),
            steps(
                r,
                final(self).progress(),
                after_stmt(old(self).site(), old(self).progress(), *stmt),
            ),
        decreases stmt,
    {
        match &stmt.inner {
            CodeBlockStmtInner::VarDecl(s) => match &s.inner {
                VarDeclStmtInner::Decl(d) => {
                    self.process_var_decl(d);
                    Ok(())
                },
                VarDeclStmtInner::Def(d) => self.process_var_def(d),
            },
            CodeBlockStmtInner::Assignment(s) => self.process_assignment(s),
            CodeBlockStmtInner::If(s) => self.process_if(s),
            CodeBlockStmtInner::While(s) => self.process_while(s),
            CodeBlockStmtInner::Call(s) => {
                self.type_of_fn_call(&s.fn_call)?;
                Ok(())
            },
            CodeBlockStmtInner::Return(s) => self.process_return(s),
            CodeBlockStmtInner::Continue(_) => Ok(()),
            CodeBlockStmtInner::Break(_) => Ok(()),
            CodeBlockStmtInner::Null(_) => Ok(()),
        }
    }

    fn process_return(&mut self, stmt: &ReturnStmt) -> (r: Result<(), Error>)
        requires
            old(self).wf(),
        ensures
            final(self).wf(),
            final(self).site() == old(self).site(),
            final(self).uf@.labels.len() == old(self).uf@.labels.len(),
            steps(
                r,
                final(self).progress(),
                after_return(old(self).site(), old(self).progress(), *stmt),
            ),
    {
        let actual = match &stmt.val {
            Some(v) => self.type_of_right_val(v)?,
            None => Ty::Concrete(Dtype::Void),
        };
        match self.return_var {
            Some(v) => {
                let name = self.fn_name.clone();
                self.constrain(&Ty::Var(v), &actual, &name)
            },
            None => Ok(()),
        }
    }

    fn process_stmts(&mut self, stmts: &Vec<CodeBlockStmt>) -> (r: Result<(), Error>)
        requires
            old(self).wf(),
        ensures
            final(self).wf(),
            final(self).site() == old(self).site(),
            final(self).uf@.labels.len() == old(self).uf@.labels.len(),
            steps(
                r,
                final(self).progress(),
                after_stmts(old(self).site(), old(self).progress(), stmts@),
            ),
        decreases stmts,
    {
        let ghost k = self.site();
        let ghost p = self.progress();
        let mut i: usize = 0;
        assert(stmts@.take(0) =~= Seq::empty());
        while i < stmts.len()
            invariant
                i <= stmts.len(),
                self.wf(),
                self.site() == k,
                k == old(self).site(),
                p == old(self).progress(),
                self.uf@.labels.len() == old(self).uf@.labels.len(),
                after_stmts(k, p, stmts@.take(i as int)) == Ok::<Progress, ErrorModel>(
                    self.progress(),
                ),
            decreases stmts.len() - i,
        {
            proof {
                assert(stmts@.take(i + 1).drop_last() =~= stmts@.take(i as int));
                assert(stmts@.take(i + 1).last() == stmts@[i as int]);
                if after_stmts(k, p, stmts@.take(i + 1)) is Err {
                    lemma_stmts_stop(k, p, stmts@, i + 1);
                }
            }
            self.process_stmt(&stmts[i])?;
            i = i + 1;
        }
        assert(stmts@.take(i as int) =~= stmts@);
        Ok(())
    }

    fn process_if(&mut self, stmt: &IfStmt) -> (r: Result<(), Error>)
        requires
            old(self).wf(),
        ensures
            final(self).wf(),
            final(self).site() == old(self).site(),
            final(self).uf@.labels.len() == old(self).uf@.labels.len(),
            steps(
                r,
                final(self).progress(),
                after_if(old(self).site(), old(self).progress(), *stmt),
            ),
        decreases stmt,
    {
        self.check_bool_unit(&stmt.bool_unit)?;
        let mut then_env = copy_tys(&self.env);
        let mut else_env = copy_tys(&self.env);
        self.process_stmts(&stmt.if_stmts)?;
        std::mem::swap(&mut self.env, &mut then_env);
        match &stmt.else_stmts {
            Some(else_stmts) => {
                self.process_stmts(else_stmts)?;
            },
            None => {},
        }
        std::mem::swap(&mut self.env, &mut else_env);
        self.merge_branches(&then_env, &else_env)
    }

    fn process_while(&mut self, stmt: &WhileStmt) -> (r: Result<(), Error>)
        requires
            old(self).wf(),
        ensures
            final(self).wf(),
            final(self).site() == old(self).site(),
            final(self).uf@.labels.len() == old(self).uf@.labels.len(),
            steps(
                r,
                final(self).progress(),
                after_while(old(self).site(), old(self).progress(), *stmt),
            ),
        decreases stmt,
    {
        self.check_bool_unit(&stmt.bool_unit)?;
        let mut body_env = copy_tys(&self.env);
        let before_env = copy_tys(&self.env);
        self.process_stmts(&stmt.stmts)?;
        std::mem::swap(&mut self.env, &mut body_env);
        self.merge_branches(&before_env, &body_env)
    }
}

fn collect_constraints(
    registry: &Registry,
    globals: &NameMap<GlobalDef>,
    pending: &NameMap<usize>,
    uf: UnionFind,
    fn_def: &FnDef,
) -> (r: Result<UnionFind, Error>)
    requires
        registry.wf(),
        globals.wf(),
        pending.wf(),
        uf.wf(),
        pending_within(pending@, uf@),
    ensures
        match r {
            Ok(u) => u.wf() && u@.labels.len() == uf@.labels.len() && collected_fn(
                known_of(*registry, *globals),
                pending@,
                uf@,
                *fn_def,
            ) == Ok::<Store, ErrorModel>(u@),
            Err(e) => collected_fn(known_of(*registry, *globals), pending@, uf@, *fn_def) == Err::<
                Store,
                ErrorModel,
            >(e@),
        },
{
    let ghost all = signature_decls(*fn_def.fn_decl);
    let mut env: TyTable = NameMap::new();
    assert(tys_of(env) =~= parameter_tys(Seq::empty()));
    match &fn_def.fn_decl.param_decl {
        Some(params) => {
            let decls = &params.decls;
            let mut i: usize = 0;
            assert(all.take(0) =~= Seq::empty());
            while i < decls.len()
                invariant
                    i <= decls.len(),
                    all == decls@,
                    env.wf(),
                    tys_of(env) == parameter_tys(all.take(i as int)),
                    forall|x: Seq<char>| #[trigger] env@.contains_key(x) ==> env@[x] is Concrete,
                decreases decls.len() - i,
            {
                proof {
                    assert(all.take(i + 1).drop_last() =~= all.take(i as int));
                    assert(all.take(i + 1).last() == all[i as int]);
                }
                let d = &decls[i];
                env.insert(d.identifier.clone(), Ty::Concrete(var_decl_dtype(d)));
                i = i + 1;
            }
            assert(all.take(i as int) =~= all);
        },
        None => {},
    }
    let return_var: Option<usize> = match pending.get(fn_def.fn_decl.identifier.as_str()) {
        Some(v) => Some(*v),
        None => None,
    };
    let mut ctx = Collector {
        registry,
        globals,
        pending,
        uf,
        fn_name: fn_def.fn_decl.identifier.clone(),
        return_var,
        env,
    };
    assert(ctx.site() == site_of(known_of(*registry, *globals), pending@, *fn_def));
    ctx.process_stmts(&fn_def.stmts)?;
    Ok(ctx.uf)
}

/// The variables of the functions without a return type are those of the store.
pub proof fn lemma_seeded(elements: Seq<ProgramElement>)
    requires
        elements.len() <= usize::MAX,
    ensures
        seeded(elements).store.labels.len() <= elements.len(),
        seeded(elements).store.consistent(),
        pending_within(seeded(elements).vars, seeded(elements).store),
    decreases elements.len(),
{
    if elements.len() > 0 {
        lemma_seeded(elements.drop_last());
        super::union_find::lemma_fresh_consistent(seeded(elements.drop_last()).store);
    }
}

/// Finds the return types that functions leave out and puts them into the
/// registry.
pub fn resolve_return_types(
    registry: &mut Registry,
    elements: &Vec<ProgramElement>,
    globals: &NameMap<GlobalDef>,
) -> (r: Result<(), Error>)
    requires
        old(registry).wf(),
        globals.wf(),
    ensures
        final(registry).wf(),
        final(registry).struct_types == old(registry).struct_types,
        final(registry).link_names == old(registry).link_names,
        final(registry).function_types.names() == old(registry).function_types.names(),
        match r {
            Ok(_) => inferred(known_of(*old(registry), *globals), elements@) == Ok::<
                Map<Seq<char>, FunctionTypeModel>,
                ErrorModel,
            >(final(registry).function_types@),
            Err(e) => inferred(known_of(*old(registry), *globals), elements@) == Err::<
                Map<Seq<char>, FunctionTypeModel>,
                ErrorModel,
            >(e@) && final(registry).function_types@ == inferred_left(
                known_of(*old(registry), *globals),
                elements@,
            ),
        },
{
    let ghost known = known_of(*registry, *globals);
    let ghost es = elements@;
    let mut uf = UnionFind::new();
    let mut pending: NameMap<usize> = NameMap::new();
    let mut i: usize = 0;
    assert(es.take(0) =~= Seq::empty());
    while i < elements.len()
        invariant
            i <= elements.len(),
            es == elements@,
            uf.wf(),
            pending.wf(),
            pending.names() == seeded(es.take(i as int)).names,
            pending@ == seeded(es.take(i as int)).vars,
            uf@ == seeded(es.take(i as int)).store,
        decreases elements.len() - i,
    {
        proof {
            assert(es.take(i + 1).drop_last() =~= es.take(i as int));
            assert(es.take(i + 1).last() == es[i as int]);
        }
        match &elements[i].inner {
            ProgramElementInner::FnDef(f) => {
                if f.fn_decl.return_dtype.is_none() {
                    let id: usize = uf.fresh();
                    pending.insert(f.fn_decl.identifier.clone(), id);
                }
            },
            _ => {},
        }
        i = i + 1;
    }
    let ghost seeds = seeded(es);
    proof {
        assert(es.take(i as int) =~= es);
        lemma_seeded(es);
        pending.lemma_names();
    }
    if pending.len() == 0 {
        return Ok(());
    }
    let ghost start = uf@;
    let mut i: usize = 0;
    assert(es.take(0) =~= Seq::empty());
    while i < elements.len()
        invariant
            i <= elements.len(),
            es == elements@,
            registry.wf(),
            globals.wf(),
            *registry == *old(registry),
            known == known_of(*registry, *globals),
            uf.wf(),
            pending.wf(),
            pending@ == seeds.vars,
            start == seeds.store,
            uf@.labels.len() == start.labels.len(),
            pending_within(pending@, uf@),
            seeds == seeded(es),
            seeds.names.len() > 0,
            collected(known, seeds.vars, start, es.take(i as int)) == Ok::<Store, ErrorModel>(uf@),
        decreases elements.len() - i,
    {
        proof {
            assert(es.take(i + 1).drop_last() =~= es.take(i as int));
            assert(es.take(i + 1).last() == es[i as int]);
            if collected(known, seeds.vars, start, es.take(i + 1)) is Err {
                lemma_collected_stops(known, seeds.vars, start, es, i + 1);
            }
        }
        match &elements[i].inner {
            ProgramElementInner::FnDef(f) => {
                uf = collect_constraints(registry, globals, &pending, uf, f)?;
            },
            _ => {},
        }
        i = i + 1;
    }
    assert(es.take(i as int) =~= es);
    let ghost store = uf@;
    let n: usize = pending.len();
    let mut k: usize = 0;
    while k < n
        invariant
            k <= n,
            n == seeds.names.len(),
            pending.wf(),
            pending.names() == seeds.names,
            pending@ == seeds.vars,
            uf.wf(),
            uf@ == store,
            pending_within(pending@, store),
            registry.wf(),
            registry.struct_types == old(registry).struct_types,
            registry.link_names == old(registry).link_names,
            registry.function_types.names() == old(registry).function_types.names(),
            filled_in(known.functions, seeds, store, k as nat) == Ok::<
                Map<Seq<char>, FunctionTypeModel>,
                ErrorModel,
            >(registry.function_types@),
            inferred(known, es) == filled_in(known.functions, seeds, store, n as nat),
            inferred_left(known, es) == filled_left(known.functions, seeds, store, n as nat),
            known == known_of(*old(registry), *globals),
            es == elements@,
        decreases n - k,
    {
        proof {
            if filled_in(known.functions, seeds, store, (k + 1) as nat) is Err {
                lemma_filled_stops(known.functions, seeds, store, (k + 1) as nat, n as nat);
            }
            pending.lemma_names();
            registry.function_types.lemma_names();
        }
        let name = pending.name_at(k);
        let var: usize = *pending.value_at(k);
        let dtype = match uf.resolve(var) {
            Some(d) => d,
            None => Dtype::Void,
        };
        let fits = match &dtype {
            Dtype::Void | Dtype::I32 => true,
            _ => false,
        };
        if !fits {
            return Err(Error::UnsupportedReturnType { symbol: name.clone() });
        }
        let arguments = match registry.function_types.get(name.as_str()) {
            Some(t) => copy_parameters(&t.arguments),
            None => {
                return Err(Error::FunctionNotDefined { symbol: name.clone() });
            },
        };
        registry.function_types.insert(
            name.clone(),
            FunctionType { return_dtype: dtype, arguments },
        );
        k = k + 1;
    }
    Ok(())
}

/// The pass that finds the return types that functions leave out.
pub struct ReturnInferPass;

proof fn lemma_filled_in_sound(
    types: Map<Seq<char>, FunctionTypeModel>,
    seeds: Seeds,
    store: Store,
    n: nat,
)
    requires
        forall|f: Seq<char>| #[trigger]
            types.contains_key(f) ==> returnable(types[f].return_dtype),
    ensures
        filled_in(types, seeds, store, n) matches Ok(m) ==> m.dom() == types.dom() && forall|
            f: Seq<char>,
        | #[trigger]
            m.contains_key(f) ==> returnable(m[f].return_dtype),
    decreases n,
{
    if n > 0 {
        lemma_filled_in_sound(types, seeds, store, (n - 1) as nat);
        if let Ok(m) = filled_in(types, seeds, store, n) {
            assert(m.dom() =~= types.dom());
        }
    }
}

/// Inference knows the same functions before and after, and all of them
/// return nothing or an integer.
pub proof fn lemma_inferred_sound(known: Known, elements: Seq<ProgramElement>)
    requires
        forall|f: Seq<char>| #[trigger]
            known.functions.contains_key(f) ==> returnable(known.functions[f].return_dtype),
    ensures
        inferred(known, elements) matches Ok(m) ==> m.dom() == known.functions.dom() && forall|
            f: Seq<char>,
        | #[trigger]
            m.contains_key(f) ==> returnable(m[f].return_dtype),
{
    let seeds = seeded(elements);
    if let Ok(store) = collected(known, seeds.vars, seeds.store, elements) {
        lemma_filled_in_sound(known.functions, seeds, store, seeds.names.len());
    }
}

impl ModulePass for ReturnInferPass {
    open spec fn outcome(&self, input: Program, before: Unit) -> Result<Unit, ErrorModel> {
        match inferred(known(before), input.elements@) {
            Err(e) => Err(e),
            Ok(functions) => Ok(Unit { functions, ..before }),
        }
    }

    open spec fn left(&self, input: Program, before: Unit) -> Unit {
        Unit { functions: inferred_left(known(before), input.elements@), ..before }
    }

    fn run<Q>(&self, gen: &mut IrGenerator<'_, Q>) -> (r: Result<(), Error>) {
        let ghost before = gen.unit();
        proof {
            lemma_inferred_sound(known(before), gen.input.elements@);
            assert(known_of(gen.registry, gen.module.global_list) == known(before));
        }
        let r = resolve_return_types(
            &mut gen.registry,
            &gen.input.elements,
            &gen.module.global_list,
        );
        proof {
            assert(gen.unit() =~= (Unit { functions: gen.registry.function_types@, ..before }));
        }
        r
    }
}

} // verus!
