//! Inference of the types of local variables.
//!
//! Statements are walked in order.  A variable declared without a type is
//! pending until the first assignment to it; branches are walked on their own
//! and then merged.

use crate::ast::decl::{ArrayInitializer, FnDef, VarDecl, VarDeclInner, VarDeclStmtInner, VarDef, VarDefInner};
use crate::ast::expr::{
    ArithExpr, ArithExprInner, ArrayExpr, BoolExpr, BoolExprInner, BoolUnit, BoolUnitInner,
    ExprUnit, ExprUnitInner, FnCall, LeftVal, LeftValInner, MemberExpr, RightVal, RightValInner,
};
use crate::ast::stmt::{
    AssignmentStmt, CodeBlockStmt, CodeBlockStmtInner, IfStmt, ReturnStmt, WhileStmt,
};
use crate::common::names::{with_name, NameMap};
use crate::ir::error::{Error, ErrorModel};
use crate::ir::gen::conversions::{
    outcome, signature_decls, specified, specified_dtype, var_decl_dtype, var_decl_type,
};
use crate::ir::gen::function_gen::done;
use crate::ir::module::Registry;
use crate::ir::types::{find_member, Dtype, DtypeModel, FunctionTypeModel, MemberModel};
use crate::ir::value::{GlobalDef, GlobalDefModel};
use vstd::prelude::*;

verus! {

/// What is known of a local variable.
#[derive(Debug)]
pub enum VarState {
    /// Its type.
    Resolved(Dtype),
    /// Nothing yet.
    Pending,
}

impl View for VarState {
    type V = Option<DtypeModel>;

    open spec fn view(&self) -> Option<DtypeModel> {
        match *self {
            VarState::Resolved(d) => Some(d@),
            VarState::Pending => None,
        }
    }
}

impl Clone for VarState {
    fn clone(&self) -> (copy: Self)
        ensures
            copy@ == self@,
    {
        match self {
            VarState::Resolved(d) => VarState::Resolved(d.clone()),
            VarState::Pending => VarState::Pending,
        }
    }
}

/// The declarations outside of the function.
pub struct Known {
    pub structs: Map<Seq<char>, Seq<MemberModel>>,
    pub functions: Map<Seq<char>, FunctionTypeModel>,
    pub globals: Map<Seq<char>, GlobalDefModel>,
}

/// The local variables, in the order in which they were first declared; those
/// without a type are pending.
#[verifier::ext_equal]
pub struct Env {
    pub names: Seq<Seq<char>>,
    pub states: Map<Seq<char>, Option<DtypeModel>>,
}

impl Env {
    /// The environment with the variable in the given state.
    pub open spec fn with(self, name: Seq<char>, state: Option<DtypeModel>) -> Env {
        Env { names: with_name(self.names, name), states: self.states.insert(name, state) }
    }
}

/// The type of the variable `id`: local variables come before global ones.
pub open spec fn name_type(k: Known, env: Env, id: Seq<char>) -> Result<DtypeModel, ErrorModel> {
    if env.states.contains_key(id) {
        match env.states[id] {
            Some(d) => Ok(d),
            None => Err(ErrorModel::TypeNotDetermined { symbol: id }),
        }
    } else if k.globals.contains_key(id) {
        Ok(k.globals[id].dtype)
    } else {
        Err(ErrorModel::VariableNotDefined { symbol: id })
    }
}

/// The type of a variable as a value: arrays count as their elements.
pub open spec fn variable_type(k: Known, env: Env, id: Seq<char>) -> Result<DtypeModel, ErrorModel> {
    match name_type(k, env, id) {
        Ok(DtypeModel::Array(element, _)) => Ok(*element),
        other => other,
    }
}

/// The element type of an array or of a pointer to one.
pub open spec fn array_elements(d: DtypeModel) -> Option<DtypeModel> {
    match d {
        DtypeModel::Array(element, _) => Some(*element),
        DtypeModel::Pointer(p) => match *p {
            DtypeModel::Array(element, _) => Some(*element),
            _ => None,
        },
        _ => None,
    }
}

/// The type of an element of something of type `d`; what is not an array
/// counts as its own element.
pub open spec fn element_of(d: DtypeModel) -> DtypeModel {
    match array_elements(d) {
        Some(e) => e,
        None => d,
    }
}

/// The type of a reference to `id`.
pub open spec fn reference_type(k: Known, env: Env, id: Seq<char>) -> Result<DtypeModel, ErrorModel> {
    match name_type(k, env, id) {
        Err(e) => Err(e),
        Ok(d) => match array_elements(d) {
            Some(e) => Ok(e.array(None).pointer()),
            None => Err(ErrorModel::InvalidReference { symbol: id }),
        },
    }
}

/// The type of a place.
pub open spec fn place_type(k: Known, env: Env, p: LeftVal) -> Result<DtypeModel, ErrorModel>
    decreases p,
{
    match p.inner {
        LeftValInner::Id(id) => name_type(k, env, id@),
        LeftValInner::ArrayExpr(e) => element_type(k, env, *e),
        LeftValInner::MemberExpr(e) => member_type(k, env, *e),
    }
}

/// The type of an array element.
pub open spec fn element_type(k: Known, env: Env, e: ArrayExpr) -> Result<DtypeModel, ErrorModel>
    decreases e,
{
    match place_type(k, env, *e.arr) {
        Err(x) => Err(x),
        Ok(d) => Ok(element_of(d)),
    }
}

/// The type of the member `name` of something of type `d`.
pub open spec fn type_of_member(k: Known, d: DtypeModel, name: Seq<char>) -> Option<DtypeModel> {
    match d.struct_name() {
        None => None,
        Some(s) => if k.structs.contains_key(s) {
            match find_member(k.structs[s], name, 0) {
                Some(m) => Some(m.dtype),
                None => None,
            }
        } else {
            None
        },
    }
}

/// The type of a struct member.
pub open spec fn member_type(k: Known, env: Env, e: MemberExpr) -> Result<DtypeModel, ErrorModel>
    decreases e,
{
    match place_type(k, env, *e.struct_id) {
        Err(x) => Err(x),
        Ok(d) => match type_of_member(k, d, e.member_id@) {
            Some(t) => Ok(t),
            None => Err(ErrorModel::InvalidStructMemberExpression { expr: e }),
        },
    }
}

/// The type of an atomic expression.
pub open spec fn unit_type(k: Known, env: Env, u: ExprUnit) -> Result<DtypeModel, ErrorModel>
    decreases u,
{
    match u.inner {
        ExprUnitInner::Num(_) => Ok(DtypeModel::I32),
        ExprUnitInner::Id(id) => variable_type(k, env, id@),
        ExprUnitInner::ArithExpr(e) => arith_type(k, env, *e),
        ExprUnitInner::FnCall(c) => call_type(k, env, *c),
        ExprUnitInner::ArrayExpr(e) => element_type(k, env, *e),
        ExprUnitInner::MemberExpr(e) => member_type(k, env, *e),
        ExprUnitInner::Reference(id) => reference_type(k, env, id@),
    }
}

/// The type of a call: its arguments have types, and the function is known.
pub open spec fn call_type(k: Known, env: Env, c: FnCall) -> Result<DtypeModel, ErrorModel>
    decreases c,
{
    match values_typed(k, env, c.vals@) {
        Err(x) => Err(x),
        Ok(_) => if k.functions.contains_key(c.callee()) {
            Ok(k.functions[c.callee()].return_dtype)
        } else {
            Err(ErrorModel::FunctionNotDefined { symbol: c.callee() })
        },
    }
}

/// All values have types.
pub open spec fn values_typed(k: Known, env: Env, vals: Seq<RightVal>) -> Result<(), ErrorModel>
    decreases vals,
{
    if vals.len() == 0 {
        Ok(())
    } else {
        match values_typed(k, env, vals.drop_last()) {
            Err(x) => Err(x),
            Ok(_) => match right_type(k, env, vals.last()) {
                Err(x) => Err(x),
                Ok(_) => Ok(()),
            },
        }
    }
}

/// The type of an arithmetic expression.
pub open spec fn arith_type(k: Known, env: Env, e: ArithExpr) -> Result<DtypeModel, ErrorModel>
    decreases e,
{
    match e.inner {
        ArithExprInner::ArithBiOpExpr(b) => match arith_type(k, env, *b.left) {
            Err(x) => Err(x),
            Ok(_) => match arith_type(k, env, *b.right) {
                Err(x) => Err(x),
                Ok(_) => Ok(DtypeModel::I32),
            },
        },
        ArithExprInner::ExprUnit(u) => unit_type(k, env, *u),
    }
}

/// The type of a right-hand side.
pub open spec fn right_type(k: Known, env: Env, v: RightVal) -> Result<DtypeModel, ErrorModel>
    decreases v,
{
    match v.inner {
        RightValInner::ArithExpr(e) => arith_type(k, env, *e),
        RightValInner::BoolExpr(e) => match bool_typed(k, env, *e) {
            Err(x) => Err(x),
            Ok(_) => Ok(DtypeModel::I32),
        },
    }
}

/// The parts of a boolean expression have types.
pub open spec fn bool_typed(k: Known, env: Env, e: BoolExpr) -> Result<(), ErrorModel>
    decreases e,
{
    match e.inner {
        BoolExprInner::BoolBiOpExpr(b) => match bool_typed(k, env, *b.left) {
            Err(x) => Err(x),
            Ok(_) => bool_typed(k, env, *b.right),
        },
        BoolExprInner::BoolUnit(u) => bool_unit_typed(k, env, *u),
    }
}

/// The parts of an atomic boolean expression have types.
pub open spec fn bool_unit_typed(k: Known, env: Env, u: BoolUnit) -> Result<(), ErrorModel>
    decreases u,
{
    match u.inner {
        BoolUnitInner::ComExpr(c) => match unit_type(k, env, *c.left) {
            Err(x) => Err(x),
            Ok(_) => match unit_type(k, env, *c.right) {
                Err(x) => Err(x),
                Ok(_) => Ok(()),
            },
        },
        BoolUnitInner::BoolExpr(e) => bool_typed(k, env, *e),
        BoolUnitInner::BoolUOpExpr(o) => bool_unit_typed(k, env, *o.cond),
    }
}

/// Two types agree.
pub open spec fn compatible(symbol: Seq<char>, expected: DtypeModel, actual: DtypeModel) -> Result<
    (),
    ErrorModel,
> {
    if expected == actual {
        Ok(())
    } else {
        Err(ErrorModel::TypeMismatch { symbol, expected, actual })
    }
}

/// What a declaration tells of its variable.
pub open spec fn declared_state(d: VarDecl) -> Option<DtypeModel> {
    match (d.type_specifier, d.inner) {
        (Some(ts), VarDeclInner::Scalar) => Some(specified(ts)),
        (Some(ts), VarDeclInner::Array(a)) => Some(specified(ts).array(Some(a.len as nat))),
        (None, VarDeclInner::Array(a)) => Some(DtypeModel::I32.array(Some(a.len as nat))),
        (None, VarDeclInner::Scalar) => None,
    }
}

/// The parts of an initializer have types.
pub open spec fn init_typed(k: Known, env: Env, init: ArrayInitializer) -> Result<(), ErrorModel> {
    match init {
        ArrayInitializer::ExplicitList(vals) => values_typed(k, env, vals@),
        ArrayInitializer::Fill { val, .. } => match right_type(k, env, *val) {
            Err(x) => Err(x),
            Ok(_) => Ok(()),
        },
    }
}

/// A definition: a type that is given must agree with the value, and one that
/// is not is that of the value.
pub open spec fn def_types(k: Known, env: Env, d: VarDef) -> Result<Env, ErrorModel> {
    match d.inner {
        VarDefInner::Scalar(s) => match right_type(k, env, *s.val) {
            Err(x) => Err(x),
            Ok(t) => match d.type_specifier {
                Some(ts) => match compatible(d.identifier@, specified(ts), t) {
                    Err(x) => Err(x),
                    Ok(_) => Ok(env.with(d.identifier@, Some(specified(ts)))),
                },
                None => Ok(env.with(d.identifier@, Some(t))),
            },
        },
        VarDefInner::Array(a) => match init_typed(k, env, a.initializer) {
            Err(x) => Err(x),
            Ok(_) => {
                let element = match d.type_specifier {
                    Some(ts) => specified(ts),
                    None => DtypeModel::I32,
                };
                Ok(env.with(d.identifier@, Some(element.array(Some(a.len as nat)))))
            },
        },
    }
}

/// An assignment: a pending variable gets the type of the value, and any
/// other must agree with it.
pub open spec fn assignment_types(k: Known, env: Env, a: AssignmentStmt) -> Result<
    Env,
    ErrorModel,
> {
    match right_type(k, env, *a.right_val) {
        Err(x) => Err(x),
        Ok(t) => match a.left_val.inner {
            LeftValInner::Id(id) => if env.states.contains_key(id@) {
                match env.states[id@] {
                    None => Ok(env.with(id@, Some(t))),
                    Some(expected) => match compatible(id@, expected, t) {
                        Err(x) => Err(x),
                        Ok(_) => Ok(env),
                    },
                }
            } else {
                Ok(env)
            },
            LeftValInner::ArrayExpr(e) => match element_type(k, env, *e) {
                Err(x) => Err(x),
                Ok(_) => Ok(env),
            },
            LeftValInner::MemberExpr(e) => match member_type(k, env, *e) {
                Err(x) => Err(x),
                Ok(_) => Ok(env),
            },
        },
    }
}

/// What is known of a variable after one of two branches.
pub open spec fn merged_state(
    name: Seq<char>,
    a: Option<DtypeModel>,
    b: Option<DtypeModel>,
) -> Result<Option<DtypeModel>, ErrorModel> {
    match (a, b) {
        (None, None) => Ok(None),
        (Some(t), None) => Ok(Some(t)),
        (None, Some(t)) => Ok(Some(t)),
        (Some(x), Some(y)) => if x == y {
            Ok(Some(x))
        } else {
            Err(ErrorModel::TypeMismatch { symbol: name, expected: x, actual: y })
        },
    }
}

/// The state of `name` at the end of a branch that began in `env`.
pub open spec fn branch_state(
    env: Env,
    branch: Map<Seq<char>, Option<DtypeModel>>,
    name: Seq<char>,
) -> Option<DtypeModel> {
    if branch.contains_key(name) {
        branch[name]
    } else {
        env.states[name]
    }
}

/// The states of the first `n` variables merged.
pub open spec fn merged_states(
    env: Env,
    a: Map<Seq<char>, Option<DtypeModel>>,
    b: Map<Seq<char>, Option<DtypeModel>>,
    n: nat,
) -> Result<Map<Seq<char>, Option<DtypeModel>>, ErrorModel>
    decreases n,
{
    if n == 0 {
        Ok(env.states)
    } else {
        let name = env.names[n - 1];
        match merged_states(env, a, b, (n - 1) as nat) {
            Err(x) => Err(x),
            Ok(states) => match merged_state(
                name,
                branch_state(env, a, name),
                branch_state(env, b, name),
            ) {
                Err(x) => Err(x),
                Ok(s) => Ok(states.insert(name, s)),
            },
        }
    }
}

/// The environment after one of two branches: names that a branch introduces
/// are gone.
pub open spec fn merged(
    env: Env,
    a: Map<Seq<char>, Option<DtypeModel>>,
    b: Map<Seq<char>, Option<DtypeModel>>,
) -> Result<Env, ErrorModel> {
    match merged_states(env, a, b, env.names.len()) {
        Err(x) => Err(x),
        Ok(states) => Ok(Env { names: env.names, states }),
    }
}

/// The environment after a statement.
pub open spec fn stmt_types(k: Known, env: Env, s: CodeBlockStmt) -> Result<Env, ErrorModel>
    decreases s,
{
    match s.inner {
        CodeBlockStmtInner::VarDecl(v) => match v.inner {
            VarDeclStmtInner::Decl(d) => Ok(env.with(d.identifier@, declared_state(*d))),
            VarDeclStmtInner::Def(d) => def_types(k, env, *d),
        },
        CodeBlockStmtInner::Assignment(a) => assignment_types(k, env, *a),
        CodeBlockStmtInner::If(i) => if_types(k, env, *i),
        CodeBlockStmtInner::While(w) => while_types(k, env, *w),
        CodeBlockStmtInner::Call(c) => match values_typed(k, env, c.fn_call.vals@) {
            Err(x) => Err(x),
            Ok(_) => Ok(env),
        },
        CodeBlockStmtInner::Return(r) => match r.val {
            Some(v) => match right_type(k, env, *v) {
                Err(x) => Err(x),
                Ok(_) => Ok(env),
            },
            None => Ok(env),
        },
        _ => Ok(env),
    }
}

/// The environment after a list of statements.
pub open spec fn stmts_types(k: Known, env: Env, stmts: Seq<CodeBlockStmt>) -> Result<
    Env,
    ErrorModel,
>
    decreases stmts,
{
    if stmts.len() == 0 {
        Ok(env)
    } else {
        match stmts_types(k, env, stmts.drop_last()) {
            Err(x) => Err(x),
            Ok(e) => stmt_types(k, e, stmts.last()),
        }
    }
}

/// The environment at the end of an else branch.
pub open spec fn else_types(k: Known, env: Env, branch: Option<Vec<CodeBlockStmt>>) -> Result<
    Env,
    ErrorModel,
>
    decreases branch,
{
    match branch {
        Some(stmts) => stmts_types(k, env, stmts@),
        None => Ok(env),
    }
}

/// The environment after a conditional.
pub open spec fn if_types(k: Known, env: Env, i: IfStmt) -> Result<Env, ErrorModel>
    decreases i,
{
    match bool_unit_typed(k, env, *i.bool_unit) {
        Err(x) => Err(x),
        Ok(_) => match stmts_types(k, env, i.if_stmts@) {
            Err(x) => Err(x),
            Ok(a) => match else_types(k, env, i.else_stmts) {
                Err(x) => Err(x),
                Ok(b) => merged(env, a.states, b.states),
            },
        },
    }
}

/// The environment after a loop, whose body may not run at all.
pub open spec fn while_types(k: Known, env: Env, w: WhileStmt) -> Result<Env, ErrorModel>
    decreases w,
{
    match bool_unit_typed(k, env, *w.bool_unit) {
        Err(x) => Err(x),
        Ok(_) => match stmts_types(k, env, w.stmts@) {
            Err(x) => Err(x),
            Ok(b) => merged(env, env.states, b.states),
        },
    }
}

/// The environment of the parameters.
pub open spec fn parameter_env(decls: Seq<VarDecl>) -> Env
    decreases decls.len(),
{
    if decls.len() == 0 {
        Env { names: Seq::empty(), states: Map::empty() }
    } else {
        parameter_env(decls.drop_last()).with(
            decls.last().identifier@,
            Some(var_decl_type(decls.last())),
        )
    }
}

/// The types of the first `n` variables: none may be pending.
pub open spec fn determined(env: Env, n: nat) -> Result<Map<Seq<char>, DtypeModel>, ErrorModel>
    decreases n,
{
    if n == 0 {
        Ok(Map::empty())
    } else {
        let name = env.names[n - 1];
        match determined(env, (n - 1) as nat) {
            Err(x) => Err(x),
            Ok(types) => match env.states[name] {
                Some(d) => Ok(types.insert(name, d)),
                None => Err(ErrorModel::TypeNotDetermined { symbol: name }),
            },
        }
    }
}

/// The types of all local variables of a function.
pub open spec fn function_types(k: Known, f: FnDef) -> Result<
    Map<Seq<char>, DtypeModel>,
    ErrorModel,
> {
    match stmts_types(k, parameter_env(signature_decls(*f.fn_decl)), f.stmts@) {
        Err(x) => Err(x),
        Ok(env) => determined(env, env.names.len()),
    }
}

proof fn lemma_values_stop(k: Known, env: Env, vals: Seq<RightVal>, i: int)
    requires
        0 <= i <= vals.len(),
        values_typed(k, env, vals.take(i)) is Err,
    ensures
        values_typed(k, env, vals) == values_typed(k, env, vals.take(i)),
    decreases vals.len() - i,
{
    if i < vals.len() {
        assert(vals.take(i + 1).drop_last() =~= vals.take(i));
        lemma_values_stop(k, env, vals, i + 1);
    } else {
        assert(vals.take(i) =~= vals);
    }
}

proof fn lemma_stmts_stop(k: Known, env: Env, stmts: Seq<CodeBlockStmt>, i: int)
    requires
        0 <= i <= stmts.len(),
        stmts_types(k, env, stmts.take(i)) is Err,
    ensures
        stmts_types(k, env, stmts) == stmts_types(k, env, stmts.take(i)),
    decreases stmts.len() - i,
{
    if i < stmts.len() {
        assert(stmts.take(i + 1).drop_last() =~= stmts.take(i));
        lemma_stmts_stop(k, env, stmts, i + 1);
    } else {
        assert(stmts.take(i) =~= stmts);
    }
}

proof fn lemma_merge_stops(
    env: Env,
    a: Map<Seq<char>, Option<DtypeModel>>,
    b: Map<Seq<char>, Option<DtypeModel>>,
    i: nat,
    n: nat,
)
    requires
        i <= n,
        merged_states(env, a, b, i) is Err,
    ensures
        merged_states(env, a, b, n) == merged_states(env, a, b, i),
    decreases n,
{
    if i < n {
        lemma_merge_stops(env, a, b, i, (n - 1) as nat);
    }
}

proof fn lemma_determined_stops(env: Env, i: nat, n: nat)
    requires
        i <= n,
        determined(env, i) is Err,
    ensures
        determined(env, n) == determined(env, i),
    decreases n,
{
    if i < n {
        lemma_determined_stops(env, i, (n - 1) as nat);
    }
}

/// A branch that ends as it began changes nothing.
pub proof fn lemma_merge_with_itself(env: Env, n: nat)
    requires
        n <= env.names.len(),
        forall|i: int|
            0 <= i < env.names.len() ==> env.states.contains_key(#[trigger] env.names[i]),
    ensures
        merged_states(env, env.states, env.states, n) == Ok::<
            Map<Seq<char>, Option<DtypeModel>>,
            ErrorModel,
        >(env.states),
    decreases n,
{
    if n > 0 {
        lemma_merge_with_itself(env, (n - 1) as nat);
        let name = env.names[n - 1];
        assert(env.states.contains_key(name));
        assert(env.states.insert(name, env.states[name]) =~= env.states);
    }
}

/// A table of local variables.
pub type TypeEnv = NameMap<VarState>;

/// The model of a table.
pub open spec fn env_of(t: TypeEnv) -> Env {
    Env { names: t.names(), states: t@ }
}

fn copy_env(t: &TypeEnv) -> (copy: TypeEnv)
    requires
        t.wf(),
    ensures
        copy.wf(),
        env_of(copy) == env_of(*t),
{
    let mut copy: TypeEnv = NameMap::new();
    let ghost names = t.names();
    proof {
        t.lemma_names();
    }
    let n: usize = t.len();
    let mut i: usize = 0;
    assert(names.take(0) =~= Seq::empty());
    while i < n
        invariant
            i <= n,
            t.wf(),
            names == t.names(),
            n == names.len(),
            names.no_duplicates(),
            copy.wf(),
            copy.names() == names.take(i as int),
            forall|x: Seq<char>| #[trigger]
                copy@.contains_key(x) <==> names.take(i as int).contains(x),
            forall|x: Seq<char>| #[trigger] copy@.contains_key(x) ==> copy@[x] == t@[x],
        decreases n - i,
    {
        let ghost before_names = copy.names();
        let ghost name = names[i as int];
        proof {
            if names.take(i as int).contains(name) {
                let j = choose|j: int|
                    0 <= j < names.take(i as int).len() && names.take(i as int)[j] == name;
                assert(names[j] == names[i as int]);
            }
        }
        copy.insert(t.name_at(i).clone(), t.value_at(i).clone());
        proof {
            assert(names.take(i + 1) =~= names.take(i as int).push(name));
            assert forall|x: Seq<char>| #[trigger]
                copy@.contains_key(x) <==> names.take(i + 1).contains(x) by {
                let longer = names.take(i + 1);
                let shorter = names.take(i as int);
                if shorter.contains(x) {
                    let j = choose|j: int| 0 <= j < shorter.len() && shorter[j] == x;
                    assert(longer[j] == x);
                }
                assert(longer[i as int] == name);
                if longer.contains(x) && x != name {
                    let j = choose|j: int| 0 <= j < longer.len() && longer[j] == x;
                    assert(shorter[j] == x);
                }
            }
        }
        i = i + 1;
    }
    proof {
        assert(names.take(i as int) =~= names);
        assert forall|x: Seq<char>| copy@.contains_key(x) <==> t@.contains_key(x) by {
            assert(names.contains(x) <==> t@.contains_key(x));
        }
        assert(copy@ =~= t@);
    }
    copy
}

/// Walks the body of one function.
pub struct TypeInference<'a> {
    pub registry: &'a Registry,
    pub globals: &'a NameMap<GlobalDef>,
    pub env: TypeEnv,
}

impl<'a> TypeInference<'a> {
    /// The declarations outside of the function.
    pub open spec fn known(&self) -> Known {
        known_of(*self.registry, *self.globals)
    }

    /// The local variables.
    pub open spec fn locals(&self) -> Env {
        env_of(self.env)
    }

    /// The tables are well formed.
    pub open spec fn wf(&self) -> bool {
        self.registry.wf() && self.globals.wf() && self.env.wf()
    }

    fn fork(&self) -> (t: Self)
        requires
            self.wf(),
        ensures
            t.wf(),
            t.known() == self.known(),
            t.locals() == self.locals(),
    {
        TypeInference { registry: self.registry, globals: self.globals, env: copy_env(&self.env) }
    }

    fn lookup_dtype(&self, id: &String) -> (r: Result<Dtype, Error>)
        requires
            self.wf(),
        ensures
            outcome(r) == name_type(self.known(), self.locals(), id@),
    {
        match self.env.get(id.as_str()) {
            Some(VarState::Resolved(d)) => Ok(d.clone()),
            Some(VarState::Pending) => Err(Error::TypeNotDetermined { symbol: id.clone() }),
            None => match self.globals.get(id.as_str()) {
                Some(g) => Ok(g.dtype.clone()),
                None => Err(Error::VariableNotDefined { symbol: id.clone() }),
            },
        }
    }

    fn resolve_variable(&self, id: &String) -> (r: Result<Dtype, Error>)
        requires
            self.wf(),
        ensures
            outcome(r) == variable_type(self.known(), self.locals(), id@),
    {
        let dtype = self.lookup_dtype(id)?;
        match &dtype {
            Dtype::Array { element, .. } => Ok((**element).clone()),
            _ => Ok(dtype),
        }
    }

    fn elements(dtype: &Dtype) -> (r: Option<Dtype>)
        ensures
            match r {
                Some(d) => array_elements(dtype@) == Some(d@),
                None => array_elements(dtype@) is None,
            },
    {
        proof {
            reveal_with_fuel(Dtype::model, 3);
        }
        match dtype {
            Dtype::Array { element, .. } => Some((**element).clone()),
            Dtype::Pointer { pointee } => match &**pointee {
                Dtype::Array { element, .. } => Some((**element).clone()),
                _ => None,
            },
            _ => None,
        }
    }

    fn element_type_of_indexing(dtype: &Dtype) -> (d: Dtype)
        ensures
            d@ == element_of(dtype@),
    {
        match Self::elements(dtype) {
            Some(d) => d,
            None => dtype.clone(),
        }
    }

    fn type_of_reference(&self, id: &String) -> (r: Result<Dtype, Error>)
        requires
            self.wf(),
        ensures
            outcome(r) == reference_type(self.known(), self.locals(), id@),
    {
        let dtype = self.lookup_dtype(id)?;
        match Self::elements(&dtype) {
            Some(element) => Ok(Dtype::ptr_to(Dtype::unsized_array(element))),
            None => Err(Error::InvalidReference { symbol: id.clone() }),
        }
    }

    fn type_of_left_val(&self, val: &LeftVal) -> (r: Result<Dtype, Error>)
        requires
            self.wf(),
        ensures
            outcome(r) == place_type(self.known(), self.locals(), *val),
        decreases val,
    {
        match &val.inner {
            LeftValInner::Id(id) => self.lookup_dtype(id),
            LeftValInner::ArrayExpr(e) => self.type_of_array_expr(e),
            LeftValInner::MemberExpr(e) => self.type_of_member_expr(e),
        }
    }

    fn type_of_array_expr(&self, expr: &ArrayExpr) -> (r: Result<Dtype, Error>)
        requires
            self.wf(),
        ensures
            outcome(r) == element_type(self.known(), self.locals(), *expr),
        decreases expr,
    {
        let arr = self.type_of_left_val(&expr.arr)?;
        Ok(Self::element_type_of_indexing(&arr))
    }

    fn type_of_member_expr(&self, expr: &MemberExpr) -> (r: Result<Dtype, Error>)
        requires
            self.wf(),
        ensures
            outcome(r) == member_type(self.known(), self.locals(), *expr),
        decreases expr,
    {
        let dtype = self.type_of_left_val(&expr.struct_id)?;
        let name = match dtype.struct_type_name() {
            Some(name) => name,
            None => {
                return Err(Error::InvalidStructMemberExpression { expr: expr.copy() });
            },
        };
        match self.registry.struct_types.get(name.as_str()) {
            Some(st) => match st.member(&expr.member_id) {
                Some(m) => Ok(m.dtype.clone()),
                None => Err(Error::InvalidStructMemberExpression { expr: expr.copy() }),
            },
            None => Err(Error::InvalidStructMemberExpression { expr: expr.copy() }),
        }
    }

    fn type_of_expr_unit(&self, unit: &ExprUnit) -> (r: Result<Dtype, Error>)
        requires
            self.wf(),
        ensures
            outcome(r) == unit_type(self.known(), self.locals(), *unit),
        decreases unit,
    {
        match &unit.inner {
            ExprUnitInner::Num(_) => Ok(Dtype::I32),
            ExprUnitInner::Id(id) => self.resolve_variable(id),
            ExprUnitInner::ArithExpr(e) => self.type_of_arith_expr(e),
            ExprUnitInner::FnCall(c) => self.type_of_fn_call(c),
            ExprUnitInner::ArrayExpr(e) => self.type_of_array_expr(e),
            ExprUnitInner::MemberExpr(e) => self.type_of_member_expr(e),
            ExprUnitInner::Reference(id) => self.type_of_reference(id),
        }
    }

    fn type_of_fn_call(&self, call: &FnCall) -> (r: Result<Dtype, Error>)
        requires
            self.wf(),
        ensures
            outcome(r) == call_type(self.known(), self.locals(), *call),
        decreases call,
    {
        self.check_values(&call.vals)?;
        let name = call.qualified_name();
        match self.registry.function_types.get(name.as_str()) {
            Some(ft) => Ok(ft.return_dtype.clone()),
            None => Err(Error::FunctionNotDefined { symbol: name }),
        }
    }

    fn check_values(&self, vals: &Vec<RightVal>) -> (r: Result<(), Error>)
        requires
            self.wf(),
        ensures
            done(r) == values_typed(self.known(), self.locals(), vals@),
        decreases vals,
    {
        let ghost k = self.known();
        let ghost env = self.locals();
        let mut i: usize = 0;
        assert(vals@.take(0) =~= Seq::empty());
        while i < vals.len()
            invariant
                i <= vals.len(),
                self.wf(),
                k == self.known(),
                env == self.locals(),
                values_typed(k, env, vals@.take(i as int)) == Ok::<(), ErrorModel>(()),
            decreases vals.len() - i,
        {
            proof {
                assert(vals@.take(i + 1).drop_last() =~= vals@.take(i as int));
                assert(vals@.take(i + 1).last() == vals@[i as int]);
                if values_typed(k, env, vals@.take(i + 1)) is Err {
                    lemma_values_stop(k, env, vals@, i + 1);
                }
            }
            self.type_of_right_val(&vals[i])?;
            i = i + 1;
        }
        assert(vals@.take(i as int) =~= vals@);
        Ok(())
    }

    fn type_of_arith_expr(&self, expr: &ArithExpr) -> (r: Result<Dtype, Error>)
        requires
            self.wf(),
        ensures
            outcome(r) == arith_type(self.known(), self.locals(), *expr),
        decreases expr,
    {
        match &expr.inner {
            ArithExprInner::ArithBiOpExpr(b) => {
                self.type_of_arith_expr(&b.left)?;
                self.type_of_arith_expr(&b.right)?;
                Ok(Dtype::I32)
            },
            ArithExprInner::ExprUnit(u) => self.type_of_expr_unit(u),
        }
    }

    fn type_of_right_val(&self, val: &RightVal) -> (r: Result<Dtype, Error>)
        requires
            self.wf(),
        ensures
            outcome(r) == right_type(self.known(), self.locals(), *val),
        decreases val,
    {
        match &val.inner {
            RightValInner::ArithExpr(e) => self.type_of_arith_expr(e),
            RightValInner::BoolExpr(e) => {
                self.check_bool_expr(e)?;
                Ok(Dtype::I32)
            },
        }
    }

    fn check_bool_expr(&self, expr: &BoolExpr) -> (r: Result<(), Error>)
        requires
            self.wf(),
        ensures
            done(r) == bool_typed(self.known(), self.locals(), *expr),
        decreases expr,
    {
        match &expr.inner {
            BoolExprInner::BoolBiOpExpr(b) => {
                self.check_bool_expr(&b.left)?;
                self.check_bool_expr(&b.right)
            },
            BoolExprInner::BoolUnit(u) => self.check_bool_unit(u),
        }
    }

    fn check_bool_unit(&self, unit: &BoolUnit) -> (r: Result<(), Error>)
        requires
            self.wf(),
        ensures
            done(r) == bool_unit_typed(self.known(), self.locals(), *unit),
        decreases unit,
    {
        match &unit.inner {
            BoolUnitInner::ComExpr(e) => {
                self.type_of_expr_unit(&e.left)?;
                self.type_of_expr_unit(&e.right)?;
                Ok(())
            },
            BoolUnitInner::BoolExpr(e) => self.check_bool_expr(e),
            BoolUnitInner::BoolUOpExpr(e) => self.check_bool_unit(&e.cond),
        }
    }

    fn check_compatible(symbol: &String, expected: &Dtype, actual: &Dtype) -> (r: Result<(), Error>)
        ensures
            done(r) == compatible(symbol@, expected@, actual@),
    {
        if expected.same(actual) {
            return Ok(());
        }
        Err(
            Error::TypeMismatch {
                symbol: symbol.clone(),
                expected: expected.clone(),
                actual: actual.clone(),
            },
        )
    }

    fn process_var_decl(&mut self, decl: &VarDecl)
        requires
            old(self).wf(),
        ensures
            final(self).wf(),
            final(self).known() == old(self).known(),
            final(self).locals() == old(self).locals().with(
                decl.identifier@,
                declared_state(*decl),
            ),
    {
        proof {
            reveal_with_fuel(Dtype::model, 2);
        }
        let state = match (&decl.type_specifier, &decl.inner) {
            (Some(ts), VarDeclInner::Scalar) => VarState::Resolved(specified_dtype(ts)),
            (Some(ts), VarDeclInner::Array(a)) => VarState::Resolved(
                Dtype::array_of(specified_dtype(ts), a.len),
            ),
            (None, VarDeclInner::Array(a)) => VarState::Resolved(Dtype::array_of(Dtype::I32, a.len)),
            (None, VarDeclInner::Scalar) => VarState::Pending,
        };
        self.env.insert(decl.identifier.clone(), state);
    }

    fn check_array_initializer(&self, init: &ArrayInitializer) -> (r: Result<(), Error>)
        requires
            self.wf(),
        ensures
            done(r) == init_typed(self.known(), self.locals(), *init),
    {
        match init {
            ArrayInitializer::ExplicitList(vals) => self.check_values(vals),
            ArrayInitializer::Fill { val, .. } => {
                self.type_of_right_val(val)?;
                Ok(())
            },
        }
    }

    fn process_var_def(&mut self, def: &VarDef) -> (r: Result<(), Error>)
        requires
            old(self).wf(),
        ensures
            final(self).wf(),
            final(self).known() == old(self).known(),
            follows(r, final(self).locals(), def_types(old(self).known(), old(self).locals(), *def)),
    {
        match &def.inner {
            VarDefInner::Scalar(s) => {
                let rhs = self.type_of_right_val(&s.val)?;
                let resolved = match &def.type_specifier {
                    Some(ts) => {
                        let t = specified_dtype(ts);
                        Self::check_compatible(&def.identifier, &t, &rhs)?;
                        t
                    },
                    None => rhs,
                };
                self.env.insert(def.identifier.clone(), VarState::Resolved(resolved));
            },
            VarDefInner::Array(a) => {
                let element = match &def.type_specifier {
                    Some(ts) => specified_dtype(ts),
                    None => Dtype::I32,
                };
                self.check_array_initializer(&a.initializer)?;
                self.env.insert(
                    def.identifier.clone(),
                    VarState::Resolved(Dtype::array_of(element, a.len)),
                );
            },
        }
        Ok(())
    }

    fn process_assignment(&mut self, stmt: &AssignmentStmt) -> (r: Result<(), Error>)
        requires
            old(self).wf(),
        ensures
            final(self).wf(),
            final(self).known() == old(self).known(),
            follows(
                r,
                final(self).locals(),
                assignment_types(old(self).known(), old(self).locals(), *stmt),
            ),
    {
        let rhs = self.type_of_right_val(&stmt.right_val)?;
        match &stmt.left_val.inner {
            LeftValInner::Id(id) => {
                let state: Option<VarState> = match self.env.get(id.as_str()) {
                    Some(s) => Some(s.clone()),
                    None => None,
                };
                match state {
                    Some(VarState::Pending) => {
                        self.env.insert(id.clone(), VarState::Resolved(rhs));
                    },
                    Some(VarState::Resolved(t)) => {
                        Self::check_compatible(id, &t, &rhs)?;
                    },
                    None => {},
                }
            },
            LeftValInner::ArrayExpr(e) => {
                self.type_of_array_expr(e)?;
            },
            LeftValInner::MemberExpr(e) => {
                self.type_of_member_expr(e)?;
            },
        }
        Ok(())
    }

    fn merge_states(name: &String, a: &VarState, b: &VarState) -> (r: Result<VarState, Error>)
        ensures
            outcome(r) == merged_state(name@, a@, b@),
    {
        match (a, b) {
            (VarState::Pending, VarState::Pending) => Ok(VarState::Pending),
            (VarState::Resolved(t), VarState::Pending) => Ok(VarState::Resolved(t.clone())),
            (VarState::Pending, VarState::Resolved(t)) => Ok(VarState::Resolved(t.clone())),
            (VarState::Resolved(t1), VarState::Resolved(t2)) => {
                if t1.same(t2) {
                    Ok(VarState::Resolved(t1.clone()))
                } else {
                    Err(
                        Error::TypeMismatch {
                            symbol: name.clone(),
                            expected: t1.clone(),
                            actual: t2.clone(),
                        },
                    )
                }
            },
        }
    }

    /// Merges the environments of two branches.
    fn merge_envs(&mut self, env_a: &TypeEnv, env_b: &TypeEnv) -> (r: Result<(), Error>)
        requires
            old(self).wf(),
            env_a.wf(),
            env_b.wf(),
        ensures
            final(self).wf(),
            final(self).known() == old(self).known(),
            follows(r, final(self).locals(), merged(old(self).locals(), env_a@, env_b@)),
    {
        let base = copy_env(&self.env);
        let ghost env = self.locals();
        let ghost k = self.known();
        proof {
            base.lemma_names();
        }
        let n: usize = base.len();
        let mut i: usize = 0;
        while i < n
            invariant
                i <= n,
                self.wf(),
                self.known() == k,
                base.wf(),
                env_of(base) == env,
                env_a.wf(),
                env_b.wf(),
                n == env.names.len(),
                env.names.no_duplicates(),
                forall|x: Seq<char>| #[trigger]
                    env.names.contains(x) <==> env.states.contains_key(x),
                self.locals().names == env.names,
                merged_states(env, env_a@, env_b@, i as nat) == Ok::<
                    Map<Seq<char>, Option<DtypeModel>>,
                    ErrorModel,
                >(self.locals().states),
                env == old(self).locals(),
                k == old(self).known(),
            decreases n - i,
        {
            let name = base.name_at(i);
            let state = base.value_at(i);
            proof {
                assert(env.names.contains(env.names[i as int]));
                if merged_states(env, env_a@, env_b@, (i + 1) as nat) is Err {
                    lemma_merge_stops(env, env_a@, env_b@, (i + 1) as nat, n as nat);
                }
            }
            let a = match env_a.get(name.as_str()) {
                Some(s) => s,
                None => state,
            };
            let b = match env_b.get(name.as_str()) {
                Some(s) => s,
                None => state,
            };
            let m = Self::merge_states(name, a, b)?;
            self.env.insert(name.clone(), m);
            i = i + 1;
        }
        Ok(())
    }

    fn process_stmt(&mut self, stmt: &CodeBlockStmt) -> (r: Result<(), Error>)
        requires
            old(self).wf(),
        ensures
            final(self).wf(),
            final(self).known() == old(self).known(),
            follows(
                r,
                final(self).locals(),
                stmt_types(old(self).known(), old(self).locals(), *stmt),
            ),
        decreases stmt,
    {
        match &stmt.inner {
            CodeBlockStmtInner::VarDecl(s) => match &s.inner {
                VarDeclStmtInner::Decl(d) => {
                    self.process_var_decl(d);
                    Ok(())
                },
                VarDeclStmtInner::Def(d) => self.process_var_def(d),
            },
            CodeBlockStmtInner::Assignment(s) => self.process_assignment(s),
            CodeBlockStmtInner::If(s) => self.process_if(s),
            CodeBlockStmtInner::While(s) => self.process_while(s),
            CodeBlockStmtInner::Call(s) => self.check_values(&s.fn_call.vals),
            CodeBlockStmtInner::Return(s) => self.process_return(s),
            CodeBlockStmtInner::Continue(_) => Ok(()),
            CodeBlockStmtInner::Break(_) => Ok(()),
            CodeBlockStmtInner::Null(_) => Ok(()),
        }
    }

    fn process_return(&self, stmt: &ReturnStmt) -> (r: Result<(), Error>)
        requires
            self.wf(),
        ensures
            done(r) == match stmt.val {
                Some(v) => match right_type(self.known(), self.locals(), *v) {
                    Err(x) => Err(x),
                    Ok(_) => Ok(()),
                },
                None => Ok(()),
            },
    {
        match &stmt.val {
            Some(v) => {
                self.type_of_right_val(v)?;
                Ok(())
            },
            None => Ok(()),
        }
    }

    fn process_stmts(&mut self, stmts: &Vec<CodeBlockStmt>) -> (r: Result<(), Error>)
        requires
            old(self).wf(),
        ensures
            final(self).wf(),
            final(self).known() == old(self).known(),
            follows(
                r,
                final(self).locals(),
                stmts_types(old(self).known(), old(self).locals(), stmts@),
            ),
        decreases stmts,
    {
        let ghost k = self.known();
        let ghost env = self.locals();
        let mut i: usize = 0;
        assert(stmts@.take(0) =~= Seq::empty());
        while i < stmts.len()
            invariant
                i <= stmts.len(),
                self.wf(),
                self.known() == k,
                k == old(self).known(),
                env == old(self).locals(),
                stmts_types(k, env, stmts@.take(i as int)) == Ok::<Env, ErrorModel>(self.locals()),
            decreases stmts.len() - i,
        {
            proof {
                assert(stmts@.take(i + 1).drop_last() =~= stmts@.take(i as int));
                assert(stmts@.take(i + 1).last() == stmts@[i as int]);
                if stmts_types(k, env, stmts@.take(i + 1)) is Err {
                    lemma_stmts_stop(k, env, stmts@, i + 1);
                }
            }
            self.process_stmt(&stmts[i])?;
            i = i + 1;
        }
        assert(stmts@.take(i as int) =~= stmts@);
        Ok(())
    }

    fn process_if(&mut self, stmt: &IfStmt) -> (r: Result<(), Error>)
        requires
            old(self).wf(),
        ensures
            final(self).wf(),
            final(self).known() == old(self).known(),
            follows(r, final(self).locals(), if_types(old(self).known(), old(self).locals(), *stmt)),
        decreases stmt,
    {
        self.check_bool_unit(&stmt.bool_unit)?;
        let mut then_ctx = self.fork();
        then_ctx.process_stmts(&stmt.if_stmts)?;
        let else_env = match &stmt.else_stmts {
            Some(else_stmts) => {
                let mut else_ctx = self.fork();
                else_ctx.process_stmts(else_stmts)?;
                else_ctx.env
            },
            None => copy_env(&self.env),
        };
        self.merge_envs(&then_ctx.env, &else_env)
    }

    fn process_while(&mut self, stmt: &WhileStmt) -> (r: Result<(), Error>)
        requires
            old(self).wf(),
        ensures
            final(self).wf(),
            final(self).known() == old(self).known(),
            follows(
                r,
                final(self).locals(),
                while_types(old(self).known(), old(self).locals(), *stmt),
            ),
        decreases stmt,
    {
        self.check_bool_unit(&stmt.bool_unit)?;
        let mut body_ctx = self.fork();
        body_ctx.process_stmts(&stmt.stmts)?;
        let before_env = copy_env(&self.env);
        self.merge_envs(&before_env, &body_ctx.env)
    }
}

/// The declarations of a module.
pub open spec fn known_of(registry: Registry, globals: NameMap<GlobalDef>) -> Known {
    Known {
        structs: registry.struct_types@,
        functions: registry.function_types@,
        globals: globals@,
    }
}

/// The outcome of a step that ends in the environment `env`.
pub open spec fn follows(r: Result<(), Error>, env: Env, expected: Result<Env, ErrorModel>) -> bool {
    match r {
        Ok(_) => expected == Ok::<Env, ErrorModel>(env),
        Err(e) => expected == Err::<Env, ErrorModel>(e@),
    }
}

/// Finds the types of all local variables of a function.
pub fn infer_function(
    registry: &Registry,
    globals: &NameMap<GlobalDef>,
    fn_def: &FnDef,
) -> (r: Result<NameMap<Dtype>, Error>)
    requires
        registry.wf(),
        globals.wf(),
    ensures
        match r {
            Ok(types) => types.wf() && function_types(known_of(*registry, *globals), *fn_def)
                == Ok::<Map<Seq<char>, DtypeModel>, ErrorModel>(types@),
            Err(e) => function_types(known_of(*registry, *globals), *fn_def) == Err::<
                Map<Seq<char>, DtypeModel>,
                ErrorModel,
            >(e@),
        },
{
    let mut ctx = TypeInference { registry, globals, env: NameMap::new() };
    let ghost k = ctx.known();
    let ghost all = signature_decls(*fn_def.fn_decl);
    assert(ctx.locals() == parameter_env(Seq::empty()));
    match &fn_def.fn_decl.param_decl {
        Some(params) => {
            let decls = &params.decls;
            let mut i: usize = 0;
            assert(all.take(0) =~= Seq::empty());
            while i < decls.len()
                invariant
                    i <= decls.len(),
                    all == decls@,
                    ctx.wf(),
                    ctx.known() == k,
                    ctx.locals() == parameter_env(all.take(i as int)),
                decreases decls.len() - i,
            {
                proof {
                    assert(all.take(i + 1).drop_last() =~= all.take(i as int));
                    assert(all.take(i + 1).last() == all[i as int]);
                }
                let d = &decls[i];
                ctx.env.insert(d.identifier.clone(), VarState::Resolved(var_decl_dtype(d)));
                i = i + 1;
            }
            assert(all.take(i as int) =~= all);
        },
        None => {},
    }
    ctx.process_stmts(&fn_def.stmts)?;
    let ghost env = ctx.locals();
    let mut resolved: NameMap<Dtype> = NameMap::new();
    proof {
        ctx.env.lemma_names();
    }
    let n: usize = ctx.env.len();
    let mut i: usize = 0;
    while i < n
        invariant
            i <= n,
            ctx.wf(),
            env == ctx.locals(),
            n == env.names.len(),
            resolved.wf(),
            determined(env, i as nat) == Ok::<Map<Seq<char>, DtypeModel>, ErrorModel>(resolved@),
            stmts_types(k, parameter_env(all), fn_def.stmts@) == Ok::<Env, ErrorModel>(env),
            k == known_of(*registry, *globals),
            all == signature_decls(*fn_def.fn_decl),
        decreases n - i,
    {
        proof {
            if determined(env, (i + 1) as nat) is Err {
                lemma_determined_stops(env, (i + 1) as nat, n as nat);
            }
        }
        let name = ctx.env.name_at(i);
        match ctx.env.value_at(i) {
            VarState::Resolved(d) => {
                resolved.insert(name.clone(), d.clone());
            },
            VarState::Pending => {
                return Err(Error::TypeNotDetermined { symbol: name.clone() });
            },
        }
        i = i + 1;
    }
    Ok(resolved)
}

} // verus!
