//! What type inference promises: a type that is known stays, an assignment
//! decides, and branches agree.

use crate::ast::decl::VarDeclStmtInner;
use crate::ast::expr::LeftValInner;
use crate::ast::stmt::{AssignmentStmt, CodeBlockStmt, CodeBlockStmtInner, IfStmt, WhileStmt};
use crate::ir::error::ErrorModel;
use crate::ir::gen::type_infer::{
    assignment_types, branch_state, else_types, if_types, merged, merged_states, right_type,
    stmt_types, stmts_types, while_types, Env, Known,
};
use crate::ir::types::DtypeModel;
use vstd::prelude::*;

verus! {

/// What is known of a variable.
pub open spec fn known(env: Env, id: Seq<char>) -> Option<DtypeModel> {
    if env.states.contains_key(id) {
        env.states[id]
    } else {
        None
    }
}

/// After an assignment to a local variable the type of the variable is known
/// and is that of the value; what was known of other variables, and of this
/// one, is what it was.
pub proof fn lemma_assignment_decides(k: Known, env: Env, a: AssignmentStmt, id: Seq<char>)
    requires
        assignment_types(k, env, a) is Ok,
    ensures
        ({
            let e = assignment_types(k, env, a)->Ok_0;
            &&& known(env, id) is Some ==> known(e, id) == known(env, id)
            &&& (a.left_val.inner matches LeftValInner::Id(x) && x@ == id
                && env.states.contains_key(id)) ==> right_type(k, env, *a.right_val) == Ok::<
                DtypeModel,
                ErrorModel,
            >(known(e, id)->Some_0) && known(e, id) is Some
            &&& !(a.left_val.inner matches LeftValInner::Id(x) && x@ == id) ==> known(e, id)
                == known(env, id)
            &&& e.states.dom() == env.states.dom()
        }),
{
    let e = assignment_types(k, env, a)->Ok_0;
    assert(e.states.dom() =~= env.states.dom());
}

/// Some state was merged from those of two branches.
pub open spec fn agrees(
    s: Option<DtypeModel>,
    a: Option<DtypeModel>,
    b: Option<DtypeModel>,
) -> bool {
    &&& a is Some ==> s == a
    &&& b is Some ==> s == b
    &&& s is Some ==> s == a || s == b
}

proof fn lemma_states_agree(
    env: Env,
    a: Map<Seq<char>, Option<DtypeModel>>,
    b: Map<Seq<char>, Option<DtypeModel>>,
    n: nat,
    i: int,
)
    requires
        n <= env.names.len(),
        0 <= i < n,
        merged_states(env, a, b, n) is Ok,
    ensures
        merged_states(env, a, b, n)->Ok_0.contains_key(env.names[i]),
        agrees(
            merged_states(env, a, b, n)->Ok_0[env.names[i]],
            branch_state(env, a, env.names[i]),
            branch_state(env, b, env.names[i]),
        ),
    decreases n,
{
    if i < n - 1 {
        lemma_states_agree(env, a, b, (n - 1) as nat, i);
    }
}

proof fn lemma_states_kept(
    env: Env,
    a: Map<Seq<char>, Option<DtypeModel>>,
    b: Map<Seq<char>, Option<DtypeModel>>,
    n: nat,
    id: Seq<char>,
)
    requires
        n <= env.names.len(),
        merged_states(env, a, b, n) is Ok,
        !env.names.contains(id),
    ensures
        merged_states(env, a, b, n)->Ok_0.contains_key(id) == env.states.contains_key(id),
        merged_states(env, a, b, n)->Ok_0[id] == env.states[id],
    decreases n,
{
    if n > 0 {
        lemma_states_kept(env, a, b, (n - 1) as nat, id);
        assert(env.names.contains(env.names[n - 1]));
    }
}

/// Behind two branches a variable has the type that it has at the end of
/// either, and one that has none at the end of both has none.
pub proof fn lemma_branches_agree(
    env: Env,
    a: Map<Seq<char>, Option<DtypeModel>>,
    b: Map<Seq<char>, Option<DtypeModel>>,
    i: int,
)
    requires
        0 <= i < env.names.len(),
        merged(env, a, b) is Ok,
    ensures
        agrees(
            merged(env, a, b)->Ok_0.states[env.names[i]],
            branch_state(env, a, env.names[i]),
            branch_state(env, b, env.names[i]),
        ),
{
    lemma_states_agree(env, a, b, env.names.len(), i);
}

/// Two branches cannot be merged only where some variable has one type at the
/// end of one and another at the end of the other.
pub proof fn lemma_branches_differ(
    env: Env,
    a: Map<Seq<char>, Option<DtypeModel>>,
    b: Map<Seq<char>, Option<DtypeModel>>,
    n: nat,
)
    requires
        n <= env.names.len(),
        merged_states(env, a, b, n) is Err,
    ensures
        exists|i: int|
            0 <= i < n && branch_state(env, a, #[trigger] env.names[i]) is Some && branch_state(
                env,
                b,
                env.names[i],
            ) is Some && branch_state(env, a, env.names[i]) != branch_state(env, b, env.names[i]),
    decreases n,
{
    if n > 0 {
        if merged_states(env, a, b, (n - 1) as nat) is Err {
            lemma_branches_differ(env, a, b, (n - 1) as nat);
        } else {
            assert(branch_state(env, a, env.names[n - 1]) != branch_state(
                env,
                b,
                env.names[n - 1],
            ));
        }
    }
}

/// The statement declares a variable with the name, itself or in a branch or
/// loop.
pub open spec fn declares(s: CodeBlockStmt, id: Seq<char>) -> bool
    decreases s,
{
    match s.inner {
        CodeBlockStmtInner::VarDecl(v) => match v.inner {
            VarDeclStmtInner::Decl(d) => d.identifier@ == id,
            VarDeclStmtInner::Def(d) => d.identifier@ == id,
        },
        CodeBlockStmtInner::If(i) => any_declares(i.if_stmts@, id) || (i.else_stmts matches Some(e)
            && any_declares(e@, id)),
        CodeBlockStmtInner::While(w) => any_declares(w.stmts@, id),
        _ => false,
    }
}

/// Some statement declares a variable with the name.
pub open spec fn any_declares(stmts: Seq<CodeBlockStmt>, id: Seq<char>) -> bool
    decreases stmts,
{
    stmts.len() > 0 && (any_declares(stmts.drop_last(), id) || declares(stmts.last(), id))
}

/// The type of a variable that is known before a statement is the same after
/// it, unless the statement declares another variable with that name.
pub proof fn lemma_type_stays(k: Known, env: Env, s: CodeBlockStmt, id: Seq<char>)
    requires
        stmt_types(k, env, s) is Ok,
        known(env, id) is Some,
        !declares(s, id),
    ensures
        known(stmt_types(k, env, s)->Ok_0, id) == known(env, id),
    decreases s,
{
    match s.inner {
        CodeBlockStmtInner::Assignment(a) => lemma_assignment_decides(k, env, *a, id),
        CodeBlockStmtInner::If(i) => lemma_type_stays_if(k, env, *i, id),
        CodeBlockStmtInner::While(w) => lemma_type_stays_while(k, env, *w, id),
        _ => {},
    }
}

/// The type of a variable that is known before statements is the same after
/// them, unless they declare another variable with that name.
pub proof fn lemma_types_stay(k: Known, env: Env, stmts: Seq<CodeBlockStmt>, id: Seq<char>)
    requires
        stmts_types(k, env, stmts) is Ok,
        known(env, id) is Some,
        !any_declares(stmts, id),
    ensures
        known(stmts_types(k, env, stmts)->Ok_0, id) == known(env, id),
    decreases stmts,
{
    if stmts.len() > 0 {
        lemma_types_stay(k, env, stmts.drop_last(), id);
        let e = stmts_types(k, env, stmts.drop_last())->Ok_0;
        lemma_type_stays(k, e, stmts.last(), id);
    }
}

proof fn lemma_merged_known(
    env: Env,
    a: Map<Seq<char>, Option<DtypeModel>>,
    b: Map<Seq<char>, Option<DtypeModel>>,
    id: Seq<char>,
)
    requires
        merged(env, a, b) is Ok,
        known(env, id) is Some,
        branch_state(env, a, id) == env.states[id],
        branch_state(env, b, id) == env.states[id],
    ensures
        known(merged(env, a, b)->Ok_0, id) == known(env, id),
{
    if env.names.contains(id) {
        let i = choose|i: int| 0 <= i < env.names.len() && env.names[i] == id;
        lemma_states_agree(env, a, b, env.names.len(), i);
    } else {
        lemma_states_kept(env, a, b, env.names.len(), id);
    }
}

proof fn lemma_type_stays_if(k: Known, env: Env, i: IfStmt, id: Seq<char>)
    requires
        if_types(k, env, i) is Ok,
        known(env, id) is Some,
        !any_declares(i.if_stmts@, id),
        i.else_stmts matches Some(e) ==> !any_declares(e@, id),
    ensures
        known(if_types(k, env, i)->Ok_0, id) == known(env, id),
    decreases i,
{
    let a = stmts_types(k, env, i.if_stmts@)->Ok_0;
    let b = else_types(k, env, i.else_stmts)->Ok_0;
    lemma_types_stay(k, env, i.if_stmts@, id);
    match i.else_stmts {
        Some(e) => {
            assert(else_types(k, env, i.else_stmts) == stmts_types(k, env, e@));
            lemma_types_stay(k, env, e@, id);
        },
        None => {},
    }
    lemma_merged_known(env, a.states, b.states, id);
}

proof fn lemma_type_stays_while(k: Known, env: Env, w: WhileStmt, id: Seq<char>)
    requires
        while_types(k, env, w) is Ok,
        known(env, id) is Some,
        !any_declares(w.stmts@, id),
    ensures
        known(while_types(k, env, w)->Ok_0, id) == known(env, id),
    decreases w,
{
    let a = stmts_types(k, env, w.stmts@)->Ok_0;
    lemma_types_stay(k, env, w.stmts@, id);
    lemma_merged_known(env, env.states, a.states, id);
}

} // verus!
