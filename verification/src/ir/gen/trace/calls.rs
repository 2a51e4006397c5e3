//! The calls that code makes.

use crate::ast::decl::{ArrayInitializer, VarDeclStmtInner, VarDef, VarDefInner};
use crate::ast::expr::{
    ArithExpr, ArithExprInner, BoolExpr, BoolExprInner, BoolUnit, BoolUnitInner, ExprUnit,
    ExprUnitInner, FnCall, RightVal, RightValInner,
};
use crate::ast::stmt::{CodeBlockStmt, CodeBlockStmtInner};
use vstd::prelude::*;

verus! {

/// The names in a list.
pub open spec fn texts(list: Seq<String>) -> Seq<Seq<char>> {
    Seq::new(list.len(), |i: int| list[i]@)
}

/// The names that statements call, in order.
pub open spec fn stmts_calls(stmts: Seq<CodeBlockStmt>) -> Seq<Seq<char>>
    decreases stmts,
{
    if stmts.len() == 0 {
        Seq::empty()
    } else {
        stmts_calls(stmts.drop_last()) + stmt_calls(stmts.last())
    }
}

/// The names that a statement calls.
pub open spec fn stmt_calls(stmt: CodeBlockStmt) -> Seq<Seq<char>>
    decreases stmt,
{
    match stmt.inner {
        CodeBlockStmtInner::VarDecl(s) => match s.inner {
            VarDeclStmtInner::Def(def) => def_calls(*def),
            VarDeclStmtInner::Decl(_) => Seq::empty(),
        },
        CodeBlockStmtInner::Assignment(s) => value_calls(*s.right_val),
        CodeBlockStmtInner::Call(s) => call_calls(*s.fn_call),
        CodeBlockStmtInner::If(s) => truth_calls(*s.bool_unit) + stmts_calls(s.if_stmts@) + (
        match s.else_stmts {
            Some(list) => stmts_calls(list@),
            None => Seq::empty(),
        }),
        CodeBlockStmtInner::While(s) => truth_calls(*s.bool_unit) + stmts_calls(s.stmts@),
        CodeBlockStmtInner::Return(s) => match s.val {
            Some(v) => value_calls(*v),
            None => Seq::empty(),
        },
        CodeBlockStmtInner::Continue(_) => Seq::empty(),
        CodeBlockStmtInner::Break(_) => Seq::empty(),
        CodeBlockStmtInner::Null(_) => Seq::empty(),
    }
}

/// The names that an initializer calls.
pub open spec fn def_calls(def: VarDef) -> Seq<Seq<char>> {
    match def.inner {
        VarDefInner::Scalar(s) => value_calls(*s.val),
        VarDefInner::Array(a) => match a.initializer {
            ArrayInitializer::ExplicitList(vals) => values_calls(vals@),
            ArrayInitializer::Fill { val, .. } => value_calls(*val),
        },
    }
}

/// The names that values call, in order.
pub open spec fn values_calls(vals: Seq<RightVal>) -> Seq<Seq<char>>
    decreases vals,
{
    if vals.len() == 0 {
        Seq::empty()
    } else {
        values_calls(vals.drop_last()) + value_calls(vals.last())
    }
}

/// The callee, and the names that the arguments call.
pub open spec fn call_calls(call: FnCall) -> Seq<Seq<char>>
    decreases call,
{
    seq![call.callee()] + values_calls(call.vals@)
}

/// The names that an operand calls.
pub open spec fn unit_calls(unit: ExprUnit) -> Seq<Seq<char>>
    decreases unit,
{
    match unit.inner {
        ExprUnitInner::ArithExpr(e) => arith_calls(*e),
        ExprUnitInner::FnCall(c) => call_calls(*c),
        _ => Seq::empty(),
    }
}

/// The names that an arithmetic expression calls.
pub open spec fn arith_calls(expr: ArithExpr) -> Seq<Seq<char>>
    decreases expr,
{
    match expr.inner {
        ArithExprInner::ArithBiOpExpr(e) => arith_calls(*e.left) + arith_calls(*e.right),
        ArithExprInner::ExprUnit(u) => unit_calls(*u),
    }
}

/// The names that a condition calls.
pub open spec fn truth_calls(unit: BoolUnit) -> Seq<Seq<char>>
    decreases unit,
{
    match unit.inner {
        BoolUnitInner::ComExpr(e) => unit_calls(*e.left) + unit_calls(*e.right),
        BoolUnitInner::BoolExpr(e) => bool_calls(*e),
        BoolUnitInner::BoolUOpExpr(e) => truth_calls(*e.cond),
    }
}

/// The names that a logical expression calls.
pub open spec fn bool_calls(expr: BoolExpr) -> Seq<Seq<char>>
    decreases expr,
{
    match expr.inner {
        BoolExprInner::BoolBiOpExpr(e) => bool_calls(*e.left) + bool_calls(*e.right),
        BoolExprInner::BoolUnit(u) => truth_calls(*u),
    }
}

/// The names that a value calls.
pub open spec fn value_calls(val: RightVal) -> Seq<Seq<char>>
    decreases val,
{
    match val.inner {
        RightValInner::ArithExpr(e) => arith_calls(*e),
        RightValInner::BoolExpr(e) => bool_calls(*e),
    }
}

/// The names that statements call.
pub fn collect_call_sites(stmts: &Vec<CodeBlockStmt>) -> (sites: Vec<String>)
    ensures
        texts(sites@) == stmts_calls(stmts@),
{
    let mut sites: Vec<String> = Vec::new();
    collect_stmts(stmts, &mut sites);
    assert(texts(sites@) =~= stmts_calls(stmts@));
    sites
}

/// Adds the names that statements call.
fn collect_stmts(stmts: &Vec<CodeBlockStmt>, sites: &mut Vec<String>)
    ensures
        texts(final(sites)@) == texts(old(sites)@) + stmts_calls(stmts@),
    decreases stmts,
{
    let ghost start = texts(sites@);
    let mut i: usize = 0;
    assert(stmts@.take(0) =~= Seq::empty());
    assert(start + Seq::empty() =~= start);
    while i < stmts.len()
        invariant
            i <= stmts.len(),
            texts(sites@) == start + stmts_calls(stmts@.take(i as int)),
        decreases stmts.len() - i,
    {
        collect_stmt(&stmts[i], sites);
        proof {
            let longer = stmts@.take(i + 1);
            assert(longer.drop_last() =~= stmts@.take(i as int));
            assert(longer.last() == stmts@[i as int]);
            assert(texts(sites@) =~= start + stmts_calls(longer));
        }
        i = i + 1;
    }
    assert(stmts@.take(i as int) =~= stmts@);
}

/// Adds the names that a statement calls.
fn collect_stmt(stmt: &CodeBlockStmt, sites: &mut Vec<String>)
    ensures
        texts(final(sites)@) == texts(old(sites)@) + stmt_calls(*stmt),
    decreases stmt,
{
    let ghost start = texts(sites@);
    match &stmt.inner {
        CodeBlockStmtInner::VarDecl(s) => match &s.inner {
            VarDeclStmtInner::Def(def) => collect_var_def(def, sites),
            VarDeclStmtInner::Decl(_) => {},
        },
        CodeBlockStmtInner::Assignment(s) => collect_right_val(&s.right_val, sites),
        CodeBlockStmtInner::Call(s) => collect_fn_call(&s.fn_call, sites),
        CodeBlockStmtInner::If(s) => {
            collect_bool_unit(&s.bool_unit, sites);
            collect_stmts(&s.if_stmts, sites);
            match &s.else_stmts {
                Some(list) => collect_stmts(list, sites),
                None => {},
            }
        },
        CodeBlockStmtInner::While(s) => {
            collect_bool_unit(&s.bool_unit, sites);
            collect_stmts(&s.stmts, sites);
        },
        CodeBlockStmtInner::Return(s) => match &s.val {
            Some(v) => collect_right_val(v, sites),
            None => {},
        },
        CodeBlockStmtInner::Continue(_) => {},
        CodeBlockStmtInner::Break(_) => {},
        CodeBlockStmtInner::Null(_) => {},
    }
    assert(texts(sites@) =~= start + stmt_calls(*stmt));
}

/// Adds the names that an initializer calls.
fn collect_var_def(def: &VarDef, sites: &mut Vec<String>)
    ensures
        texts(final(sites)@) == texts(old(sites)@) + def_calls(*def),
{
    match &def.inner {
        VarDefInner::Scalar(s) => collect_right_val(&s.val, sites),
        VarDefInner::Array(a) => match &a.initializer {
            ArrayInitializer::ExplicitList(vals) => collect_values(vals, sites),
            ArrayInitializer::Fill { val, .. } => collect_right_val(val, sites),
        },
    }
}

/// Adds the names that values call.
fn collect_values(vals: &Vec<RightVal>, sites: &mut Vec<String>)
    ensures
        texts(final(sites)@) == texts(old(sites)@) + values_calls(vals@),
    decreases vals,
{
    let ghost start = texts(sites@);
    let mut i: usize = 0;
    assert(vals@.take(0) =~= Seq::empty());
    assert(start + Seq::empty() =~= start);
    while i < vals.len()
        invariant
            i <= vals.len(),
            texts(sites@) == start + values_calls(vals@.take(i as int)),
        decreases vals.len() - i,
    {
        collect_right_val(&vals[i], sites);
        proof {
            let longer = vals@.take(i + 1);
            assert(longer.drop_last() =~= vals@.take(i as int));
            assert(longer.last() == vals@[i as int]);
            assert(texts(sites@) =~= start + values_calls(longer));
        }
        i = i + 1;
    }
    assert(vals@.take(i as int) =~= vals@);
}

/// Adds a callee, and the names that its arguments call.
fn collect_fn_call(call: &FnCall, sites: &mut Vec<String>)
    ensures
        texts(final(sites)@) == texts(old(sites)@) + call_calls(*call),
    decreases call,
{
    let ghost start = texts(sites@);
    sites.push(call.qualified_name());
    assert(texts(sites@) =~= start + seq![call.callee()]);
    collect_values(&call.vals, sites);
    assert(texts(sites@) =~= start + call_calls(*call));
}

/// Adds the names that an operand calls.
fn collect_expr_unit(unit: &ExprUnit, sites: &mut Vec<String>)
    ensures
        texts(final(sites)@) == texts(old(sites)@) + unit_calls(*unit),
    decreases unit,
{
    let ghost start = texts(sites@);
    match &unit.inner {
        ExprUnitInner::ArithExpr(e) => collect_arith_expr(e, sites),
        ExprUnitInner::FnCall(c) => collect_fn_call(c, sites),
        _ => {},
    }
    assert(texts(sites@) =~= start + unit_calls(*unit));
}

/// Adds the names that an arithmetic expression calls.
fn collect_arith_expr(expr: &ArithExpr, sites: &mut Vec<String>)
    ensures
        texts(final(sites)@) == texts(old(sites)@) + arith_calls(*expr),
    decreases expr,
{
    let ghost start = texts(sites@);
    match &expr.inner {
        ArithExprInner::ArithBiOpExpr(e) => {
            collect_arith_expr(&e.left, sites);
            collect_arith_expr(&e.right, sites);
        },
        ArithExprInner::ExprUnit(u) => collect_expr_unit(u, sites),
    }
    assert(texts(sites@) =~= start + arith_calls(*expr));
}

/// Adds the names that a condition calls.
fn collect_bool_unit(unit: &BoolUnit, sites: &mut Vec<String>)
    ensures
        texts(final(sites)@) == texts(old(sites)@) + truth_calls(*unit),
    decreases unit,
{
    let ghost start = texts(sites@);
    match &unit.inner {
        BoolUnitInner::ComExpr(e) => {
            collect_expr_unit(&e.left, sites);
            collect_expr_unit(&e.right, sites);
        },
        BoolUnitInner::BoolExpr(e) => collect_bool_expr(e, sites),
        BoolUnitInner::BoolUOpExpr(e) => collect_bool_unit(&e.cond, sites),
    }
    assert(texts(sites@) =~= start + truth_calls(*unit));
}

/// Adds the names that a logical expression calls.
fn collect_bool_expr(expr: &BoolExpr, sites: &mut Vec<String>)
    ensures
        texts(final(sites)@) == texts(old(sites)@) + bool_calls(*expr),
    decreases expr,
{
    let ghost start = texts(sites@);
    match &expr.inner {
        BoolExprInner::BoolBiOpExpr(e) => {
            collect_bool_expr(&e.left, sites);
            collect_bool_expr(&e.right, sites);
        },
        BoolExprInner::BoolUnit(u) => collect_bool_unit(u, sites),
    }
    assert(texts(sites@) =~= start + bool_calls(*expr));
}

/// Adds the names that a value calls.
fn collect_right_val(val: &RightVal, sites: &mut Vec<String>)
    ensures
        texts(final(sites)@) == texts(old(sites)@) + value_calls(*val),
    decreases val,
{
    match &val.inner {
        RightValInner::ArithExpr(e) => collect_arith_expr(e, sites),
        RightValInner::BoolExpr(e) => collect_bool_expr(e, sites),
    }
}

} // verus!
