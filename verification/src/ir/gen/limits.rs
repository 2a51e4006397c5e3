//! The test that all array indices of a program can be written in code.

use crate::ast::decl::{ArrayInitializer, VarDeclStmtInner, VarDef, VarDefInner};
use crate::ast::expr::{
    ArithExpr, ArithExprInner, ArrayExpr, BoolExpr, BoolExprInner, BoolUnit, BoolUnitInner,
    ExprUnit, ExprUnitInner, IndexExpr, IndexExprInner, LeftVal, LeftValInner, MemberExpr,
    RightVal, RightValInner,
};
use crate::ast::program::{Program, ProgramElement, ProgramElementInner};
use crate::ast::stmt::{CodeBlockStmt, CodeBlockStmtInner};
use crate::ir::gen::lowering::{
    arith_in_range, bool_in_range, bool_unit_in_range, def_in_range, element_in_range,
    index_in_range, member_in_range, place_in_range, right_in_range, stmt_in_range, stmts_in_range,
    unit_in_range, values_in_range,
};
use vstd::prelude::*;

verus! {

/// All indices in the bodies of the functions are in range.
pub open spec fn indices_in_range(elements: Seq<ProgramElement>) -> bool {
    forall|i: int|
        0 <= i < elements.len() ==> ((#[trigger] elements[i]).inner matches ProgramElementInner::FnDef(
            f,
        ) ==> stmts_in_range(f.stmts@))
}

/// Whether all indices in the bodies of the functions are in range.
pub fn indices_fit(program: &Program) -> (b: bool)
    ensures
        b == indices_in_range(program.elements@),
{
    let mut i: usize = 0;
    while i < program.elements.len()
        invariant
            i <= program.elements.len(),
            forall|j: int| 0 <= j < i ==> ((
            #[trigger] program.elements@[j]).inner matches ProgramElementInner::FnDef(f)
                ==> stmts_in_range(f.stmts@)),
        decreases program.elements.len() - i,
    {
        match &program.elements[i].inner {
            ProgramElementInner::FnDef(f) => {
                if !stmts_fit(&f.stmts) {
                    assert(!indices_in_range(program.elements@)) by {
                        assert(program.elements@[i as int].inner is FnDef);
                    }
                    return false;
                }
            },
            _ => {},
        }
        i = i + 1;
    }
    true
}

fn index_fits(e: &IndexExpr) -> (b: bool)
    ensures
        b == index_in_range(*e),
{
    match &e.inner {
        IndexExprInner::Num(n) => *n <= i32::MAX as usize,
        IndexExprInner::Id(_) => true,
    }
}

fn place_fits(p: &LeftVal) -> (b: bool)
    ensures
        b == place_in_range(*p),
    decreases p,
{
    match &p.inner {
        LeftValInner::Id(_) => true,
        LeftValInner::ArrayExpr(e) => element_fits(e),
        LeftValInner::MemberExpr(e) => member_fits(e),
    }
}

fn element_fits(e: &ArrayExpr) -> (b: bool)
    ensures
        b == element_in_range(*e),
    decreases e,
{
    place_fits(&e.arr) && index_fits(&e.idx)
}

fn member_fits(e: &MemberExpr) -> (b: bool)
    ensures
        b == member_in_range(*e),
    decreases e,
{
    place_fits(&e.struct_id)
}

fn unit_fits(u: &ExprUnit) -> (b: bool)
    ensures
        b == unit_in_range(*u),
    decreases u,
{
    match &u.inner {
        ExprUnitInner::ArithExpr(e) => arith_fits(e),
        ExprUnitInner::FnCall(c) => values_fit(&c.vals),
        ExprUnitInner::ArrayExpr(e) => element_fits(e),
        ExprUnitInner::MemberExpr(e) => member_fits(e),
        _ => true,
    }
}

fn values_fit(vals: &Vec<RightVal>) -> (b: bool)
    ensures
        b == values_in_range(vals@),
    decreases vals,
{
    let mut i: usize = 0;
    while i < vals.len()
        invariant
            i <= vals.len(),
            forall|j: int| 0 <= j < i ==> right_in_range(#[trigger] vals@[j]),
        decreases vals.len() - i,
    {
        if !right_fits(&vals[i]) {
            assert(!right_in_range(vals@[i as int]));
            return false;
        }
        i = i + 1;
    }
    true
}

fn arith_fits(e: &ArithExpr) -> (b: bool)
    ensures
        b == arith_in_range(*e),
    decreases e,
{
    match &e.inner {
        ArithExprInner::ArithBiOpExpr(o) => arith_fits(&o.left) && arith_fits(&o.right),
        ArithExprInner::ExprUnit(u) => unit_fits(u),
    }
}

fn right_fits(v: &RightVal) -> (b: bool)
    ensures
        b == right_in_range(*v),
    decreases v,
{
    match &v.inner {
        RightValInner::ArithExpr(e) => arith_fits(e),
        RightValInner::BoolExpr(e) => bool_fits(e),
    }
}

fn bool_fits(e: &BoolExpr) -> (b: bool)
    ensures
        b == bool_in_range(*e),
    decreases e,
{
    match &e.inner {
        BoolExprInner::BoolBiOpExpr(o) => bool_fits(&o.left) && bool_fits(&o.right),
        BoolExprInner::BoolUnit(u) => bool_unit_fits(u),
    }
}

fn bool_unit_fits(u: &BoolUnit) -> (b: bool)
    ensures
        b == bool_unit_in_range(*u),
    decreases u,
{
    match &u.inner {
        BoolUnitInner::ComExpr(c) => unit_fits(&c.left) && unit_fits(&c.right),
        BoolUnitInner::BoolExpr(e) => bool_fits(e),
        BoolUnitInner::BoolUOpExpr(n) => bool_unit_fits(&n.cond),
    }
}

fn def_fits(d: &VarDef) -> (b: bool)
    ensures
        b == def_in_range(*d),
{
    match &d.inner {
        VarDefInner::Scalar(s) => right_fits(&s.val),
        VarDefInner::Array(a) => match &a.initializer {
            ArrayInitializer::ExplicitList(vals) => values_fit(vals) && vals.len()
                <= i32::MAX as usize + 1,
            ArrayInitializer::Fill { val, count } => right_fits(val) && *count
                <= i32::MAX as usize + 1,
        },
    }
}

fn stmt_fits(s: &CodeBlockStmt) -> (b: bool)
    ensures
        b == stmt_in_range(*s),
    decreases s,
{
    match &s.inner {
        CodeBlockStmtInner::VarDecl(v) => match &v.inner {
            VarDeclStmtInner::Decl(_) => true,
            VarDeclStmtInner::Def(d) => def_fits(d),
        },
        CodeBlockStmtInner::Assignment(a) => place_fits(&a.left_val) && right_fits(&a.right_val),
        CodeBlockStmtInner::Call(c) => values_fit(&c.fn_call.vals),
        CodeBlockStmtInner::If(i) => {
            bool_unit_fits(&i.bool_unit) && stmts_fit(&i.if_stmts) && match &i.else_stmts {
                Some(list) => stmts_fit(list),
                None => true,
            }
        },
        CodeBlockStmtInner::While(w) => bool_unit_fits(&w.bool_unit) && stmts_fit(&w.stmts),
        CodeBlockStmtInner::Return(r) => match &r.val {
            Some(v) => right_fits(v),
            None => true,
        },
        _ => true,
    }
}

fn stmts_fit(stmts: &Vec<CodeBlockStmt>) -> (b: bool)
    ensures
        b == stmts_in_range(stmts@),
    decreases stmts,
{
    let mut i: usize = 0;
    while i < stmts.len()
        invariant
            i <= stmts.len(),
            forall|j: int| 0 <= j < i ==> stmt_in_range(#[trigger] stmts@[j]),
        decreases stmts.len() - i,
    {
        if !stmt_fits(&stmts[i]) {
            assert(!stmt_in_range(stmts@[i as int]));
            return false;
        }
        i = i + 1;
    }
    true
}

} // verus!
