//! Expressions as source text, for the lines of a trace.

use crate::ast::expr::{
    ArithExpr, ArithExprInner, ArrayExpr, BoolExpr, BoolExprInner, BoolUnit, BoolUnitInner,
    ComExpr, ExprUnit, ExprUnitInner, FnCall, IndexExpr, IndexExprInner, LeftVal, LeftValInner,
    MemberExpr, RightVal, RightValInner,
};
use crate::ast::ops::{ArithBiOp, BoolBiOp, ComOp};
use crate::common::text::{group_text, i32_to_text, int_text, nat_text, owned, usize_to_text};
use vstd::prelude::*;
use vstd::string::*;

verus! {

broadcast use group_text;

/// The symbol of an arithmetic operator.
pub open spec fn arith_symbol(op: ArithBiOp) -> Seq<char> {
    match op {
        ArithBiOp::Add => "+"@,
        ArithBiOp::Sub => "-"@,
        ArithBiOp::Mul => "*"@,
        ArithBiOp::Div => "/"@,
    }
}

/// The symbol of an arithmetic operator.
pub fn arith_op(op: &ArithBiOp) -> (s: &'static str)
    ensures
        s@ == arith_symbol(*op),
{
    match op {
        ArithBiOp::Add => "+",
        ArithBiOp::Sub => "-",
        ArithBiOp::Mul => "*",
        ArithBiOp::Div => "/",
    }
}

/// The symbol of a logical operator.
pub open spec fn bool_symbol(op: BoolBiOp) -> Seq<char> {
    match op {
        BoolBiOp::And => "&&"@,
        BoolBiOp::Or => "||"@,
    }
}

/// The symbol of a logical operator.
pub fn bool_op(op: &BoolBiOp) -> (s: &'static str)
    ensures
        s@ == bool_symbol(*op),
{
    match op {
        BoolBiOp::And => "&&",
        BoolBiOp::Or => "||",
    }
}

/// The symbol of a comparison.
pub open spec fn comparison_symbol(op: ComOp) -> Seq<char> {
    match op {
        ComOp::Eq => "=="@,
        ComOp::Ne => "!="@,
        ComOp::Gt => ">"@,
        ComOp::Ge => ">="@,
        ComOp::Lt => "<"@,
        ComOp::Le => "<="@,
    }
}

/// The symbol of a comparison.
pub fn cmp_op(op: &ComOp) -> (s: &'static str)
    ensures
        s@ == comparison_symbol(*op),
{
    match op {
        ComOp::Eq => "==",
        ComOp::Ne => "!=",
        ComOp::Gt => ">",
        ComOp::Ge => ">=",
        ComOp::Lt => "<",
        ComOp::Le => "<=",
    }
}

/// An index.
pub open spec fn index_source(x: IndexExpr) -> Seq<char> {
    match x.inner {
        IndexExprInner::Num(n) => nat_text(n as nat),
        IndexExprInner::Id(id) => id@,
    }
}

/// An index.
pub fn index_expr(x: &IndexExpr) -> (s: String)
    ensures
        s@ == index_source(*x),
{
    match &x.inner {
        IndexExprInner::Num(n) => usize_to_text(*n),
        IndexExprInner::Id(id) => owned(id.as_str()),
    }
}

/// A place.
pub open spec fn place_source(x: LeftVal) -> Seq<char>
    decreases x,
{
    match x.inner {
        LeftValInner::Id(id) => id@,
        LeftValInner::ArrayExpr(e) => element_source(*e),
        LeftValInner::MemberExpr(e) => member_source(*e),
    }
}

/// A place.
pub fn left_val(x: &LeftVal) -> (s: String)
    ensures
        s@ == place_source(*x),
    decreases x,
{
    match &x.inner {
        LeftValInner::Id(id) => owned(id.as_str()),
        LeftValInner::ArrayExpr(e) => array_expr(e),
        LeftValInner::MemberExpr(e) => member_expr(e),
    }
}

/// An array and an index in brackets.
pub open spec fn element_source(x: ArrayExpr) -> Seq<char>
    decreases x,
{
    place_source(*x.arr) + "["@ + index_source(*x.idx) + "]"@
}

/// An array and an index in brackets.
pub fn array_expr(x: &ArrayExpr) -> (s: String)
    ensures
        s@ == element_source(*x),
    decreases x,
{
    let mut s = left_val(&x.arr);
    s.append("[");
    s.append(index_expr(&x.idx).as_str());
    s.append("]");
    s
}

/// A structure and a member behind a dot.
pub open spec fn member_source(x: MemberExpr) -> Seq<char>
    decreases x,
{
    place_source(*x.struct_id) + "."@ + x.member_id@
}

/// A structure and a member behind a dot.
pub fn member_expr(x: &MemberExpr) -> (s: String)
    ensures
        s@ == member_source(*x),
    decreases x,
{
    let mut s = left_val(&x.struct_id);
    s.append(".");
    s.append(x.member_id.as_str());
    s
}

/// Values with commas between them.
pub open spec fn values_source(vals: Seq<RightVal>) -> Seq<char>
    decreases vals,
{
    if vals.len() == 0 {
        Seq::empty()
    } else if vals.len() == 1 {
        value_source(vals[0])
    } else {
        values_source(vals.drop_last()) + ", "@ + value_source(vals.last())
    }
}

/// A callee with its arguments in parentheses.
pub open spec fn call_source(x: FnCall) -> Seq<char>
    decreases x,
{
    x.callee() + "("@ + values_source(x.vals@) + ")"@
}

/// A callee with its arguments in parentheses.
pub fn fn_call(x: &FnCall) -> (s: String)
    ensures
        s@ == call_source(*x),
    decreases x,
{
    let mut args = String::new();
    let mut i: usize = 0;
    assert(x.vals@.take(0) =~= Seq::empty());
    while i < x.vals.len()
        invariant
            i <= x.vals.len(),
            args@ == values_source(x.vals@.take(i as int)),
        decreases x.vals.len() - i,
    {
        let ghost front = x.vals@.take(i as int);
        let ghost longer = x.vals@.take(i + 1);
        assert(longer.drop_last() =~= front);
        assert(longer.last() == x.vals@[i as int]);
        if i > 0 {
            args.append(", ");
        }
        args.append(right_val(&x.vals[i]).as_str());
        i = i + 1;
    }
    assert(x.vals@.take(i as int) =~= x.vals@);
    let mut s = x.qualified_name();
    s.append("(");
    s.append(args.as_str());
    s.append(")");
    s
}

/// An operand; nested arithmetic stands in parentheses.
pub open spec fn unit_source(x: ExprUnit) -> Seq<char>
    decreases x,
{
    match x.inner {
        ExprUnitInner::Num(n) => int_text(n as int),
        ExprUnitInner::Id(id) => id@,
        ExprUnitInner::ArithExpr(e) => "("@ + arith_source(*e) + ")"@,
        ExprUnitInner::FnCall(c) => call_source(*c),
        ExprUnitInner::ArrayExpr(e) => element_source(*e),
        ExprUnitInner::MemberExpr(e) => member_source(*e),
        ExprUnitInner::Reference(id) => "&"@ + id@,
    }
}

/// An operand; nested arithmetic stands in parentheses.
pub fn expr_unit(x: &ExprUnit) -> (s: String)
    ensures
        s@ == unit_source(*x),
    decreases x,
{
    match &x.inner {
        ExprUnitInner::Num(n) => i32_to_text(*n),
        ExprUnitInner::Id(id) => owned(id.as_str()),
        ExprUnitInner::ArithExpr(e) => {
            let mut s = owned("(");
            s.append(arith_expr(e).as_str());
            s.append(")");
            s
        },
        ExprUnitInner::FnCall(c) => fn_call(c),
        ExprUnitInner::ArrayExpr(e) => array_expr(e),
        ExprUnitInner::MemberExpr(e) => member_expr(e),
        ExprUnitInner::Reference(id) => {
            let mut s = owned("&");
            s.append(id.as_str());
            s
        },
    }
}

/// An arithmetic expression.
pub open spec fn arith_source(x: ArithExpr) -> Seq<char>
    decreases x,
{
    match x.inner {
        ArithExprInner::ArithBiOpExpr(e) => arith_source(*e.left) + " "@ + arith_symbol(e.op) + " "@
            + arith_source(*e.right),
        ArithExprInner::ExprUnit(u) => unit_source(*u),
    }
}

/// An arithmetic expression.
pub fn arith_expr(x: &ArithExpr) -> (s: String)
    ensures
        s@ == arith_source(*x),
    decreases x,
{
    match &x.inner {
        ArithExprInner::ArithBiOpExpr(e) => {
            let mut s = arith_expr(&e.left);
            s.append(" ");
            s.append(arith_op(&e.op));
            s.append(" ");
            s.append(arith_expr(&e.right).as_str());
            s
        },
        ArithExprInner::ExprUnit(u) => expr_unit(u),
    }
}

/// A comparison.
pub open spec fn comparison_source(x: ComExpr) -> Seq<char>
    decreases x,
{
    unit_source(*x.left) + " "@ + comparison_symbol(x.op) + " "@ + unit_source(*x.right)
}

/// A comparison.
pub fn com_expr(x: &ComExpr) -> (s: String)
    ensures
        s@ == comparison_source(*x),
    decreases x,
{
    let mut s = expr_unit(&x.left);
    s.append(" ");
    s.append(cmp_op(&x.op));
    s.append(" ");
    s.append(expr_unit(&x.right).as_str());
    s
}

/// A condition.
pub open spec fn truth_source(x: BoolUnit) -> Seq<char>
    decreases x,
{
    match x.inner {
        BoolUnitInner::ComExpr(e) => comparison_source(*e),
        BoolUnitInner::BoolExpr(e) => bool_source(*e),
        BoolUnitInner::BoolUOpExpr(e) => "!"@ + truth_source(*e.cond),
    }
}

/// A condition.
pub fn bool_unit(x: &BoolUnit) -> (s: String)
    ensures
        s@ == truth_source(*x),
    decreases x,
{
    match &x.inner {
        BoolUnitInner::ComExpr(e) => com_expr(e),
        BoolUnitInner::BoolExpr(e) => bool_expr(e),
        BoolUnitInner::BoolUOpExpr(e) => {
            let mut s = owned("!");
            s.append(bool_unit(&e.cond).as_str());
            s
        },
    }
}

/// A logical expression.
pub open spec fn bool_source(x: BoolExpr) -> Seq<char>
    decreases x,
{
    match x.inner {
        BoolExprInner::BoolBiOpExpr(e) => bool_source(*e.left) + " "@ + bool_symbol(e.op) + " "@
            + bool_source(*e.right),
        BoolExprInner::BoolUnit(u) => truth_source(*u),
    }
}

/// A logical expression.
pub fn bool_expr(x: &BoolExpr) -> (s: String)
    ensures
        s@ == bool_source(*x),
    decreases x,
{
    match &x.inner {
        BoolExprInner::BoolBiOpExpr(e) => {
            let mut s = bool_expr(&e.left);
            s.append(" ");
            s.append(bool_op(&e.op));
            s.append(" ");
            s.append(bool_expr(&e.right).as_str());
            s
        },
        BoolExprInner::BoolUnit(u) => bool_unit(u),
    }
}

/// A value.
pub open spec fn value_source(x: RightVal) -> Seq<char>
    decreases x,
{
    match x.inner {
        RightValInner::ArithExpr(e) => arith_source(*e),
        RightValInner::BoolExpr(e) => bool_source(*e),
    }
}

/// A value.
pub fn right_val(x: &RightVal) -> (s: String)
    ensures
        s@ == value_source(*x),
    decreases x,
{
    match &x.inner {
        RightValInner::ArithExpr(e) => arith_expr(e),
        RightValInner::BoolExpr(e) => bool_expr(e),
    }
}

} // verus!
