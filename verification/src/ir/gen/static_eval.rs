//! Evaluation of constant expressions, as they initialize globals.

use crate::ast::expr::{
    ArithBiOpExpr, ArithExpr, ArithExprInner, BoolBiOpExpr, BoolExpr, BoolExprInner, BoolUOpExpr,
    BoolUnit, BoolUnitInner, ComExpr, ExprUnit, ExprUnitInner, RightVal, RightValInner,
};
use crate::ast::ops::{ArithBiOp, BoolBiOp, BoolUOp, ComOp};
use crate::ir::error::{Error, ErrorModel};
use vstd::prelude::*;

verus! {

/// Division of integers that rounds toward zero.
pub open spec fn quotient(a: int, b: int) -> int {
    if a >= 0 && b > 0 {
        a / b
    } else if a >= 0 {
        -(a / -b)
    } else if b > 0 {
        -(-a / b)
    } else {
        -a / -b
    }
}

/// `v`, if it is a 32-bit integer; else the error `e`.
pub open spec fn fitting(v: int, e: ErrorModel) -> Result<int, ErrorModel> {
    if i32::MIN <= v <= i32::MAX {
        Ok(v)
    } else {
        Err(e)
    }
}

/// The result of an arithmetic operation on constants.
pub open spec fn operate(op: ArithBiOp, a: int, b: int) -> Result<int, ErrorModel> {
    match op {
        ArithBiOp::Add => fitting(a + b, ErrorModel::IntegerOverflow),
        ArithBiOp::Sub => fitting(a - b, ErrorModel::IntegerOverflow),
        ArithBiOp::Mul => fitting(a * b, ErrorModel::IntegerOverflow),
        ArithBiOp::Div => if b == 0 {
            Err(ErrorModel::DivisionByZero)
        } else {
            fitting(quotient(a, b), ErrorModel::IntegerOverflow)
        },
    }
}

/// The truth of a comparison.
pub open spec fn compares(op: ComOp, a: int, b: int) -> bool {
    match op {
        ComOp::Lt => a < b,
        ComOp::Le => a <= b,
        ComOp::Gt => a > b,
        ComOp::Ge => a >= b,
        ComOp::Eq => a == b,
        ComOp::Ne => a != b,
    }
}

/// A truth value as an integer.
pub open spec fn bit_of(b: bool) -> int {
    if b {
        1
    } else {
        0
    }
}

/// The value of a constant arithmetic expression.
pub open spec fn arith_value(e: ArithExpr) -> Result<int, ErrorModel>
    decreases e,
{
    match e.inner {
        ArithExprInner::ArithBiOpExpr(b) => match arith_value(*b.left) {
            Err(x) => Err(x),
            Ok(l) => match arith_value(*b.right) {
                Err(x) => Err(x),
                Ok(r) => operate(b.op, l, r),
            },
        },
        ArithExprInner::ExprUnit(u) => unit_value(*u),
    }
}

/// The value of a constant atomic expression: literals and parentheses.
pub open spec fn unit_value(u: ExprUnit) -> Result<int, ErrorModel>
    decreases u,
{
    match u.inner {
        ExprUnitInner::Num(n) => Ok(n as int),
        ExprUnitInner::ArithExpr(e) => arith_value(*e),
        _ => Err(ErrorModel::InvalidExprUnit { expr_unit: u@ }),
    }
}

/// The value of a constant comparison.
pub open spec fn comparison_value(c: ComExpr) -> Result<int, ErrorModel>
    decreases c,
{
    match unit_value(*c.left) {
        Err(x) => Err(x),
        Ok(l) => match unit_value(*c.right) {
            Err(x) => Err(x),
            Ok(r) => Ok(bit_of(compares(c.op, l, r))),
        },
    }
}

/// The value of a constant boolean expression, 0 or 1.  Both operands of `&&`
/// and `||` are evaluated.
pub open spec fn bool_value(e: BoolExpr) -> Result<int, ErrorModel>
    decreases e,
{
    match e.inner {
        BoolExprInner::BoolBiOpExpr(b) => match bool_value(*b.left) {
            Err(x) => Err(x),
            Ok(l) => match bool_value(*b.right) {
                Err(x) => Err(x),
                Ok(r) => Ok(
                    bit_of(
                        match b.op {
                            BoolBiOp::And => l != 0 && r != 0,
                            BoolBiOp::Or => l != 0 || r != 0,
                        },
                    ),
                ),
            },
        },
        BoolExprInner::BoolUnit(u) => bool_unit_value(*u),
    }
}

/// The value of a constant atomic boolean expression.
pub open spec fn bool_unit_value(u: BoolUnit) -> Result<int, ErrorModel>
    decreases u,
{
    match u.inner {
        BoolUnitInner::ComExpr(c) => comparison_value(*c),
        BoolUnitInner::BoolExpr(e) => bool_value(*e),
        BoolUnitInner::BoolUOpExpr(n) => match bool_unit_value(*n.cond) {
            Err(x) => Err(x),
            Ok(v) => Ok(bit_of(v == 0)),
        },
    }
}

/// The value of a constant right-hand side.
pub open spec fn right_value(r: RightVal) -> Result<int, ErrorModel> {
    match r.inner {
        RightValInner::ArithExpr(e) => arith_value(*e),
        RightValInner::BoolExpr(e) => bool_value(*e),
    }
}

/// The outcome of an evaluation, with models in place of values.
pub open spec fn evaluated(r: Result<i32, Error>) -> Result<int, ErrorModel> {
    match r {
        Ok(v) => Ok(v as int),
        Err(e) => Err(e@),
    }
}

/// A truth value as an integer.
fn bit(b: bool) -> (v: i32)
    ensures
        v == bit_of(b),
{
    if b {
        1
    } else {
        0
    }
}

/// Evaluates a constant right-hand side.
pub fn handle_right_val_static(r: &RightVal) -> (v: Result<i32, Error>)
    ensures
        evaluated(v) == right_value(*r),
{
    match &r.inner {
        RightValInner::ArithExpr(expr) => handle_arith_expr_static(expr),
        RightValInner::BoolExpr(expr) => handle_bool_expr_static(expr),
    }
}

/// Evaluates a constant arithmetic expression.
pub fn handle_arith_expr_static(expr: &ArithExpr) -> (v: Result<i32, Error>)
    ensures
        evaluated(v) == arith_value(*expr),
    decreases expr,
{
    match &expr.inner {
        ArithExprInner::ArithBiOpExpr(e) => handle_arith_biop_expr_static(e),
        ArithExprInner::ExprUnit(unit) => handle_expr_unit_static(unit),
    }
}

/// Evaluates a constant boolean expression.
pub fn handle_bool_expr_static(expr: &BoolExpr) -> (v: Result<i32, Error>)
    ensures
        evaluated(v) == bool_value(*expr),
    decreases expr,
{
    match &expr.inner {
        BoolExprInner::BoolBiOpExpr(e) => handle_bool_biop_expr_static(e),
        BoolExprInner::BoolUnit(unit) => handle_bool_unit_static(unit),
    }
}

/// Evaluates an arithmetic operation on constants.
pub fn handle_arith_biop_expr_static(expr: &ArithBiOpExpr) -> (v: Result<i32, Error>)
    ensures
        evaluated(v) == (match arith_value(*expr.left) {
            Err(x) => Err(x),
            Ok(l) => match arith_value(*expr.right) {
                Err(x) => Err(x),
                Ok(r) => operate(expr.op, l, r),
            },
        }),
    decreases expr,
{
    let left: i32 = handle_arith_expr_static(&expr.left)?;
    let right: i32 = handle_arith_expr_static(&expr.right)?;
    let result: Option<i32> = match expr.op {
        ArithBiOp::Add => left.checked_add(right),
        ArithBiOp::Sub => left.checked_sub(right),
        ArithBiOp::Mul => left.checked_mul(right),
        ArithBiOp::Div => {
            if right == 0 {
                return Err(Error::DivisionByZero);
            }
            left.checked_div(right)
        },
    };
    match result {
        Some(v) => Ok(v),
        None => Err(Error::IntegerOverflow),
    }
}

/// Evaluates a constant atomic expression.
pub fn handle_expr_unit_static(expr: &ExprUnit) -> (v: Result<i32, Error>)
    ensures
        evaluated(v) == unit_value(*expr),
    decreases expr,
{
    match &expr.inner {
        ExprUnitInner::Num(num) => Ok(*num),
        ExprUnitInner::ArithExpr(e) => handle_arith_expr_static(e),
        _ => Err(Error::InvalidExprUnit { expr_unit: expr.copy() }),
    }
}

/// Evaluates `&&` or `||` on constants.
pub fn handle_bool_biop_expr_static(expr: &BoolBiOpExpr) -> (v: Result<i32, Error>)
    ensures
        evaluated(v) == (match bool_value(*expr.left) {
            Err(x) => Err(x),
            Ok(l) => match bool_value(*expr.right) {
                Err(x) => Err(x),
                Ok(r) => Ok(
                    bit_of(
                        match expr.op {
                            BoolBiOp::And => l != 0 && r != 0,
                            BoolBiOp::Or => l != 0 || r != 0,
                        },
                    ),
                ),
            },
        }),
    decreases expr,
{
    let left = handle_bool_expr_static(&expr.left)? != 0;
    let right = handle_bool_expr_static(&expr.right)? != 0;
    match expr.op {
        BoolBiOp::And => Ok(bit(left && right)),
        BoolBiOp::Or => Ok(bit(left || right)),
    }
}

/// Evaluates a constant atomic boolean expression.
pub fn handle_bool_unit_static(unit: &BoolUnit) -> (v: Result<i32, Error>)
    ensures
        evaluated(v) == bool_unit_value(*unit),
    decreases unit,
{
    match &unit.inner {
        BoolUnitInner::ComExpr(expr) => handle_com_op_expr_static(expr),
        BoolUnitInner::BoolExpr(expr) => handle_bool_expr_static(expr),
        BoolUnitInner::BoolUOpExpr(expr) => handle_bool_uop_expr_static(expr),
    }
}

/// Evaluates a comparison of constants.
pub fn handle_com_op_expr_static(expr: &ComExpr) -> (v: Result<i32, Error>)
    ensures
        evaluated(v) == comparison_value(*expr),
    decreases expr,
{
    let left: i32 = handle_expr_unit_static(&expr.left)?;
    let right: i32 = handle_expr_unit_static(&expr.right)?;
    Ok(
        bit(
            match expr.op {
                ComOp::Lt => left < right,
                ComOp::Eq => left == right,
                ComOp::Ge => left >= right,
                ComOp::Gt => left > right,
                ComOp::Le => left <= right,
                ComOp::Ne => left != right,
            },
        ),
    )
}

/// Evaluates a negation.
pub fn handle_bool_uop_expr_static(expr: &BoolUOpExpr) -> (v: Result<i32, Error>)
    ensures
        evaluated(v) == (match bool_unit_value(*expr.cond) {
            Err(x) => Err(x),
            Ok(v) => Ok(bit_of(v == 0)),
        }),
    decreases expr,
{
    match expr.op {
        BoolUOp::Not => Ok(bit(handle_bool_unit_static(&expr.cond)? == 0)),
    }
}

} // verus!
