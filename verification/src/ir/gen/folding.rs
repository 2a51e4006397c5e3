//! The value that a constant expression gets is what the expression means.

use crate::ast::expr::{
    ArithExpr, ArithExprInner, BoolExpr, BoolExprInner, BoolUnit, BoolUnitInner, ExprUnit,
    ExprUnitInner, RightVal, RightValInner,
};
use crate::ast::ops::{ArithBiOp, BoolBiOp, ComOp};
use crate::ir::error::ErrorModel;
use crate::ir::execution::{as_number, narrowed};
use crate::ir::gen::meaning::{self, content, Scope};
use crate::ir::gen::static_eval::{
    arith_value, bool_unit_value, bool_value, comparison_value, operate, quotient, right_value,
    unit_value,
};
use crate::ir::stmt::{arith_of, predicate_of, ArithBinOp, CmpPredicate};
use crate::ir::types::DtypeModel;
use vstd::prelude::*;

verus! {

/// A number of 32 bits with a sign.
pub open spec fn fits(n: int) -> bool {
    -0x8000_0000 <= n < 0x8000_0000
}

/// The number `v` answers the question that an operator asks of `a` and `b`:
/// what `b` must be taken from to leave `a`, and so on.  A quotient leaves a
/// rest that is smaller than the divisor and has the sign of the dividend.
pub open spec fn answers(op: ArithBiOp, a: int, b: int, v: int) -> bool {
    match op {
        ArithBiOp::Add => v - b == a,
        ArithBiOp::Sub => v + b == a,
        ArithBiOp::Mul => v == b * a,
        ArithBiOp::Div => {
            let rest = a - v * b;
            &&& b != 0
            &&& (-b < rest < b || b < rest < -b)
            &&& (a >= 0 ==> rest >= 0)
            &&& (a <= 0 ==> rest <= 0)
        },
    }
}

/// A quotient leaves a rest that is smaller than the divisor and has the sign
/// of the dividend, and no other number does.
pub proof fn lemma_quotient(a: int, b: int, v: int)
    requires
        b != 0,
    ensures
        answers(ArithBiOp::Div, a, b, v) <==> v == quotient(a, b),
{
    let q = quotient(a, b);
    let x = if a >= 0 {
        a
    } else {
        -a
    };
    let y = if b > 0 {
        b
    } else {
        -b
    };
    let p = x / y;
    assert(x == y * p + x % y && 0 <= x % y < y) by (nonlinear_arith)
        requires
            p == x / y,
            y > 0,
    ;
    let rest = a - q * b;
    assert(rest == if a >= 0 {
        x % y
    } else {
        -(x % y)
    }) by (nonlinear_arith)
        requires
            x == y * p + x % y,
            rest == a - q * b,
            a >= 0 ==> x == a,
            a < 0 ==> x == -a,
            b > 0 ==> y == b,
            b < 0 ==> y == -b,
            b != 0,
            q == if (a >= 0) == (b > 0) {
                p
            } else {
                -p
            },
    ;
    assert(answers(ArithBiOp::Div, a, b, q));
    if answers(ArithBiOp::Div, a, b, v) {
        let other = a - v * b;
        assert(v == q) by (nonlinear_arith)
            requires
                b != 0,
                other == a - v * b,
                rest == a - q * b,
                -b < other < b || b < other < -b,
                -b < rest < b || b < rest < -b,
                a >= 0 ==> other >= 0 && rest >= 0,
                a <= 0 ==> other <= 0 && rest <= 0,
        {
            assert((q - v) * b == other - rest);
            let k = q - v;
            if k >= 1 {
                assert(b > 0 ==> k * b >= b);
                assert(b < 0 ==> k * b <= b);
            }
            if k <= -1 {
                assert(b > 0 ==> k * b <= -b);
                assert(b < 0 ==> k * b >= -b);
            }
        }
    }
}

/// An operation on constants gives the number that answers the question, where
/// there is one that fits into 32 bits; there is none for a quotient by zero.
pub proof fn lemma_operates(op: ArithBiOp, a: int, b: int, v: int)
    ensures
        operate(op, a, b) == Ok::<int, ErrorModel>(v) <==> fits(v) && answers(op, a, b, v),
        operate(op, a, b) == Err::<int, ErrorModel>(ErrorModel::DivisionByZero) <==> op
            == ArithBiOp::Div && b == 0,
        operate(op, a, b) is Ok || operate(op, a, b) == Err::<int, ErrorModel>(
            ErrorModel::IntegerOverflow,
        ) || operate(op, a, b) == Err::<int, ErrorModel>(ErrorModel::DivisionByZero),
{
    if op == ArithBiOp::Div && b != 0 {
        lemma_quotient(a, b, v);
    }
    assert(a * b == b * a) by (nonlinear_arith);
}

/// Numbers that fit are left alone.
pub proof fn lemma_fitting(n: int)
    requires
        fits(n),
    ensures
        narrowed(n) == n,
{
}

/// A constant arithmetic expression gets the value that it has wherever it
/// stands, and computing it changes nothing.
pub proof fn lemma_arith_folds(sc: Scope, cells: Map<int, int>, e: ArithExpr)
    requires
        arith_value(e) is Ok,
    ensures
        ({
            let (v, c) = meaning::arith_value(sc, cells, e);
            c == cells && v.num == arith_value(e)->Ok_0 && v.ty == DtypeModel::I32 && !v.global
        }),
    decreases e,
{
    match e.inner {
        ArithExprInner::ArithBiOpExpr(b) => {
            lemma_arith_folds(sc, cells, *b.left);
            lemma_arith_folds(sc, cells, *b.right);
            let l = arith_value(*b.left)->Ok_0;
            let r = arith_value(*b.right)->Ok_0;
            lemma_operates(b.op, l, r, arith_value(e)->Ok_0);
            lemma_fitting(arith_value(e)->Ok_0);
            if b.op == ArithBiOp::Div {
                lemma_quotient(l, r, arith_value(e)->Ok_0);
            }
            assert(l * r == r * l) by (nonlinear_arith);
        },
        ArithExprInner::ExprUnit(u) => {
            lemma_unit_folds(sc, cells, *u);
        },
    }
}

/// A constant atomic expression gets the value that it has wherever it stands,
/// and computing it changes nothing.
pub proof fn lemma_unit_folds(sc: Scope, cells: Map<int, int>, u: ExprUnit)
    requires
        unit_value(u) is Ok,
    ensures
        ({
            let (v, c) = meaning::unit_value(sc, cells, u);
            c == cells && v.num == unit_value(u)->Ok_0 && v.ty == DtypeModel::I32 && !v.global
        }),
    decreases u,
{
    match u.inner {
        ExprUnitInner::ArithExpr(e) => {
            lemma_arith_folds(sc, cells, *e);
            assert(meaning::unit_value(sc, cells, u) == ({
                let (v, c) = meaning::arith_value(sc, cells, *e);
                (content(c, v), c)
            }));
        },
        _ => {},
    }
}

/// A constant boolean expression gets one where it is true and zero where it
/// is false, wherever it stands, and computing it changes nothing.
pub proof fn lemma_bool_folds(sc: Scope, cells: Map<int, int>, e: BoolExpr)
    requires
        bool_value(e) is Ok,
    ensures
        meaning::truth(sc, cells, e).1 == cells,
        bool_value(e)->Ok_0 == as_number(meaning::truth(sc, cells, e).0),
    decreases e,
{
    match e.inner {
        BoolExprInner::BoolBiOpExpr(b) => {
            lemma_bool_folds(sc, cells, *b.left);
            lemma_bool_folds(sc, cells, *b.right);
            match b.op {
                BoolBiOp::And => {},
                BoolBiOp::Or => {},
            }
        },
        BoolExprInner::BoolUnit(u) => lemma_atom_folds(sc, cells, *u),
    }
}

/// A constant atomic boolean expression gets one where it is true and zero
/// where it is false, wherever it stands, and computing it changes nothing.
pub proof fn lemma_atom_folds(sc: Scope, cells: Map<int, int>, u: BoolUnit)
    requires
        bool_unit_value(u) is Ok,
    ensures
        meaning::atom_truth(sc, cells, u).1 == cells,
        bool_unit_value(u)->Ok_0 == as_number(meaning::atom_truth(sc, cells, u).0),
    decreases u,
{
    match u.inner {
        BoolUnitInner::ComExpr(c) => {
            assert(comparison_value(*c) is Ok);
            lemma_unit_folds(sc, cells, *c.left);
            lemma_unit_folds(sc, cells, *c.right);
            assert(meaning::comparison_truth(sc, cells, *c).1 == cells);
        },
        BoolUnitInner::BoolExpr(e) => lemma_bool_folds(sc, cells, *e),
        BoolUnitInner::BoolUOpExpr(n) => lemma_atom_folds(sc, cells, *n.cond),
    }
}

/// A constant gets the value that the expression has wherever it stands.
pub proof fn lemma_value_folds(sc: Scope, cells: Map<int, int>, r: RightVal)
    requires
        right_value(r) is Ok,
    ensures
        meaning::right_value(sc, cells, r).0.num == right_value(r)->Ok_0,
{
    match r.inner {
        RightValInner::ArithExpr(e) => lemma_arith_folds(sc, cells, *e),
        RightValInner::BoolExpr(e) => {
            let (at, c) = (sc.m.places)(cells, DtypeModel::I32.pointer());
            lemma_bool_folds(sc, c, *e);
            assert(meaning::right_value(sc, cells, r) == meaning::truth_value(sc, cells, *e));
        },
    }
}

/// What the name of an arithmetic statement says that it computes.
pub open spec fn name_answers(name: Seq<char>, a: int, b: int, v: int) -> bool {
    if name == seq!['a', 'd', 'd'] {
        answers(ArithBiOp::Add, a, b, v)
    } else if name == seq!['s', 'u', 'b'] {
        answers(ArithBiOp::Sub, a, b, v)
    } else if name == seq!['m', 'u', 'l'] {
        answers(ArithBiOp::Mul, a, b, v)
    } else {
        name == seq!['s', 'd', 'i', 'v'] && answers(ArithBiOp::Div, a, b, v)
    }
}

/// The statement that an operator becomes is printed under the name of what
/// the operator computes.
pub proof fn lemma_operator_named(op: ArithBiOp, a: int, b: int, v: int)
    ensures
        name_answers(arith_of(op).text(), a, b, v) == answers(op, a, b, v),
{
    reveal_strlit("add");
    reveal_strlit("sub");
    reveal_strlit("mul");
    reveal_strlit("sdiv");
    assert(ArithBinOp::Add.text() =~= seq!['a', 'd', 'd']);
    assert(ArithBinOp::Sub.text() =~= seq!['s', 'u', 'b']);
    assert(ArithBinOp::Mul.text() =~= seq!['m', 'u', 'l']);
    assert(ArithBinOp::SDiv.text() =~= seq!['s', 'd', 'i', 'v']);
    assert(seq!['a', 'd', 'd'][0] == 'a' && seq!['s', 'u', 'b'][0] == 's' && seq![
        'm',
        'u',
        'l',
    ][0] == 'm' && seq!['s', 'd', 'i', 'v'][0] == 's');
    assert(seq!['s', 'u', 'b'].len() == 3 && seq!['s', 'd', 'i', 'v'].len() == 4);
}

/// What the name of a predicate says of two numbers.
pub open spec fn name_relates(name: Seq<char>, a: int, b: int) -> bool {
    if name == seq!['e', 'q'] {
        a - b == 0
    } else if name == seq!['n', 'e'] {
        a - b != 0
    } else if name == seq!['s', 'l', 't'] {
        a - b < 0
    } else if name == seq!['s', 'l', 'e'] {
        a - b <= 0
    } else if name == seq!['s', 'g', 't'] {
        a - b > 0
    } else {
        name == seq!['s', 'g', 'e'] && a - b >= 0
    }
}

/// The predicate that a comparison becomes is printed under the name of what
/// the comparison says.
pub proof fn lemma_predicate_named(op: ComOp, a: int, b: int)
    ensures
        name_relates(predicate_of(op).text(), a, b) == meaning::comparison(op, a, b),
{
    reveal_strlit("eq");
    reveal_strlit("ne");
    reveal_strlit("slt");
    reveal_strlit("sle");
    reveal_strlit("sgt");
    reveal_strlit("sge");
    assert(CmpPredicate::Eq.text() =~= seq!['e', 'q']);
    assert(CmpPredicate::Ne.text() =~= seq!['n', 'e']);
    assert(CmpPredicate::Slt.text() =~= seq!['s', 'l', 't']);
    assert(CmpPredicate::Sle.text() =~= seq!['s', 'l', 'e']);
    assert(CmpPredicate::Sgt.text() =~= seq!['s', 'g', 't']);
    assert(CmpPredicate::Sge.text() =~= seq!['s', 'g', 'e']);
    assert(seq!['e', 'q'].len() == 2 && seq!['n', 'e'].len() == 2);
    assert(seq!['e', 'q'][0] == 'e' && seq!['n', 'e'][0] == 'n');
    assert(seq!['s', 'l', 't'].len() == 3 && seq!['s', 'l', 't'][1] == 'l' && seq!['s', 'l', 't'][2]
        == 't');
    assert(seq!['s', 'l', 'e'].len() == 3 && seq!['s', 'l', 'e'][1] == 'l' && seq!['s', 'l', 'e'][2]
        == 'e');
    assert(seq!['s', 'g', 't'].len() == 3 && seq!['s', 'g', 't'][1] == 'g' && seq!['s', 'g', 't'][2]
        == 't');
    assert(seq!['s', 'g', 'e'].len() == 3 && seq!['s', 'g', 'e'][1] == 'g' && seq!['s', 'g', 'e'][2]
        == 'e');
}

} // verus!
