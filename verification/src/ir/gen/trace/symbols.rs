//! Operators are shown as they are written.

use super::texts::{arith_symbol, comparison_symbol};
use crate::ast::ops::{ArithBiOp, ComOp};
use crate::parser::common::{first_of, Node, Rule};
use crate::parser::expr::{add_op, comparison_op, mul_op};
use crate::parser::reading::{regular_comparison_op, regular_op, symbol, Token};
use vstd::prelude::*;

verus! {

/// A product or quotient is shown with the symbol that was read.
pub proof fn lemma_product_shown(n: Node, op: ArithBiOp)
    requires
        regular_op(n, Rule::OpMul, Rule::OpDiv),
        mul_op(n) == Some(op),
    ensures
        Token::Symbol(arith_symbol(op)) == symbol(n.children@[0].rule),
{
    let rules = seq![Rule::OpMul, Rule::OpDiv];
    assert(rules[0] == Rule::OpMul && rules[1] == Rule::OpDiv);
    assert(rules.contains(Rule::OpMul) && rules.contains(Rule::OpDiv));
    assert(first_of(n.children@, rules, 0) == Some(0nat));
}

/// A sum or difference is shown with the symbol that was read.
pub proof fn lemma_sum_shown(n: Node, op: ArithBiOp)
    requires
        regular_op(n, Rule::OpAdd, Rule::OpSub),
        add_op(n) == Some(op),
    ensures
        Token::Symbol(arith_symbol(op)) == symbol(n.children@[0].rule),
{
    let rules = seq![Rule::OpAdd, Rule::OpSub];
    assert(rules[0] == Rule::OpAdd && rules[1] == Rule::OpSub);
    assert(rules.contains(Rule::OpAdd) && rules.contains(Rule::OpSub));
    assert(first_of(n.children@, rules, 0) == Some(0nat));
}

/// A comparison is shown with the symbol that was read.
pub proof fn lemma_comparison_shown(n: Node, op: ComOp)
    requires
        regular_comparison_op(n),
        comparison_op(n) == Some(op),
    ensures
        Token::Symbol(comparison_symbol(op)) == symbol(n.children@[0].rule),
{
    let rules = seq![Rule::OpLt, Rule::OpGt, Rule::OpLe, Rule::OpGe, Rule::OpEq, Rule::OpNe];
    assert(rules[0] == Rule::OpLt && rules[1] == Rule::OpGt && rules[2] == Rule::OpLe && rules[3]
        == Rule::OpGe && rules[4] == Rule::OpEq && rules[5] == Rule::OpNe);
    assert(rules.contains(n.children@[0].rule));
    assert(first_of(n.children@, rules, 0) == Some(0nat));
}

} // verus!
