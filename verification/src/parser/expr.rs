//! The parser of expressions.

use super::common::{
    answers, find_first, first_of, grammar_error, grammar_fault, inside, last_of, lemma_inside,
    negates_least, num_error, number, parse_num, shaped, without_parens, Error, ErrorModel, Node,
    Rule,
};
use crate::ast::expr::{
    ArithBiOpExpr, ArithExpr, ArithExprInner, ArrayExpr, BoolBiOpExpr, BoolExpr, BoolExprInner,
    BoolUOpExpr, BoolUnit, BoolUnitInner, ComExpr, ExprUnit, ExprUnitInner, FnCall, IndexExpr,
    IndexExprInner, LeftVal, LeftValInner, MemberExpr, RightVal, RightValInner,
};
use crate::ast::ops::{ArithBiOp, BoolBiOp, BoolUOp, ComOp};
use crate::common::text::{join_strings, join_text, texts};
use vstd::prelude::*;
use vstd::string::*;

verus! {

/// The texts of the identifiers among the first `k` nodes.
pub open spec fn identifiers(nodes: Seq<Node>, k: nat) -> Seq<Seq<char>>
    decreases k,
{
    if k == 0 {
        Seq::empty()
    } else if nodes[k - 1].rule == Rule::Identifier {
        identifiers(nodes, (k - 1) as nat).push(nodes[k - 1].text@)
    } else {
        identifiers(nodes, (k - 1) as nat)
    }
}

/// The text of the last identifier; nothing where there is none.
pub open spec fn last_name(nodes: Seq<Node>) -> Seq<char> {
    match last_of(nodes, Rule::Identifier, nodes.len()) {
        Some(i) => nodes[i as int].text@,
        None => Seq::empty(),
    }
}

/// Where a scan from position `i` on finds operators: what follows one is its
/// operand.
pub open spec fn operators(nodes: Seq<Node>, rule: Rule, i: nat) -> Seq<nat>
    decreases nodes.len() + 2 - i,
{
    if i >= nodes.len() {
        Seq::empty()
    } else if nodes[i as int].rule == rule {
        seq![i] + operators(nodes, rule, i + 2)
    } else {
        operators(nodes, rule, i + 1)
    }
}

/// The index that a tree stands for.
pub open spec fn index_is(n: Node, e: IndexExpr) -> bool {
    match first_of(n.children@, seq![Rule::Num, Rule::Identifier], 0) {
        None => false,
        Some(i) => {
            let c = n.children@[i as int];
            if c.rule == Rule::Num {
                e.inner matches IndexExprInner::Num(v) && number(c.text@) matches Some(x) && v
                    == x as i32 as usize
            } else {
                e.inner matches IndexExprInner::Id(id) && id@ == c.text@
            }
        },
    }
}

/// What is wrong with an index.
pub open spec fn index_error(n: Node) -> Option<ErrorModel> {
    match first_of(n.children@, seq![Rule::Num, Rule::Identifier], 0) {
        None => Some(grammar_fault("index_expr"@, n)),
        Some(i) => {
            let c = n.children@[i as int];
            if c.rule == Rule::Num {
                num_error(c)
            } else {
                None
            }
        },
    }
}

/// What a suffix of a place is.
pub open spec fn suffix_part(s: Node) -> Option<nat> {
    first_of(s.children@, seq![Rule::IndexExpr, Rule::Identifier], 0)
}

/// What is wrong with a suffix.
pub open spec fn suffix_error(s: Node) -> Option<ErrorModel> {
    match suffix_part(s) {
        None => None,
        Some(i) => if s.children@[i as int].rule == Rule::IndexExpr {
            index_error(s.children@[i as int])
        } else {
            None
        },
    }
}

/// How many of the nodes belong to a place: a name and the suffixes that
/// follow it.
pub open spec fn chain_end(nodes: Seq<Node>, i: nat) -> nat
    decreases nodes.len() - i,
{
    if i >= nodes.len() || nodes[i as int].rule != Rule::ExprSuffix {
        i
    } else {
        chain_end(nodes, i + 1)
    }
}

/// What is wrong with the suffixes from position `i` on.
pub open spec fn chain_error(nodes: Seq<Node>, i: nat) -> Option<ErrorModel>
    decreases nodes.len() - i,
{
    if i >= nodes.len() || nodes[i as int].rule != Rule::ExprSuffix {
        None
    } else {
        match suffix_error(nodes[i as int]) {
            Some(e) => Some(e),
            None => chain_error(nodes, i + 1),
        }
    }
}

/// The place that a name and the suffixes before position `k` stand for.
pub open spec fn chain_is(nodes: Seq<Node>, pos: usize, k: nat, v: LeftVal) -> bool
    decreases k,
{
    &&& v.pos == pos
    &&& if k <= 1 {
        v.inner matches LeftValInner::Id(id) && id@ == nodes[0].text@
    } else {
        let s = nodes[k - 1];
        match suffix_part(s) {
            None => chain_is(nodes, pos, (k - 1) as nat, v),
            Some(i) => {
                let c = s.children@[i as int];
                if c.rule == Rule::IndexExpr {
                    v.inner matches LeftValInner::ArrayExpr(a) && chain_is(
                        nodes,
                        pos,
                        (k - 1) as nat,
                        *a.arr,
                    ) && index_is(c, *a.idx)
                } else {
                    v.inner matches LeftValInner::MemberExpr(m) && chain_is(
                        nodes,
                        pos,
                        (k - 1) as nat,
                        *m.struct_id,
                    ) && m.member_id@ == c.text@
                }
            },
        }
    }
}

/// The place that a tree stands for.
pub open spec fn left_val_is(n: Node, v: LeftVal) -> bool {
    chain_is(n.children@, n.pos, chain_end(n.children@, 1), v)
}

/// What is wrong with a place.
pub open spec fn left_val_error(n: Node) -> Option<ErrorModel> {
    if n.children@.len() == 0 {
        Some(grammar_fault("left_val"@, n))
    } else {
        chain_error(n.children@, 1)
    }
}

/// A place as an expression.
pub open spec fn as_unit(v: LeftVal, u: ExprUnit) -> bool {
    &&& u.pos == v.pos
    &&& u.inner == (match v.inner {
        LeftValInner::Id(id) => ExprUnitInner::Id(id),
        LeftValInner::ArrayExpr(a) => ExprUnitInner::ArrayExpr(a),
        LeftValInner::MemberExpr(m) => ExprUnitInner::MemberExpr(m),
    })
}

/// The expression that a name and the suffixes that follow it stand for.
pub open spec fn chain_unit_is(n: Node, u: ExprUnit) -> bool {
    exists|v: LeftVal| #[trigger] left_val_is(n, v) && as_unit(v, u)
}

/// The comparison operator that a tree stands for.
pub open spec fn comparison_op(n: Node) -> Option<ComOp> {
    match first_of(
        n.children@,
        seq![Rule::OpLt, Rule::OpGt, Rule::OpLe, Rule::OpGe, Rule::OpEq, Rule::OpNe],
        0,
    ) {
        None => None,
        Some(i) => Some(
            match n.children@[i as int].rule {
                Rule::OpLt => ComOp::Lt,
                Rule::OpGt => ComOp::Gt,
                Rule::OpLe => ComOp::Le,
                Rule::OpGe => ComOp::Ge,
                Rule::OpEq => ComOp::Eq,
                _ => ComOp::Ne,
            },
        ),
    }
}

/// The additive operator that a tree stands for.
pub open spec fn add_op(n: Node) -> Option<ArithBiOp> {
    match first_of(n.children@, seq![Rule::OpAdd, Rule::OpSub], 0) {
        None => None,
        Some(i) => Some(
            if n.children@[i as int].rule == Rule::OpAdd {
                ArithBiOp::Add
            } else {
                ArithBiOp::Sub
            },
        ),
    }
}

/// The multiplicative operator that a tree stands for.
pub open spec fn mul_op(n: Node) -> Option<ArithBiOp> {
    match first_of(n.children@, seq![Rule::OpMul, Rule::OpDiv], 0) {
        None => None,
        Some(i) => Some(
            if n.children@[i as int].rule == Rule::OpMul {
                ArithBiOp::Mul
            } else {
                ArithBiOp::Div
            },
        ),
    }
}

/// A fault where there is nothing.
pub open spec fn missing<T>(x: Option<T>, context: Seq<char>, n: Node) -> Option<ErrorModel> {
    match x {
        Some(_) => None,
        None => Some(grammar_fault(context, n)),
    }
}

/// The forms of an atomic expression.
pub enum UnitForm {
    Negated(nat),
    Parenthesized(nat),
    Call(nat),
    Literal(nat),
    Reference(nat),
    Place,
    Unknown,
}

/// The form of an atomic expression, and the position of its part.
pub open spec fn unit_form(n: Node) -> UnitForm {
    let c = n.children@;
    let f = inside(c, c.len());
    if f.len() == 2 && c[f[0] as int].rule == Rule::OpSub && c[f[1] as int].rule == Rule::Num {
        UnitForm::Negated(f[1])
    } else if f.len() == 1 && c[f[0] as int].rule == Rule::ArithExpr {
        UnitForm::Parenthesized(f[0])
    } else if f.len() > 0 && c[f[0] as int].rule == Rule::FnCall {
        UnitForm::Call(f[0])
    } else if f.len() == 1 && c[f[0] as int].rule == Rule::Num {
        UnitForm::Literal(f[0])
    } else if f.len() == 2 && c[f[0] as int].rule == Rule::Ampersand && c[f[1] as int].rule
        == Rule::Identifier {
        UnitForm::Reference(f[1])
    } else if c.len() > 0 && c[0].rule == Rule::Identifier {
        UnitForm::Place
    } else {
        UnitForm::Unknown
    }
}

/// What is wrong with an atomic expression.
pub open spec fn unit_error(n: Node) -> Option<ErrorModel>
    decreases n, 0nat, 0nat,
{
    let c = n.children@;
    match unit_form(n) {
        UnitForm::Negated(i) => num_error(c[i as int]),
        UnitForm::Parenthesized(i) => if i < c.len() {
            arith_error(c[i as int])
        } else {
            None
        },
        UnitForm::Call(i) => if i < c.len() {
            call_error(c[i as int])
        } else {
            None
        },
        UnitForm::Literal(i) => num_error(c[i as int]),
        UnitForm::Reference(_) => None,
        UnitForm::Place => chain_error(c, 1),
        UnitForm::Unknown => Some(grammar_fault("expr_unit"@, n)),
    }
}

/// The atomic expression that a tree stands for.
pub open spec fn unit_is(n: Node, u: ExprUnit) -> bool
    decreases n, 0nat, 0nat,
{
    let c = n.children@;
    &&& u.pos == n.pos
    &&& match unit_form(n) {
        UnitForm::Negated(i) => u.inner matches ExprUnitInner::Num(v) && number(c[i as int].text@)
            == Some(-(v as int)),
        UnitForm::Parenthesized(i) => i < c.len() && (u.inner matches ExprUnitInner::ArithExpr(e)
            && arith_is(c[i as int], *e)),
        UnitForm::Call(i) => i < c.len() && (u.inner matches ExprUnitInner::FnCall(f) && call_is(
            c[i as int],
            *f,
        )),
        UnitForm::Literal(i) => u.inner matches ExprUnitInner::Num(v) && number(c[i as int].text@)
            == Some(v as int),
        UnitForm::Reference(i) => u.inner matches ExprUnitInner::Reference(id) && id@
            == c[i as int].text@,
        UnitForm::Place => chain_unit_is(n, u),
        UnitForm::Unknown => false,
    }
}

/// What is wrong with the operators of an arithmetic expression from position
/// `i` on, and their operands.
pub open spec fn sums_error(n: Node, i: nat) -> Option<ErrorModel>
    decreases n, 0nat, n.children@.len() - i,
{
    let c = n.children@;
    if i >= c.len() {
        None
    } else if c[i as int].rule == Rule::ArithAddOp {
        if add_op(c[i as int]) is None {
            Some(grammar_fault("arith_add_op"@, c[i as int]))
        } else if i + 1 >= c.len() {
            Some(grammar_fault("arith_expr.operand"@, n))
        } else {
            match term_error(c[i as int + 1]) {
                Some(e) => Some(e),
                None => sums_error(n, i + 2),
            }
        }
    } else {
        sums_error(n, i + 1)
    }
}

/// What is wrong with an arithmetic expression.
pub open spec fn arith_error(n: Node) -> Option<ErrorModel>
    decreases n, 1nat, 0nat,
{
    if n.children@.len() == 0 {
        Some(grammar_fault("arith_expr"@, n))
    } else {
        match term_error(n.children@[0]) {
            Some(e) => Some(e),
            None => sums_error(n, 1),
        }
    }
}

/// The value of the first `k` operators of an arithmetic expression.
pub open spec fn sums_are(n: Node, k: nat, e: ArithExpr) -> bool
    decreases n, 0nat, k,
{
    let c = n.children@;
    let ops = operators(c, Rule::ArithAddOp, 1);
    if k == 0 {
        c.len() > 0 && term_is(c[0], e)
    } else {
        let o = ops[k - 1];
        &&& o + 1 < c.len()
        &&& e.inner matches ArithExprInner::ArithBiOpExpr(b)
        &&& add_op(c[o as int]) == Some(b.op)
        &&& e.pos == b.left.pos
        &&& sums_are(n, (k - 1) as nat, *b.left)
        &&& term_is(c[o as int + 1], *b.right)
    }
}

/// The arithmetic expression that a tree stands for: operators of one level
/// group to the left.
pub open spec fn arith_is(n: Node, e: ArithExpr) -> bool
    decreases n, 1nat, 0nat,
{
    sums_are(n, operators(n.children@, Rule::ArithAddOp, 1).len(), e)
}

/// What is wrong with the operators of a term from position `i` on, and their
/// operands.
pub open spec fn products_error(n: Node, i: nat) -> Option<ErrorModel>
    decreases n, 0nat, n.children@.len() - i,
{
    let c = n.children@;
    if i >= c.len() {
        None
    } else if c[i as int].rule == Rule::ArithMulOp {
        if mul_op(c[i as int]) is None {
            Some(grammar_fault("arith_mul_op"@, c[i as int]))
        } else if i + 1 >= c.len() {
            Some(grammar_fault("arith_term.operand"@, n))
        } else {
            match unit_error(c[i as int + 1]) {
                Some(e) => Some(e),
                None => products_error(n, i + 2),
            }
        }
    } else {
        products_error(n, i + 1)
    }
}

/// What is wrong with a term.
pub open spec fn term_error(n: Node) -> Option<ErrorModel>
    decreases n, 1nat, 0nat,
{
    if n.children@.len() == 0 {
        Some(grammar_fault("arith_term"@, n))
    } else {
        match unit_error(n.children@[0]) {
            Some(e) => Some(e),
            None => products_error(n, 1),
        }
    }
}

/// An atomic expression as an arithmetic expression.
pub open spec fn single_is(n: Node, e: ArithExpr) -> bool
    decreases n, 1nat, 0nat,
{
    e.inner matches ArithExprInner::ExprUnit(u) && e.pos == u.pos && unit_is(n, *u)
}

/// The value of the first `k` operators of a term.
pub open spec fn products_are(n: Node, k: nat, e: ArithExpr) -> bool
    decreases n, 0nat, k,
{
    let c = n.children@;
    let ops = operators(c, Rule::ArithMulOp, 1);
    if k == 0 {
        c.len() > 0 && single_is(c[0], e)
    } else {
        let o = ops[k - 1];
        &&& o + 1 < c.len()
        &&& e.inner matches ArithExprInner::ArithBiOpExpr(b)
        &&& mul_op(c[o as int]) == Some(b.op)
        &&& e.pos == b.left.pos
        &&& products_are(n, (k - 1) as nat, *b.left)
        &&& single_is(c[o as int + 1], *b.right)
    }
}

/// The term that a tree stands for.
pub open spec fn term_is(n: Node, e: ArithExpr) -> bool
    decreases n, 1nat, 0nat,
{
    products_are(n, operators(n.children@, Rule::ArithMulOp, 1).len(), e)
}

/// What is wrong with the right-hand sides in a list, from position `i` on.
pub open spec fn values_error(n: Node, i: nat) -> Option<ErrorModel>
    decreases n, 0nat, n.children@.len() - i,
{
    let c = n.children@;
    if i >= c.len() {
        None
    } else if c[i as int].rule == Rule::RightVal {
        match right_val_error(c[i as int]) {
            Some(e) => Some(e),
            None => values_error(n, i + 1),
        }
    } else {
        values_error(n, i + 1)
    }
}

/// The right-hand sides among the first `k` parts of a list.
pub open spec fn values_are(n: Node, k: nat, vals: Seq<RightVal>) -> bool
    decreases n, 0nat, k,
{
    let c = n.children@;
    if k == 0 {
        vals.len() == 0
    } else if k <= c.len() && c[k - 1].rule == Rule::RightVal {
        vals.len() > 0 && values_are(n, (k - 1) as nat, vals.drop_last()) && right_val_is(
            c[k - 1],
            vals.last(),
        )
    } else {
        values_are(n, (k - 1) as nat, vals)
    }
}

/// What is wrong with the argument lists of a call, from position `i` on.
pub open spec fn arguments_error(n: Node, i: nat) -> Option<ErrorModel>
    decreases n, 0nat, n.children@.len() - i,
{
    let c = n.children@;
    if i >= c.len() {
        None
    } else if c[i as int].rule == Rule::RightValList {
        match values_error(c[i as int], 0) {
            Some(e) => Some(e),
            None => arguments_error(n, i + 1),
        }
    } else {
        arguments_error(n, i + 1)
    }
}

/// The arguments of a call: those of the last list.
pub open spec fn arguments_are(n: Node, vals: Seq<RightVal>) -> bool
    decreases n, 0nat, 0nat,
{
    match last_of(n.children@, Rule::RightValList, n.children@.len()) {
        None => vals.len() == 0,
        Some(i) => i < n.children@.len() && values_are(
            n.children@[i as int],
            n.children@[i as int].children@.len(),
            vals,
        ),
    }
}

/// What is wrong with a call.
pub open spec fn call_error(n: Node) -> Option<ErrorModel>
    decreases n, 0nat, 0nat,
{
    match first_of(n.children@, seq![Rule::ModulePrefixedCall, Rule::LocalCall], 0) {
        None => Some(grammar_fault("fn_call"@, n)),
        Some(i) => if i < n.children@.len() {
            arguments_error(n.children@[i as int], 0)
        } else {
            None
        },
    }
}

/// The name of a callee behind the modules that lead to it.
pub open spec fn path_is(path: Seq<Seq<char>>, f: FnCall) -> bool {
    if path.len() == 0 {
        f.name@ == Seq::<char>::empty() && f.module_prefix is None
    } else {
        &&& f.name@ == path.last()
        &&& if path.len() == 1 {
            f.module_prefix is None
        } else {
            f.module_prefix matches Some(m) && m@ == join_text(path.drop_last(), "::"@)
        }
    }
}

/// The call that a tree stands for.
pub open spec fn call_is(n: Node, f: FnCall) -> bool
    decreases n, 0nat, 0nat,
{
    match first_of(n.children@, seq![Rule::ModulePrefixedCall, Rule::LocalCall], 0) {
        None => false,
        Some(i) => if i < n.children@.len() {
            let c = n.children@[i as int];
            &&& arguments_are(c, f.vals@)
            &&& if c.rule == Rule::ModulePrefixedCall {
                path_is(identifiers(c.children@, c.children@.len()), f)
            } else {
                f.module_prefix is None && f.name@ == last_name(c.children@)
            }
        } else {
            false
        },
    }
}

/// What is wrong with a comparison of the parts at the given positions.
pub open spec fn triple_error(n: Node, parts: Seq<nat>, context: Seq<char>) -> Option<ErrorModel>
    decreases n, 0nat, 0nat,
{
    let c = n.children@;
    if parts.len() != 3 {
        Some(grammar_fault(context, n))
    } else if parts[0] < c.len() && parts[1] < c.len() && parts[2] < c.len() {
        match unit_error(c[parts[0] as int]) {
            Some(e) => Some(e),
            None => match missing(
                comparison_op(c[parts[1] as int]),
                "comp_op"@,
                c[parts[1] as int],
            ) {
                Some(e) => Some(e),
                None => unit_error(c[parts[2] as int]),
            },
        }
    } else {
        None
    }
}

/// The comparison of the parts at the given positions.
pub open spec fn triple_is(n: Node, parts: Seq<nat>, u: BoolUnit) -> bool
    decreases n, 0nat, 0nat,
{
    let c = n.children@;
    &&& parts.len() == 3
    &&& parts[0] < c.len() && parts[1] < c.len() && parts[2] < c.len()
    &&& u.pos == n.pos
    &&& u.inner matches BoolUnitInner::ComExpr(e)
    &&& unit_is(c[parts[0] as int], *e.left)
    &&& comparison_op(c[parts[1] as int]) == Some(e.op)
    &&& unit_is(c[parts[2] as int], *e.right)
}

/// All positions.
pub open spec fn positions(n: nat) -> Seq<nat> {
    Seq::new(n, |i: int| i as nat)
}

/// What is wrong with a boolean expression in parentheses.
pub open spec fn paren_error(n: Node) -> Option<ErrorModel>
    decreases n, 1nat, 0nat,
{
    let c = n.children@;
    let f = inside(c, c.len());
    if f.len() == 1 && c[f[0] as int].rule == Rule::BoolExpr {
        if f[0] < c.len() {
            bool_error(c[f[0] as int])
        } else {
            None
        }
    } else {
        triple_error(n, f, "bool_unit_paren"@)
    }
}

/// The boolean expression in parentheses that a tree stands for.
pub open spec fn paren_is(n: Node, u: BoolUnit) -> bool
    decreases n, 1nat, 0nat,
{
    let c = n.children@;
    let f = inside(c, c.len());
    if f.len() == 1 && c[f[0] as int].rule == Rule::BoolExpr {
        f[0] < c.len() && u.pos == n.pos && (u.inner matches BoolUnitInner::BoolExpr(e) && bool_is(
            c[f[0] as int],
            *e,
        ))
    } else {
        triple_is(n, f, u)
    }
}

/// What is wrong with an atomic boolean expression.
pub open spec fn atom_error(n: Node) -> Option<ErrorModel>
    decreases n, 1nat, 0nat,
{
    let c = n.children@;
    if c.len() == 2 && c[0].rule == Rule::OpNot {
        atom_error(c[1])
    } else {
        match first_of(c, seq![Rule::BoolUnitParen, Rule::BoolComparison], 0) {
            None => Some(grammar_fault("bool_unit_atom"@, n)),
            Some(i) => if i < c.len() {
                if c[i as int].rule == Rule::BoolUnitParen {
                    paren_error(c[i as int])
                } else {
                    triple_error(
                        c[i as int],
                        positions(c[i as int].children@.len()),
                        "bool_comparison"@,
                    )
                }
            } else {
                None
            },
        }
    }
}

/// The atomic boolean expression that a tree stands for.
pub open spec fn atom_is(n: Node, u: BoolUnit) -> bool
    decreases n, 1nat, 0nat,
{
    let c = n.children@;
    if c.len() == 2 && c[0].rule == Rule::OpNot {
        &&& u.pos == n.pos
        &&& u.inner matches BoolUnitInner::BoolUOpExpr(e)
        &&& e.op == BoolUOp::Not
        &&& atom_is(c[1], *e.cond)
    } else {
        match first_of(c, seq![Rule::BoolUnitParen, Rule::BoolComparison], 0) {
            None => false,
            Some(i) => i < c.len() && if c[i as int].rule == Rule::BoolUnitParen {
                paren_is(c[i as int], u)
            } else {
                triple_is(c[i as int], positions(c[i as int].children@.len()), u)
            },
        }
    }
}

/// What is wrong with the conjuncts behind `&&` from position `i` on.
pub open spec fn ands_error(n: Node, i: nat) -> Option<ErrorModel>
    decreases n, 0nat, n.children@.len() - i,
{
    let c = n.children@;
    if i >= c.len() {
        None
    } else if c[i as int].rule == Rule::OpAnd {
        if i + 1 >= c.len() {
            Some(grammar_fault("bool_and_term.operand"@, n))
        } else {
            match atom_error(c[i as int + 1]) {
                Some(e) => Some(e),
                None => ands_error(n, i + 2),
            }
        }
    } else {
        ands_error(n, i + 1)
    }
}

/// What is wrong with a conjunction.
pub open spec fn and_error(n: Node) -> Option<ErrorModel>
    decreases n, 1nat, 0nat,
{
    if n.children@.len() == 0 {
        Some(grammar_fault("bool_and_term"@, n))
    } else {
        match atom_error(n.children@[0]) {
            Some(e) => Some(e),
            None => ands_error(n, 1),
        }
    }
}

/// An atomic boolean expression as a boolean expression.
pub open spec fn lone_is(n: Node, e: BoolExpr) -> bool
    decreases n, 2nat, 0nat,
{
    e.inner matches BoolExprInner::BoolUnit(u) && e.pos == u.pos && atom_is(n, *u)
}

/// The value of the first `k` operators of a conjunction.
pub open spec fn ands_are(n: Node, k: nat, e: BoolExpr) -> bool
    decreases n, 0nat, k,
{
    let c = n.children@;
    let ops = operators(c, Rule::OpAnd, 1);
    if k == 0 {
        c.len() > 0 && lone_is(c[0], e)
    } else {
        let o = ops[k - 1];
        &&& o + 1 < c.len()
        &&& e.inner matches BoolExprInner::BoolBiOpExpr(b)
        &&& b.op == BoolBiOp::And
        &&& e.pos == b.left.pos
        &&& ands_are(n, (k - 1) as nat, *b.left)
        &&& lone_is(c[o as int + 1], *b.right)
    }
}

/// The conjunction that a tree stands for.
pub open spec fn and_is(n: Node, e: BoolExpr) -> bool
    decreases n, 1nat, 0nat,
{
    ands_are(n, operators(n.children@, Rule::OpAnd, 1).len(), e)
}

/// What is wrong with the disjuncts behind `||` from position `i` on.
pub open spec fn ors_error(n: Node, i: nat) -> Option<ErrorModel>
    decreases n, 0nat, n.children@.len() - i,
{
    let c = n.children@;
    if i >= c.len() {
        None
    } else if c[i as int].rule == Rule::OpOr {
        if i + 1 >= c.len() {
            Some(grammar_fault("bool_expr.operand"@, n))
        } else {
            match and_error(c[i as int + 1]) {
                Some(e) => Some(e),
                None => ors_error(n, i + 2),
            }
        }
    } else {
        ors_error(n, i + 1)
    }
}

/// What is wrong with a boolean expression.
pub open spec fn bool_error(n: Node) -> Option<ErrorModel>
    decreases n, 1nat, 0nat,
{
    if n.children@.len() == 0 {
        Some(grammar_fault("bool_expr"@, n))
    } else {
        match and_error(n.children@[0]) {
            Some(e) => Some(e),
            None => ors_error(n, 1),
        }
    }
}

/// The value of the first `k` operators of a disjunction.
pub open spec fn ors_are(n: Node, k: nat, e: BoolExpr) -> bool
    decreases n, 0nat, k,
{
    let c = n.children@;
    let ops = operators(c, Rule::OpOr, 1);
    if k == 0 {
        c.len() > 0 && and_is(c[0], e)
    } else {
        let o = ops[k - 1];
        &&& o + 1 < c.len()
        &&& e.inner matches BoolExprInner::BoolBiOpExpr(b)
        &&& b.op == BoolBiOp::Or
        &&& e.pos == b.left.pos
        &&& ors_are(n, (k - 1) as nat, *b.left)
        &&& and_is(c[o as int + 1], *b.right)
    }
}

/// The boolean expression that a tree stands for: `&&` binds closer than
/// `||`, and both group to the left.
pub open spec fn bool_is(n: Node, e: BoolExpr) -> bool
    decreases n, 1nat, 0nat,
{
    ors_are(n, operators(n.children@, Rule::OpOr, 1).len(), e)
}

/// What is wrong with a right-hand side.
pub open spec fn right_val_error(n: Node) -> Option<ErrorModel>
    decreases n, 0nat, 0nat,
{
    let c = n.children@;
    match first_of(c, seq![Rule::BoolExpr, Rule::ArithExpr], 0) {
        None => Some(grammar_fault("right_val"@, n)),
        Some(i) => if i < c.len() {
            if c[i as int].rule == Rule::BoolExpr {
                bool_error(c[i as int])
            } else {
                arith_error(c[i as int])
            }
        } else {
            None
        },
    }
}

/// The right-hand side that a tree stands for.
pub open spec fn right_val_is(n: Node, r: RightVal) -> bool
    decreases n, 0nat, 0nat,
{
    let c = n.children@;
    match first_of(c, seq![Rule::BoolExpr, Rule::ArithExpr], 0) {
        None => false,
        Some(i) => i < c.len() && if c[i as int].rule == Rule::BoolExpr {
            r.inner matches RightValInner::BoolExpr(e) && bool_is(c[i as int], *e)
        } else {
            r.inner matches RightValInner::ArithExpr(e) && arith_is(c[i as int], *e)
        },
    }
}

/// The comparison operator that a tree stands for.
fn parse_comp_op(n: &Node) -> (r: Result<ComOp, Error>)
    ensures
        answers(r, missing(comparison_op(*n), "comp_op"@, *n)),
        r matches Ok(op) ==> comparison_op(*n) == Some(op),
{
    let rules = vec![Rule::OpLt, Rule::OpGt, Rule::OpLe, Rule::OpGe, Rule::OpEq, Rule::OpNe];
    assert(rules@ =~= seq![Rule::OpLt, Rule::OpGt, Rule::OpLe, Rule::OpGe, Rule::OpEq, Rule::OpNe]);
    match find_first(&n.children, &rules) {
        None => Err(grammar_error("comp_op", n)),
        Some(i) => Ok(
            match n.children[i].rule {
                Rule::OpLt => ComOp::Lt,
                Rule::OpGt => ComOp::Gt,
                Rule::OpLe => ComOp::Le,
                Rule::OpGe => ComOp::Ge,
                Rule::OpEq => ComOp::Eq,
                _ => ComOp::Ne,
            },
        ),
    }
}

/// The additive operator that a tree stands for.
fn parse_arith_add_op(n: &Node) -> (r: Result<ArithBiOp, Error>)
    ensures
        answers(r, missing(add_op(*n), "arith_add_op"@, *n)),
        r matches Ok(op) ==> add_op(*n) == Some(op),
{
    let rules = vec![Rule::OpAdd, Rule::OpSub];
    assert(rules@ =~= seq![Rule::OpAdd, Rule::OpSub]);
    match find_first(&n.children, &rules) {
        None => Err(grammar_error("arith_add_op", n)),
        Some(i) => Ok(
            match n.children[i].rule {
                Rule::OpAdd => ArithBiOp::Add,
                _ => ArithBiOp::Sub,
            },
        ),
    }
}

/// The multiplicative operator that a tree stands for.
fn parse_arith_mul_op(n: &Node) -> (r: Result<ArithBiOp, Error>)
    ensures
        answers(r, missing(mul_op(*n), "arith_mul_op"@, *n)),
        r matches Ok(op) ==> mul_op(*n) == Some(op),
{
    let rules = vec![Rule::OpMul, Rule::OpDiv];
    assert(rules@ =~= seq![Rule::OpMul, Rule::OpDiv]);
    match find_first(&n.children, &rules) {
        None => Err(grammar_error("arith_mul_op", n)),
        Some(i) => Ok(
            match n.children[i].rule {
                Rule::OpMul => ArithBiOp::Mul,
                _ => ArithBiOp::Div,
            },
        ),
    }
}

/// The index that a tree stands for.
pub fn parse_index_expr(n: &Node) -> (r: Result<Box<IndexExpr>, Error>)
    ensures
        answers(r, index_error(*n)),
        r matches Ok(e) ==> index_is(*n, *e),
{
    let rules = vec![Rule::Num, Rule::Identifier];
    assert(rules@ =~= seq![Rule::Num, Rule::Identifier]);
    match find_first(&n.children, &rules) {
        None => Err(grammar_error("index_expr", n)),
        Some(i) => {
            let c = &n.children[i];
            match c.rule {
                Rule::Num => match parse_num(c) {
                    Ok(v) => Ok(Box::new(IndexExpr { inner: IndexExprInner::Num(v as usize) })),
                    Err(e) => Err(e),
                },
                _ => Ok(Box::new(IndexExpr { inner: IndexExprInner::Id(c.text.clone()) })),
            }
        },
    }
}

/// A place with one more suffix.
pub open spec fn suffixed(base: LeftVal, s: Node, v: LeftVal) -> bool {
    match suffix_part(s) {
        None => v == base,
        Some(i) => {
            let c = s.children@[i as int];
            &&& v.pos == base.pos
            &&& if c.rule == Rule::IndexExpr {
                v.inner matches LeftValInner::ArrayExpr(a) && *a.arr == base && index_is(c, *a.idx)
            } else {
                v.inner matches LeftValInner::MemberExpr(m) && *m.struct_id == base && m.member_id@
                    == c.text@
            }
        },
    }
}

/// Adds a suffix to a place.
pub fn parse_expr_suffix(base: Box<LeftVal>, suffix: &Node) -> (r: Result<Box<LeftVal>, Error>)
    ensures
        answers(r, suffix_error(*suffix)),
        r matches Ok(v) ==> suffixed(*base, *suffix, *v),
{
    let rules = vec![Rule::IndexExpr, Rule::Identifier];
    assert(rules@ =~= seq![Rule::IndexExpr, Rule::Identifier]);
    let pos: usize = base.pos;
    match find_first(&suffix.children, &rules) {
        None => Ok(base),
        Some(i) => {
            let c = &suffix.children[i];
            match c.rule {
                Rule::IndexExpr => match parse_index_expr(c) {
                    Ok(idx) => Ok(
                        Box::new(
                            LeftVal {
                                pos,
                                inner: LeftValInner::ArrayExpr(
                                    Box::new(ArrayExpr { arr: base, idx }),
                                ),
                            },
                        ),
                    ),
                    Err(e) => Err(e),
                },
                _ => Ok(
                    Box::new(
                        LeftVal {
                            pos,
                            inner: LeftValInner::MemberExpr(
                                Box::new(MemberExpr { struct_id: base, member_id: c.text.clone() }),
                            ),
                        },
                    ),
                ),
            }
        },
    }
}

/// The place that a name and the suffixes that follow it stand for.
fn parse_chain(n: &Node) -> (r: Result<Box<LeftVal>, Error>)
    requires
        n.children@.len() > 0,
    ensures
        answers(r, chain_error(n.children@, 1)),
        r matches Ok(v) ==> left_val_is(*n, *v),
{
    let c = &n.children;
    let mut base = Box::new(LeftVal { pos: n.pos, inner: LeftValInner::Id(c[0].text.clone()) });
    let mut i: usize = 1;
    while i < c.len() && c[i].rule == Rule::ExprSuffix
        invariant
            1 <= i <= c.len(),
            *c == n.children,
            chain_error(c@, 1) == chain_error(c@, i as nat),
            chain_end(c@, 1) == chain_end(c@, i as nat),
            chain_is(c@, n.pos, i as nat, *base),
        decreases c.len() - i,
    {
        base = match parse_expr_suffix(base, &c[i]) {
            Ok(v) => v,
            Err(e) => {
                return Err(e);
            },
        };
        i = i + 1;
    }
    Ok(base)
}

/// The place that a tree stands for.
pub fn parse_left_val(n: &Node) -> (r: Result<Box<LeftVal>, Error>)
    ensures
        answers(r, left_val_error(*n)),
        r matches Ok(v) ==> left_val_is(*n, *v),
{
    if n.children.len() == 0 {
        return Err(grammar_error("left_val", n));
    }
    parse_chain(n)
}

/// A place as an expression.
fn left_val_to_expr_unit(v: LeftVal) -> (u: Box<ExprUnit>)
    ensures
        as_unit(v, *u),
{
    let pos: usize = v.pos;
    let inner = match v.inner {
        LeftValInner::Id(id) => ExprUnitInner::Id(id),
        LeftValInner::ArrayExpr(a) => ExprUnitInner::ArrayExpr(a),
        LeftValInner::MemberExpr(m) => ExprUnitInner::MemberExpr(m),
    };
    Box::new(ExprUnit { pos, inner })
}

/// The atomic expression that a tree stands for.
pub fn parse_expr_unit(n: &Node) -> (r: Result<Box<ExprUnit>, Error>)
    requires
        shaped(*n),
    ensures
        answers(r, unit_error(*n)),
        r matches Ok(u) ==> unit_is(*n, *u),
    decreases n, 0nat,
{
    let c = &n.children;
    let pos: usize = n.pos;
    let f = without_parens(c);
    proof {
        assert(!negates_least(*n));
        lemma_inside(c@, c@.len());
        assert(f.len() > 0 ==> f@[0] < c.len());
        assert(f.len() > 1 ==> f@[1] < c.len());
    }
    if f.len() == 2 && c[f[0]].rule == Rule::OpSub && c[f[1]].rule == Rule::Num {
        assert(unit_form(*n) == UnitForm::Negated(f@[1] as nat));
        return match parse_num(&c[f[1]]) {
            Ok(num) => Ok(Box::new(ExprUnit { pos, inner: ExprUnitInner::Num(-num) })),
            Err(e) => Err(e),
        };
    }
    if f.len() == 1 && c[f[0]].rule == Rule::ArithExpr {
        assert(unit_form(*n) == UnitForm::Parenthesized(f@[0] as nat));
        assert(shaped(c@[f@[0] as int]));
        return match parse_arith_expr(&c[f[0]]) {
            Ok(e) => Ok(Box::new(ExprUnit { pos, inner: ExprUnitInner::ArithExpr(e) })),
            Err(e) => Err(e),
        };
    }
    if f.len() > 0 && c[f[0]].rule == Rule::FnCall {
        assert(unit_form(*n) == UnitForm::Call(f@[0] as nat));
        assert(shaped(c@[f@[0] as int]));
        return match parse_fn_call(&c[f[0]]) {
            Ok(e) => Ok(Box::new(ExprUnit { pos, inner: ExprUnitInner::FnCall(e) })),
            Err(e) => Err(e),
        };
    }
    if f.len() == 1 && c[f[0]].rule == Rule::Num {
        assert(unit_form(*n) == UnitForm::Literal(f@[0] as nat));
        return match parse_num(&c[f[0]]) {
            Ok(num) => Ok(Box::new(ExprUnit { pos, inner: ExprUnitInner::Num(num) })),
            Err(e) => Err(e),
        };
    }
    if f.len() == 2 && c[f[0]].rule == Rule::Ampersand && c[f[1]].rule == Rule::Identifier {
        assert(unit_form(*n) == UnitForm::Reference(f@[1] as nat));
        return Ok(
            Box::new(ExprUnit { pos, inner: ExprUnitInner::Reference(c[f[1]].text.clone()) }),
        );
    }
    if c.len() > 0 && c[0].rule == Rule::Identifier {
        assert(unit_form(*n) == UnitForm::Place);
        return match parse_chain(n) {
            Ok(v) => {
                proof {
                    lemma_chain_pos(c@, n.pos, chain_end(c@, 1), *v);
                }
                let u = left_val_to_expr_unit(*v);
                assert(left_val_is(*n, *v) && as_unit(*v, *u));
                Ok(u)
            },
            Err(e) => Err(e),
        };
    }
    assert(unit_form(*n) == UnitForm::Unknown);
    Err(grammar_error("expr_unit", n))
}

proof fn lemma_chain_pos(nodes: Seq<Node>, pos: usize, k: nat, v: LeftVal)
    requires
        chain_is(nodes, pos, k, v),
    ensures
        v.pos == pos,
{
}

/// The right-hand sides in a list.
pub fn parse_right_val_list(n: &Node) -> (r: Result<Vec<RightVal>, Error>)
    requires
        shaped(*n),
    ensures
        answers(r, values_error(*n, 0)),
        r matches Ok(vals) ==> values_are(*n, n.children@.len(), vals@),
    decreases n, 0nat,
{
    let c = &n.children;
    let mut vals: Vec<RightVal> = Vec::new();
    let mut i: usize = 0;
    while i < c.len()
        invariant
            i <= c.len(),
            *c == n.children,
            shaped(*n),
            values_error(*n, 0) == values_error(*n, i as nat),
            values_are(*n, i as nat, vals@),
        decreases c.len() - i,
    {
        match c[i].rule {
            Rule::RightVal => {
                assert(shaped(c@[i as int]));
                match parse_right_val(&c[i]) {
                    Ok(v) => {
                        let ghost before = vals@;
                        vals.push(*v);
                        assert(vals@.drop_last() =~= before);
                    },
                    Err(e) => {
                        return Err(e);
                    },
                }
            },
            _ => {},
        }
        i = i + 1;
    }
    Ok(vals)
}

/// The right-hand side that a tree stands for.
pub fn parse_right_val(n: &Node) -> (r: Result<Box<RightVal>, Error>)
    requires
        shaped(*n),
    ensures
        answers(r, right_val_error(*n)),
        r matches Ok(v) ==> right_val_is(*n, *v),
    decreases n, 0nat,
{
    let rules = vec![Rule::BoolExpr, Rule::ArithExpr];
    assert(rules@ =~= seq![Rule::BoolExpr, Rule::ArithExpr]);
    match find_first(&n.children, &rules) {
        None => Err(grammar_error("right_val", n)),
        Some(i) => {
            let c = &n.children[i];
            assert(shaped(n.children@[i as int]));
            match c.rule {
                Rule::BoolExpr => match parse_bool_expr(c) {
                    Ok(e) => Ok(Box::new(RightVal { inner: RightValInner::BoolExpr(e) })),
                    Err(e) => Err(e),
                },
                _ => match parse_arith_expr(c) {
                    Ok(e) => Ok(Box::new(RightVal { inner: RightValInner::ArithExpr(e) })),
                    Err(e) => Err(e),
                },
            }
        },
    }
}

/// The arguments of a call: those of the last list.
fn parse_arguments(n: &Node) -> (r: Result<Vec<RightVal>, Error>)
    requires
        shaped(*n),
    ensures
        answers(r, arguments_error(*n, 0)),
        r matches Ok(vals) ==> arguments_are(*n, vals@),
    decreases n, 0nat,
{
    let c = &n.children;
    let mut vals: Vec<RightVal> = Vec::new();
    let mut i: usize = 0;
    while i < c.len()
        invariant
            i <= c.len(),
            *c == n.children,
            shaped(*n),
            arguments_error(*n, 0) == arguments_error(*n, i as nat),
            match last_of(c@, Rule::RightValList, i as nat) {
                None => vals@.len() == 0,
                Some(j) => j < i && values_are(
                    c@[j as int],
                    c@[j as int].children@.len(),
                    vals@,
                ),
            },
        decreases c.len() - i,
    {
        match c[i].rule {
            Rule::RightValList => {
                assert(shaped(c@[i as int]));
                match parse_right_val_list(&c[i]) {
                    Ok(v) => {
                        vals = v;
                    },
                    Err(e) => {
                        return Err(e);
                    },
                }
            },
            _ => {},
        }
        i = i + 1;
    }
    Ok(vals)
}

/// The texts of the identifiers among the children.
pub fn identifier_texts(n: &Node) -> (r: Vec<String>)
    ensures
        texts(r@) == identifiers(n.children@, n.children@.len()),
{
    let c = &n.children;
    let mut names: Vec<String> = Vec::new();
    let mut i: usize = 0;
    assert(texts(names@) =~= Seq::empty());
    while i < c.len()
        invariant
            i <= c.len(),
            *c == n.children,
            texts(names@) == identifiers(c@, i as nat),
        decreases c.len() - i,
    {
        match c[i].rule {
            Rule::Identifier => {
                let ghost before = texts(names@);
                names.push(c[i].text.clone());
                assert(texts(names@) =~= before.push(c@[i as int].text@));
            },
            _ => {},
        }
        i = i + 1;
    }
    names
}

/// The text of the last identifier among the children.
pub fn last_identifier(n: &Node) -> (r: String)
    ensures
        r@ == last_name(n.children@),
{
    let c = &n.children;
    let mut name = String::new();
    let mut i: usize = 0;
    while i < c.len()
        invariant
            i <= c.len(),
            *c == n.children,
            name@ == (match last_of(c@, Rule::Identifier, i as nat) {
                Some(j) => c@[j as int].text@,
                None => Seq::empty(),
            }),
        decreases c.len() - i,
    {
        match c[i].rule {
            Rule::Identifier => {
                name = c[i].text.clone();
            },
            _ => {},
        }
        i = i + 1;
    }
    name
}

/// The call that a tree stands for.
pub fn parse_fn_call(n: &Node) -> (r: Result<Box<FnCall>, Error>)
    requires
        shaped(*n),
    ensures
        answers(r, call_error(*n)),
        r matches Ok(f) ==> call_is(*n, *f),
    decreases n, 0nat,
{
    let rules = vec![Rule::ModulePrefixedCall, Rule::LocalCall];
    assert(rules@ =~= seq![Rule::ModulePrefixedCall, Rule::LocalCall]);
    match find_first(&n.children, &rules) {
        None => Err(grammar_error("fn_call", n)),
        Some(i) => {
            let c = &n.children[i];
            assert(shaped(n.children@[i as int]));
            match c.rule {
                Rule::ModulePrefixedCall => parse_module_prefixed_call(c),
                _ => parse_local_call(c),
            }
        },
    }
}

/// A call of a function in a module.
fn parse_module_prefixed_call(n: &Node) -> (r: Result<Box<FnCall>, Error>)
    requires
        shaped(*n),
    ensures
        answers(r, arguments_error(*n, 0)),
        r matches Ok(f) ==> arguments_are(*n, f.vals@) && path_is(
            identifiers(n.children@, n.children@.len()),
            *f,
        ),
    decreases n, 1nat,
{
    let vals = match parse_arguments(n) {
        Ok(v) => v,
        Err(e) => {
            return Err(e);
        },
    };
    let mut idents = identifier_texts(n);
    let ghost path = texts(idents@);
    let name = match idents.pop() {
        Some(name) => name,
        None => String::new(),
    };
    let module_prefix = if idents.len() == 0 {
        None
    } else {
        assert(texts(idents@) =~= path.drop_last());
        Some(join_strings(&idents, "::"))
    };
    Ok(Box::new(FnCall { module_prefix, name, vals }))
}

/// A call of a function by its name alone.
fn parse_local_call(n: &Node) -> (r: Result<Box<FnCall>, Error>)
    requires
        shaped(*n),
    ensures
        answers(r, arguments_error(*n, 0)),
        r matches Ok(f) ==> arguments_are(*n, f.vals@) && f.module_prefix is None && f.name@
            == last_name(n.children@),
    decreases n, 1nat,
{
    let vals = match parse_arguments(n) {
        Ok(v) => v,
        Err(e) => {
            return Err(e);
        },
    };
    Ok(Box::new(FnCall { module_prefix: None, name: last_identifier(n), vals }))
}

/// Positions as natural numbers.
pub open spec fn as_positions(parts: Seq<usize>) -> Seq<nat> {
    Seq::new(parts.len(), |i: int| parts[i] as nat)
}

/// The comparison of three parts.
fn parse_comparison_triple(n: &Node, parts: &Vec<usize>, context: &str) -> (r: Result<
    Box<BoolUnit>,
    Error,
>)
    requires
        shaped(*n),
        forall|i: int| 0 <= i < parts.len() ==> (#[trigger] parts@[i]) < n.children.len(),
    ensures
        answers(r, triple_error(*n, as_positions(parts@), context@)),
        r matches Ok(u) ==> triple_is(*n, as_positions(parts@), *u),
    decreases n, 0nat,
{
    if parts.len() != 3 {
        return Err(grammar_error(context, n));
    }
    let c = &n.children;
    assert(parts@[0] < c.len() && parts@[1] < c.len() && parts@[2] < c.len());
    assert(shaped(c@[parts@[0] as int]) && shaped(c@[parts@[2] as int]));
    let left = match parse_expr_unit(&c[parts[0]]) {
        Ok(x) => x,
        Err(e) => {
            return Err(e);
        },
    };
    let op = match parse_comp_op(&c[parts[1]]) {
        Ok(x) => x,
        Err(e) => {
            return Err(e);
        },
    };
    let right = match parse_expr_unit(&c[parts[2]]) {
        Ok(x) => x,
        Err(e) => {
            return Err(e);
        },
    };
    Ok(
        Box::new(
            BoolUnit {
                pos: n.pos,
                inner: BoolUnitInner::ComExpr(Box::new(ComExpr { op, left, right })),
            },
        ),
    )
}

/// The boolean expression in parentheses that a tree stands for.
fn parse_bool_unit_paren(n: &Node) -> (r: Result<Box<BoolUnit>, Error>)
    requires
        shaped(*n),
    ensures
        answers(r, paren_error(*n)),
        r matches Ok(u) ==> paren_is(*n, *u),
    decreases n, 1nat,
{
    let c = &n.children;
    let f = without_parens(c);
    let ghost g = inside(c@, c@.len());
    assert(f.len() > 0 ==> f@[0] < c.len());
    if f.len() == 1 && c[f[0]].rule == Rule::BoolExpr {
        assert(shaped(c@[f@[0] as int]));
        return match parse_bool_expr(&c[f[0]]) {
            Ok(e) => Ok(Box::new(BoolUnit { pos: n.pos, inner: BoolUnitInner::BoolExpr(e) })),
            Err(e) => Err(e),
        };
    }
    assert(as_positions(f@) =~= g);
    parse_comparison_triple(n, &f, "bool_unit_paren")
}

/// The comparison that a tree stands for.
fn parse_bool_comparison(n: &Node) -> (r: Result<Box<BoolUnit>, Error>)
    requires
        shaped(*n),
    ensures
        answers(r, triple_error(*n, positions(n.children@.len()), "bool_comparison"@)),
        r matches Ok(u) ==> triple_is(*n, positions(n.children@.len()), *u),
    decreases n, 1nat,
{
    let mut parts: Vec<usize> = Vec::new();
    while parts.len() < n.children.len()
        invariant
            parts.len() <= n.children.len(),
            forall|i: int| 0 <= i < parts.len() ==> #[trigger] parts@[i] == i,
        decreases n.children.len() - parts.len(),
    {
        let k: usize = parts.len();
        parts.push(k);
    }
    assert(as_positions(parts@) =~= positions(n.children@.len()));
    parse_comparison_triple(n, &parts, "bool_comparison")
}

/// The atomic boolean expression that a tree stands for.
fn parse_bool_unit_atom(n: &Node) -> (r: Result<Box<BoolUnit>, Error>)
    requires
        shaped(*n),
    ensures
        answers(r, atom_error(*n)),
        r matches Ok(u) ==> atom_is(*n, *u),
    decreases n, 1nat,
{
    let c = &n.children;
    if c.len() == 2 && c[0].rule == Rule::OpNot {
        assert(shaped(c@[1]));
        return match parse_bool_unit_atom(&c[1]) {
            Ok(cond) => Ok(
                Box::new(
                    BoolUnit {
                        pos: n.pos,
                        inner: BoolUnitInner::BoolUOpExpr(
                            Box::new(BoolUOpExpr { op: BoolUOp::Not, cond }),
                        ),
                    },
                ),
            ),
            Err(e) => Err(e),
        };
    }
    let rules = vec![Rule::BoolUnitParen, Rule::BoolComparison];
    assert(rules@ =~= seq![Rule::BoolUnitParen, Rule::BoolComparison]);
    match find_first(c, &rules) {
        None => Err(grammar_error("bool_unit_atom", n)),
        Some(i) => {
            assert(shaped(c@[i as int]));
            match c[i].rule {
                Rule::BoolUnitParen => parse_bool_unit_paren(&c[i]),
                _ => parse_bool_comparison(&c[i]),
            }
        },
    }
}

/// The arithmetic expression that a tree stands for.
pub fn parse_arith_expr(n: &Node) -> (r: Result<Box<ArithExpr>, Error>)
    requires
        shaped(*n),
    ensures
        answers(r, arith_error(*n)),
        r matches Ok(e) ==> arith_is(*n, *e),
    decreases n, 1nat,
{
    let c = &n.children;
    if c.len() == 0 {
        return Err(grammar_error("arith_expr", n));
    }
    assert(shaped(c@[0]));
    let first = match parse_arith_term(&c[0]) {
        Ok(x) => x,
        Err(x) => {
            return Err(x);
        },
    };
    let mut expr = first;
    let mut i: usize = 1;
    let ghost ops = operators(c@, Rule::ArithAddOp, 1);
    let ghost mut done: Seq<nat> = Seq::empty();
    assert(done + ops =~= ops);
    while i < c.len()
        invariant
            1 <= i <= c.len(),
            *c == n.children,
            shaped(*n),
            ops == operators(c@, Rule::ArithAddOp, 1),
            ops == done + operators(c@, Rule::ArithAddOp, i as nat),
            arith_error(*n) == sums_error(*n, i as nat),
            sums_are(*n, done.len(), *expr),
        decreases c.len() - i,
    {
        match c[i].rule {
            Rule::ArithAddOp => {
                assert(shaped(c@[i as int]));
                let op = match parse_arith_add_op(&c[i]) {
                    Ok(x) => x,
                    Err(x) => {
                        return Err(x);
                    },
                };
                if i + 1 >= c.len() {
                    return Err(grammar_error("arith_expr.operand", n));
                }
                assert(shaped(c@[i + 1]));
                let operand = match parse_arith_term(&c[i + 1]) {
                    Ok(x) => x,
                    Err(x) => {
                        return Err(x);
                    },
                };
                let right = operand;
                let pos: usize = expr.pos;
                let ghost rest = operators(c@, Rule::ArithAddOp, (i + 2) as nat);
                expr = Box::new(
                    ArithExpr {
                        pos,
                        inner: ArithExprInner::ArithBiOpExpr(
                            Box::new(ArithBiOpExpr { op, left: expr, right }),
                        ),
                    },
                );
                proof {
                    assert(operators(c@, Rule::ArithAddOp, i as nat) == seq![i as nat] + rest);
                    assert(ops[done.len() as int] == i);
                    assert(done + (seq![i as nat] + rest) =~= done.push(i as nat) + rest);
                    done = done.push(i as nat);
                }
                i = i + 2;
            },
            _ => {
                i = i + 1;
            },
        }
    }
    assert(operators(c@, Rule::ArithAddOp, i as nat) =~= Seq::empty());
    assert(ops =~= done);
    Ok(expr)
}

/// The term that a tree stands for.
pub fn parse_arith_term(n: &Node) -> (r: Result<Box<ArithExpr>, Error>)
    requires
        shaped(*n),
    ensures
        answers(r, term_error(*n)),
        r matches Ok(e) ==> term_is(*n, *e),
    decreases n, 1nat,
{
    let c = &n.children;
    if c.len() == 0 {
        return Err(grammar_error("arith_term", n));
    }
    assert(shaped(c@[0]));
    let first = match parse_expr_unit(&c[0]) {
        Ok(x) => x,
        Err(x) => {
            return Err(x);
        },
    };
    let mut expr = Box::new(ArithExpr { pos: first.pos, inner: ArithExprInner::ExprUnit(first) });
    assert(single_is(c@[0], *expr));
    let mut i: usize = 1;
    let ghost ops = operators(c@, Rule::ArithMulOp, 1);
    let ghost mut done: Seq<nat> = Seq::empty();
    assert(done + ops =~= ops);
    while i < c.len()
        invariant
            1 <= i <= c.len(),
            *c == n.children,
            shaped(*n),
            ops == operators(c@, Rule::ArithMulOp, 1),
            ops == done + operators(c@, Rule::ArithMulOp, i as nat),
            term_error(*n) == products_error(*n, i as nat),
            products_are(*n, done.len(), *expr),
        decreases c.len() - i,
    {
        match c[i].rule {
            Rule::ArithMulOp => {
                assert(shaped(c@[i as int]));
                let op = match parse_arith_mul_op(&c[i]) {
                    Ok(x) => x,
                    Err(x) => {
                        return Err(x);
                    },
                };
                if i + 1 >= c.len() {
                    return Err(grammar_error("arith_term.operand", n));
                }
                assert(shaped(c@[i + 1]));
                let operand = match parse_expr_unit(&c[i + 1]) {
                    Ok(x) => x,
                    Err(x) => {
                        return Err(x);
                    },
                };
                let right = Box::new(ArithExpr { pos: operand.pos, inner: ArithExprInner::ExprUnit(operand) });
                assert(single_is(c@[i + 1], *right));
                let pos: usize = expr.pos;
                let ghost rest = operators(c@, Rule::ArithMulOp, (i + 2) as nat);
                expr = Box::new(
                    ArithExpr {
                        pos,
                        inner: ArithExprInner::ArithBiOpExpr(
                            Box::new(ArithBiOpExpr { op, left: expr, right }),
                        ),
                    },
                );
                proof {
                    assert(operators(c@, Rule::ArithMulOp, i as nat) == seq![i as nat] + rest);
                    assert(ops[done.len() as int] == i);
                    assert(done + (seq![i as nat] + rest) =~= done.push(i as nat) + rest);
                    done = done.push(i as nat);
                }
                i = i + 2;
            },
            _ => {
                i = i + 1;
            },
        }
    }
    assert(operators(c@, Rule::ArithMulOp, i as nat) =~= Seq::empty());
    assert(ops =~= done);
    Ok(expr)
}

/// The conjunction that a tree stands for.
pub fn parse_bool_and_term(n: &Node) -> (r: Result<Box<BoolExpr>, Error>)
    requires
        shaped(*n),
    ensures
        answers(r, and_error(*n)),
        r matches Ok(e) ==> and_is(*n, *e),
    decreases n, 1nat,
{
    let c = &n.children;
    if c.len() == 0 {
        return Err(grammar_error("bool_and_term", n));
    }
    assert(shaped(c@[0]));
    let first = match parse_bool_unit_atom(&c[0]) {
        Ok(x) => x,
        Err(x) => {
            return Err(x);
        },
    };
    let mut expr = Box::new(BoolExpr { pos: first.pos, inner: BoolExprInner::BoolUnit(first) });
    assert(lone_is(c@[0], *expr));
    let mut i: usize = 1;
    let ghost ops = operators(c@, Rule::OpAnd, 1);
    let ghost mut done: Seq<nat> = Seq::empty();
    assert(done + ops =~= ops);
    while i < c.len()
        invariant
            1 <= i <= c.len(),
            *c == n.children,
            shaped(*n),
            ops == operators(c@, Rule::OpAnd, 1),
            ops == done + operators(c@, Rule::OpAnd, i as nat),
            and_error(*n) == ands_error(*n, i as nat),
            ands_are(*n, done.len(), *expr),
        decreases c.len() - i,
    {
        match c[i].rule {
            Rule::OpAnd => {
                if i + 1 >= c.len() {
                    return Err(grammar_error("bool_and_term.operand", n));
                }
                assert(shaped(c@[i + 1]));
                let operand = match parse_bool_unit_atom(&c[i + 1]) {
                    Ok(x) => x,
                    Err(x) => {
                        return Err(x);
                    },
                };
                let right = Box::new(BoolExpr { pos: operand.pos, inner: BoolExprInner::BoolUnit(operand) });
                assert(lone_is(c@[i + 1], *right));
                let pos: usize = expr.pos;
                let ghost rest = operators(c@, Rule::OpAnd, (i + 2) as nat);
                expr = Box::new(
                    BoolExpr {
                        pos,
                        inner: BoolExprInner::BoolBiOpExpr(
                            Box::new(BoolBiOpExpr { op: BoolBiOp::And, left: expr, right }),
                        ),
                    },
                );
                proof {
                    assert(operators(c@, Rule::OpAnd, i as nat) == seq![i as nat] + rest);
                    assert(ops[done.len() as int] == i);
                    assert(done + (seq![i as nat] + rest) =~= done.push(i as nat) + rest);
                    done = done.push(i as nat);
                }
                i = i + 2;
            },
            _ => {
                i = i + 1;
            },
        }
    }
    assert(operators(c@, Rule::OpAnd, i as nat) =~= Seq::empty());
    assert(ops =~= done);
    Ok(expr)
}

/// The boolean expression that a tree stands for.
pub fn parse_bool_expr(n: &Node) -> (r: Result<Box<BoolExpr>, Error>)
    requires
        shaped(*n),
    ensures
        answers(r, bool_error(*n)),
        r matches Ok(e) ==> bool_is(*n, *e),
    decreases n, 1nat,
{
    let c = &n.children;
    if c.len() == 0 {
        return Err(grammar_error("bool_expr", n));
    }
    assert(shaped(c@[0]));
    let first = match parse_bool_and_term(&c[0]) {
        Ok(x) => x,
        Err(x) => {
            return Err(x);
        },
    };
    let mut expr = first;
    let mut i: usize = 1;
    let ghost ops = operators(c@, Rule::OpOr, 1);
    let ghost mut done: Seq<nat> = Seq::empty();
    assert(done + ops =~= ops);
    while i < c.len()
        invariant
            1 <= i <= c.len(),
            *c == n.children,
            shaped(*n),
            ops == operators(c@, Rule::OpOr, 1),
            ops == done + operators(c@, Rule::OpOr, i as nat),
            bool_error(*n) == ors_error(*n, i as nat),
            ors_are(*n, done.len(), *expr),
        decreases c.len() - i,
    {
        match c[i].rule {
            Rule::OpOr => {
                if i + 1 >= c.len() {
                    return Err(grammar_error("bool_expr.operand", n));
                }
                assert(shaped(c@[i + 1]));
                let operand = match parse_bool_and_term(&c[i + 1]) {
                    Ok(x) => x,
                    Err(x) => {
                        return Err(x);
                    },
                };
                let right = operand;
                let pos: usize = expr.pos;
                let ghost rest = operators(c@, Rule::OpOr, (i + 2) as nat);
                expr = Box::new(
                    BoolExpr {
                        pos,
                        inner: BoolExprInner::BoolBiOpExpr(
                            Box::new(BoolBiOpExpr { op: BoolBiOp::Or, left: expr, right }),
                        ),
                    },
                );
                proof {
                    assert(operators(c@, Rule::OpOr, i as nat) == seq![i as nat] + rest);
                    assert(ops[done.len() as int] == i);
                    assert(done + (seq![i as nat] + rest) =~= done.push(i as nat) + rest);
                    done = done.push(i as nat);
                }
                i = i + 2;
            },
            _ => {
                i = i + 1;
            },
        }
    }
    assert(operators(c@, Rule::OpOr, i as nat) =~= Seq::empty());
    assert(ops =~= done);
    Ok(expr)
}

} // verus!
