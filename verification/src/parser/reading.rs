//! Parsed expressions read back as the tokens of their trees.
//!
//! The trees are those that the grammar gives.  A tree has tokens, and so has
//! an expression; parsing keeps them.  Together with how operators group, the
//! tokens leave no choice of another expression.

use super::common::{
    first_of, inside, last_of, lemma_inside, number, Node, Rule,
};
use super::expr::{
    and_is, ands_are, arith_is, as_unit, atom_is, bool_is, call_is, chain_end, chain_is,
    identifiers, left_val_is, lone_is, operators, ors_are, paren_is, positions, products_are,
    right_val_is, single_is, suffix_part, sums_are, term_is, triple_is, unit_form, unit_is,
    values_are, UnitForm,
};
use crate::ast::expr::{
    ArithExpr, ArithExprInner, BoolExpr, BoolExprInner, BoolUnit, BoolUnitInner, ComExpr, ExprUnit,
    ExprUnitInner, FnCall, IndexExpr, IndexExprInner, LeftVal, LeftValInner, RightVal,
    RightValInner,
};
use crate::ast::ops::{ArithBiOp, BoolBiOp, ComOp};
use crate::common::text::join_text;
use vstd::prelude::*;

verus! {

/// A token of the source text.
pub enum Token {
    Word(Seq<char>),
    Number(int),
    Symbol(Seq<char>),
}

/// The symbol of a terminal of the grammar.
pub open spec fn symbol(r: Rule) -> Token {
    Token::Symbol(
        match r {
            Rule::OpAdd => "+"@,
            Rule::OpSub => "-"@,
            Rule::OpMul => "*"@,
            Rule::OpDiv => "/"@,
            Rule::OpLt => "<"@,
            Rule::OpGt => ">"@,
            Rule::OpLe => "<="@,
            Rule::OpGe => ">="@,
            Rule::OpEq => "=="@,
            Rule::OpNe => "!="@,
            Rule::OpAnd => "&&"@,
            Rule::OpOr => "||"@,
            _ => "!"@,
        },
    )
}

/// The symbol of an arithmetic operator.
pub open spec fn arith_symbol(op: ArithBiOp) -> Token {
    Token::Symbol(
        match op {
            ArithBiOp::Add => "+"@,
            ArithBiOp::Sub => "-"@,
            ArithBiOp::Mul => "*"@,
            ArithBiOp::Div => "/"@,
        },
    )
}

/// The symbol of a comparison.
pub open spec fn comparison_symbol(op: ComOp) -> Token {
    Token::Symbol(
        match op {
            ComOp::Lt => "<"@,
            ComOp::Gt => ">"@,
            ComOp::Le => "<="@,
            ComOp::Ge => ">="@,
            ComOp::Eq => "=="@,
            ComOp::Ne => "!="@,
        },
    )
}

/// The symbol of a boolean operator.
pub open spec fn bool_symbol(op: BoolBiOp) -> Token {
    Token::Symbol(
        match op {
            BoolBiOp::And => "&&"@,
            BoolBiOp::Or => "||"@,
        },
    )
}

/// The tokens between parentheses.
pub open spec fn parenthesized(t: Seq<Token>) -> Seq<Token> {
    seq![Token::Symbol("("@)] + t + seq![Token::Symbol(")"@)]
}

/// The tokens between brackets.
pub open spec fn bracketed(t: Seq<Token>) -> Seq<Token> {
    seq![Token::Symbol("["@)] + t + seq![Token::Symbol("]"@)]
}

/// The tokens of an index.
pub open spec fn written_index(e: IndexExpr) -> Seq<Token> {
    match e.inner {
        IndexExprInner::Num(n) => seq![Token::Number(n as int)],
        IndexExprInner::Id(id) => seq![Token::Word(id@)],
    }
}

/// The tokens of a place.
pub open spec fn written_place(v: LeftVal) -> Seq<Token>
    decreases v,
{
    match v.inner {
        LeftValInner::Id(id) => seq![Token::Word(id@)],
        LeftValInner::ArrayExpr(a) => written_place(*a.arr) + bracketed(written_index(*a.idx)),
        LeftValInner::MemberExpr(m) => written_place(*m.struct_id) + seq![
            Token::Symbol("."@),
            Token::Word(m.member_id@),
        ],
    }
}

/// The tokens of an atomic expression.
pub open spec fn written_unit(u: ExprUnit) -> Seq<Token>
    decreases u,
{
    match u.inner {
        ExprUnitInner::Num(n) => seq![Token::Number(n as int)],
        ExprUnitInner::Id(id) => seq![Token::Word(id@)],
        ExprUnitInner::ArithExpr(e) => parenthesized(written_arith(*e)),
        ExprUnitInner::FnCall(f) => written_call(*f),
        ExprUnitInner::ArrayExpr(a) => written_place(*a.arr) + bracketed(written_index(*a.idx)),
        ExprUnitInner::MemberExpr(m) => written_place(*m.struct_id) + seq![
            Token::Symbol("."@),
            Token::Word(m.member_id@),
        ],
        ExprUnitInner::Reference(id) => seq![Token::Symbol("&"@), Token::Word(id@)],
    }
}

/// The tokens of an arithmetic expression.
pub open spec fn written_arith(e: ArithExpr) -> Seq<Token>
    decreases e,
{
    match e.inner {
        ArithExprInner::ArithBiOpExpr(b) => written_arith(*b.left).push(arith_symbol(b.op))
            + written_arith(*b.right),
        ArithExprInner::ExprUnit(u) => written_unit(*u),
    }
}

/// The tokens of a call.
pub open spec fn written_call(f: FnCall) -> Seq<Token>
    decreases f,
{
    seq![Token::Word(f.callee())] + parenthesized(written_values(f.vals@))
}

/// The tokens of a list of values, with a comma behind each.
pub open spec fn written_values(vals: Seq<RightVal>) -> Seq<Token>
    decreases vals,
{
    if vals.len() == 0 {
        Seq::empty()
    } else {
        (written_values(vals.drop_last()) + written_value(vals.last())).push(Token::Symbol(","@))
    }
}

/// The tokens of a value.
pub open spec fn written_value(v: RightVal) -> Seq<Token>
    decreases v,
{
    match v.inner {
        RightValInner::ArithExpr(e) => written_arith(*e),
        RightValInner::BoolExpr(e) => written_bool(*e),
    }
}

/// The tokens of a comparison.
pub open spec fn written_comparison(c: ComExpr) -> Seq<Token>
    decreases c,
{
    written_unit(*c.left).push(comparison_symbol(c.op)) + written_unit(*c.right)
}

/// The tokens of an atomic boolean expression.
pub open spec fn written_atom(u: BoolUnit) -> Seq<Token>
    decreases u,
{
    match u.inner {
        BoolUnitInner::ComExpr(c) => written_comparison(*c),
        BoolUnitInner::BoolExpr(e) => parenthesized(written_bool(*e)),
        BoolUnitInner::BoolUOpExpr(n) => seq![Token::Symbol("!"@)] + written_atom(*n.cond),
    }
}

/// The tokens of a boolean expression.
pub open spec fn written_bool(e: BoolExpr) -> Seq<Token>
    decreases e,
{
    match e.inner {
        BoolExprInner::BoolBiOpExpr(b) => written_bool(*b.left).push(bool_symbol(b.op))
            + written_bool(*b.right),
        BoolExprInner::BoolUnit(u) => written_atom(*u),
    }
}

/// A number as the grammar gives it: without a sign.
pub open spec fn regular_number(n: Node) -> bool {
    n.rule == Rule::Num && (number(n.text@) matches Some(x) && 0 <= x <= i32::MAX)
}

/// The number that a node stands for.
pub open spec fn numeral(n: Node) -> int {
    number(n.text@)->Some_0
}

/// An index as the grammar gives it.
pub open spec fn regular_index(n: Node) -> bool {
    n.rule == Rule::IndexExpr && n.children@.len() == 1 && (regular_number(n.children@[0])
        || n.children@[0].rule == Rule::Identifier)
}

/// The tokens of an index.
pub open spec fn index_tokens(n: Node) -> Seq<Token> {
    if n.children@[0].rule == Rule::Num {
        seq![Token::Number(numeral(n.children@[0]))]
    } else {
        seq![Token::Word(n.children@[0].text@)]
    }
}

/// A suffix as the grammar gives it: an index in brackets, or a member.
pub open spec fn regular_suffix(n: Node) -> bool {
    let c = n.children@;
    n.rule == Rule::ExprSuffix && (c.len() == 3 && c[0].rule == Rule::Lbracket && regular_index(
        c[1],
    ) && c[2].rule == Rule::Rbracket || c.len() == 2 && c[0].rule == Rule::Dot && c[1].rule
        == Rule::Identifier)
}

/// The tokens of a suffix.
pub open spec fn suffix_tokens(n: Node) -> Seq<Token> {
    if n.children@.len() == 3 {
        bracketed(index_tokens(n.children@[1]))
    } else {
        seq![Token::Symbol("."@), Token::Word(n.children@[1].text@)]
    }
}

/// A name and suffixes, as the grammar gives them.
pub open spec fn regular_chain(c: Seq<Node>) -> bool {
    &&& c.len() > 0
    &&& c[0].rule == Rule::Identifier
    &&& forall|k: int| 1 <= k < c.len() ==> regular_suffix(#[trigger] c[k])
}

/// The tokens of a name and the suffixes before position `k`.
pub open spec fn chain_tokens(c: Seq<Node>, k: nat) -> Seq<Token>
    decreases k,
{
    if k <= 1 {
        seq![Token::Word(c[0].text@)]
    } else {
        chain_tokens(c, (k - 1) as nat) + suffix_tokens(c[k - 1])
    }
}

/// The list has operands at even positions and operators between them.
pub open spec fn alternating(c: Seq<Node>, operand: Rule, operator: Rule) -> bool {
    &&& c.len() % 2 == 1
    &&& forall|k: int|
        0 <= k < c.len() ==> (#[trigger] c[k]).rule == if k % 2 == 0 {
            operand
        } else {
            operator
        }
}

/// An operator of arithmetic as the grammar gives it.
pub open spec fn regular_op(n: Node, a: Rule, b: Rule) -> bool {
    n.children@.len() == 1 && (n.children@[0].rule == a || n.children@[0].rule == b)
}

/// A comparison operator as the grammar gives it.
pub open spec fn regular_comparison_op(n: Node) -> bool {
    n.rule == Rule::CompOp && n.children@.len() == 1 && {
        let r = n.children@[0].rule;
        r == Rule::OpLt || r == Rule::OpGt || r == Rule::OpLe || r == Rule::OpGe || r == Rule::OpEq
            || r == Rule::OpNe
    }
}

/// An atomic expression as the grammar gives it.
pub open spec fn regular_unit(n: Node) -> bool
    decreases n,
{
    let c = n.children@;
    &&& n.rule == Rule::ExprUnit
    &&& {
        ||| c.len() == 2 && c[0].rule == Rule::OpSub && regular_number(c[1])
        ||| c.len() == 3 && c[0].rule == Rule::Lparen && c[1].rule == Rule::ArithExpr
            && regular_arith(c[1]) && c[2].rule == Rule::Rparen
        ||| c.len() == 1 && c[0].rule == Rule::FnCall && regular_call(c[0])
        ||| c.len() == 1 && regular_number(c[0])
        ||| c.len() == 2 && c[0].rule == Rule::Ampersand && c[1].rule == Rule::Identifier
        ||| regular_chain(c)
    }
}

/// The tokens of an atomic expression; a sign belongs to its number.
pub open spec fn unit_tokens(n: Node) -> Seq<Token>
    decreases n,
{
    let c = n.children@;
    if c.len() == 0 {
        Seq::empty()
    } else if c[0].rule == Rule::OpSub && c.len() == 2 {
        seq![Token::Number(-numeral(c[1]))]
    } else if c[0].rule == Rule::Lparen && c.len() == 3 {
        parenthesized(arith_tokens(c[1], c[1].children@.len()))
    } else if c[0].rule == Rule::FnCall {
        call_tokens(c[0])
    } else if c[0].rule == Rule::Num {
        seq![Token::Number(numeral(c[0]))]
    } else if c[0].rule == Rule::Ampersand && c.len() == 2 {
        seq![Token::Symbol("&"@), Token::Word(c[1].text@)]
    } else {
        chain_tokens(c, c.len())
    }
}

/// A term as the grammar gives it.
pub open spec fn regular_term(n: Node) -> bool
    decreases n,
{
    let c = n.children@;
    &&& alternating(c, Rule::ExprUnit, Rule::ArithMulOp)
    &&& forall|k: int|
        0 <= k < c.len() ==> if k % 2 == 0 {
            regular_unit(#[trigger] c[k])
        } else {
            regular_op(c[k], Rule::OpMul, Rule::OpDiv)
        }
}

/// The tokens of the first `k` parts of a term.
pub open spec fn term_tokens(n: Node, k: nat) -> Seq<Token>
    decreases n, k,
{
    let c = n.children@;
    if k == 0 || k > c.len() {
        Seq::empty()
    } else if k % 2 == 1 {
        term_tokens(n, (k - 1) as nat) + unit_tokens(c[k - 1])
    } else {
        term_tokens(n, (k - 1) as nat).push(symbol(c[k - 1].children@[0].rule))
    }
}

/// An arithmetic expression as the grammar gives it.
pub open spec fn regular_arith(n: Node) -> bool
    decreases n,
{
    let c = n.children@;
    &&& alternating(c, Rule::ArithTerm, Rule::ArithAddOp)
    &&& forall|k: int|
        0 <= k < c.len() ==> if k % 2 == 0 {
            regular_term(#[trigger] c[k])
        } else {
            regular_op(c[k], Rule::OpAdd, Rule::OpSub)
        }
}

/// The tokens of the first `k` parts of an arithmetic expression.
pub open spec fn arith_tokens(n: Node, k: nat) -> Seq<Token>
    decreases n, k,
{
    let c = n.children@;
    if k == 0 || k > c.len() {
        Seq::empty()
    } else if k % 2 == 1 {
        arith_tokens(n, (k - 1) as nat) + term_tokens(c[k - 1], c[k - 1].children@.len())
    } else {
        arith_tokens(n, (k - 1) as nat).push(symbol(c[k - 1].children@[0].rule))
    }
}

/// The names among the first `k` parts.
pub open spec fn names_in(c: Seq<Node>, k: nat) -> Seq<Seq<char>>
    decreases k,
{
    if k == 0 {
        Seq::empty()
    } else if c[k - 1].rule == Rule::Identifier {
        names_in(c, (k - 1) as nat).push(c[k - 1].text@)
    } else {
        names_in(c, (k - 1) as nat)
    }
}

/// A call as the grammar gives it: a name, or a path of names, and at most one
/// list of values.
pub open spec fn regular_call(n: Node) -> bool
    decreases n,
{
    &&& n.children@.len() == 1
    &&& {
        let call = n.children@[0];
        let c = call.children@;
        &&& call.rule == Rule::LocalCall && names_in(c, c.len()).len() == 1 || call.rule
            == Rule::ModulePrefixedCall && names_in(c, c.len()).len() >= 2
        &&& forall|k: int|
            0 <= k < c.len() && (#[trigger] c[k]).rule == Rule::RightValList ==> regular_values(
                c[k],
            )
        &&& forall|k: int, l: int|
            0 <= k < c.len() && 0 <= l < c.len() && (#[trigger] c[k]).rule == Rule::RightValList
                && (#[trigger] c[l]).rule == Rule::RightValList ==> k == l
    }
}

/// The values among the first `k` parts of a call.
pub open spec fn argument_tokens(n: Node, k: nat) -> Seq<Token>
    decreases n, k,
{
    let c = n.children@;
    if k == 0 || k > c.len() {
        Seq::empty()
    } else if c[k - 1].rule == Rule::RightValList {
        argument_tokens(n, (k - 1) as nat) + value_tokens(c[k - 1], c[k - 1].children@.len())
    } else {
        argument_tokens(n, (k - 1) as nat)
    }
}

/// The tokens of a call.
pub open spec fn call_tokens(n: Node) -> Seq<Token>
    decreases n,
{
    if n.children@.len() == 0 {
        Seq::empty()
    } else {
        let call = n.children@[0];
        let c = call.children@;
        seq![Token::Word(join_text(names_in(c, c.len()), "::"@))] + parenthesized(
            argument_tokens(call, c.len()),
        )
    }
}

/// A list of values as the grammar gives it.
pub open spec fn regular_values(n: Node) -> bool
    decreases n,
{
    forall|k: int|
        0 <= k < n.children@.len() && (#[trigger] n.children@[k]).rule == Rule::RightVal
            ==> regular_value(n.children@[k])
}

/// The tokens of the values among the first `k` parts of a list, with a comma
/// behind each.
pub open spec fn value_tokens(n: Node, k: nat) -> Seq<Token>
    decreases n, k,
{
    let c = n.children@;
    if k == 0 || k > c.len() {
        Seq::empty()
    } else if c[k - 1].rule == Rule::RightVal {
        (value_tokens(n, (k - 1) as nat) + right_tokens(c[k - 1])).push(Token::Symbol(","@))
    } else {
        value_tokens(n, (k - 1) as nat)
    }
}

/// A value as the grammar gives it.
pub open spec fn regular_value(n: Node) -> bool
    decreases n,
{
    let c = n.children@;
    c.len() == 1 && (c[0].rule == Rule::BoolExpr && regular_bool(c[0]) || c[0].rule
        == Rule::ArithExpr && regular_arith(c[0]))
}

/// The tokens of a value.
pub open spec fn right_tokens(n: Node) -> Seq<Token>
    decreases n,
{
    let c = n.children@;
    if c.len() == 0 {
        Seq::empty()
    } else if c[0].rule == Rule::BoolExpr {
        bool_tokens(c[0], c[0].children@.len())
    } else {
        arith_tokens(c[0], c[0].children@.len())
    }
}

/// A comparison as the grammar gives it, from position `i` on.
pub open spec fn regular_comparison(n: Node, i: int) -> bool
    decreases n,
{
    let c = n.children@;
    0 <= i && i + 2 < c.len() && regular_unit(c[i]) && regular_comparison_op(c[i + 1])
        && regular_unit(c[i + 2])
}

/// The tokens of a comparison from position `i` on.
pub open spec fn comparison_tokens(n: Node, i: int) -> Seq<Token>
    decreases n,
{
    let c = n.children@;
    if 0 <= i && i + 2 < c.len() {
        unit_tokens(c[i]).push(symbol(c[i + 1].children@[0].rule)) + unit_tokens(c[i + 2])
    } else {
        Seq::empty()
    }
}

/// An atomic boolean expression as the grammar gives it.
pub open spec fn regular_atom(n: Node) -> bool
    decreases n,
{
    let c = n.children@;
    ||| c.len() == 2 && c[0].rule == Rule::OpNot && regular_atom(c[1])
    ||| c.len() == 1 && c[0].rule == Rule::BoolComparison && c[0].children@.len() == 3
        && regular_comparison(c[0], 0)
    ||| c.len() == 1 && c[0].rule == Rule::BoolUnitParen && {
        let p = c[0].children@;
        &&& p.len() >= 3
        &&& p[0].rule == Rule::Lparen
        &&& p.last().rule == Rule::Rparen
        &&& p.len() == 3 && p[1].rule == Rule::BoolExpr && regular_bool(p[1]) || p.len() == 5
            && regular_comparison(c[0], 1)
    }
}

/// The tokens of an atomic boolean expression; parentheses around a single
/// comparison are left out.
pub open spec fn atom_tokens(n: Node) -> Seq<Token>
    decreases n,
{
    let c = n.children@;
    if c.len() == 0 {
        Seq::empty()
    } else if c[0].rule == Rule::OpNot && c.len() == 2 {
        seq![Token::Symbol("!"@)] + atom_tokens(c[1])
    } else if c[0].rule == Rule::BoolComparison {
        comparison_tokens(c[0], 0)
    } else if c[0].children@.len() == 3 {
        parenthesized(bool_tokens(c[0].children@[1], c[0].children@[1].children@.len()))
    } else {
        comparison_tokens(c[0], 1)
    }
}

/// A conjunction as the grammar gives it.
pub open spec fn regular_and(n: Node) -> bool
    decreases n,
{
    let c = n.children@;
    &&& alternating(c, Rule::BoolUnitAtom, Rule::OpAnd)
    &&& forall|k: int| 0 <= k < c.len() && k % 2 == 0 ==> regular_atom(#[trigger] c[k])
}

/// The tokens of the first `k` parts of a conjunction.
pub open spec fn and_tokens(n: Node, k: nat) -> Seq<Token>
    decreases n, k,
{
    let c = n.children@;
    if k == 0 || k > c.len() {
        Seq::empty()
    } else if k % 2 == 1 {
        and_tokens(n, (k - 1) as nat) + atom_tokens(c[k - 1])
    } else {
        and_tokens(n, (k - 1) as nat).push(symbol(c[k - 1].rule))
    }
}

/// A boolean expression as the grammar gives it.
pub open spec fn regular_bool(n: Node) -> bool
    decreases n,
{
    let c = n.children@;
    &&& alternating(c, Rule::BoolAndTerm, Rule::OpOr)
    &&& forall|k: int| 0 <= k < c.len() && k % 2 == 0 ==> regular_and(#[trigger] c[k])
}

/// The tokens of the first `k` parts of a boolean expression.
pub open spec fn bool_tokens(n: Node, k: nat) -> Seq<Token>
    decreases n, k,
{
    let c = n.children@;
    if k == 0 || k > c.len() {
        Seq::empty()
    } else if k % 2 == 1 {
        bool_tokens(n, (k - 1) as nat) + and_tokens(c[k - 1], c[k - 1].children@.len())
    } else {
        bool_tokens(n, (k - 1) as nat).push(symbol(c[k - 1].rule))
    }
}

/// In an alternating list the operators are at the odd positions.
proof fn lemma_operators(c: Seq<Node>, operand: Rule, operator: Rule, j: nat)
    requires
        alternating(c, operand, operator),
        operand != operator,
        2 * j + 1 <= c.len(),
    ensures
        operators(c, operator, 2 * j + 1).len() == (c.len() - 1) / 2 - j,
        forall|m: int|
            0 <= m < operators(c, operator, 2 * j + 1).len() ==> #[trigger] operators(
                c,
                operator,
                2 * j + 1,
            )[m] == 2 * (j + m) + 1,
    decreases c.len() - j,
{
    if 2 * j + 1 < c.len() {
        lemma_operators(c, operand, operator, j + 1);
        assert(c[2 * j as int + 1].rule == operator);
        let rest = operators(c, operator, 2 * j + 3);
        let all = operators(c, operator, 2 * j + 1);
        assert(all =~= seq![2 * j + 1] + rest);
        assert forall|m: int| 0 <= m < all.len() implies #[trigger] all[m] == 2 * (j + m) + 1 by {
            if m > 0 {
                assert(all[m] == rest[m - 1]);
            }
        }
    }
}

proof fn lemma_first_inside(c: Seq<Node>, k: nat)
    requires
        1 <= k <= c.len(),
        c[0].rule != Rule::Lparen,
        c[0].rule != Rule::Rparen,
    ensures
        inside(c, k).len() > 0,
        inside(c, k)[0] == 0,
    decreases k,
{
    if k > 1 {
        lemma_first_inside(c, (k - 1) as nat);
    } else {
        assert(inside(c, 0).len() == 0);
    }
}

proof fn lemma_chain_end(c: Seq<Node>, i: nat)
    requires
        regular_chain(c),
        1 <= i <= c.len(),
    ensures
        chain_end(c, i) == c.len(),
    decreases c.len() - i,
{
    if i < c.len() {
        assert(regular_suffix(c[i as int]));
        lemma_chain_end(c, i + 1);
    }
}

proof fn lemma_chain_read(c: Seq<Node>, pos: usize, k: nat, v: LeftVal)
    requires
        regular_chain(c),
        1 <= k <= c.len(),
        chain_is(c, pos, k, v),
    ensures
        written_place(v) == chain_tokens(c, k),
    decreases k,
{
    if k > 1 {
        let s = c[k - 1];
        let p = s.children@;
        assert(regular_suffix(s));
        reveal_with_fuel(first_of, 4);
        let rules = seq![Rule::IndexExpr, Rule::Identifier];
        assert(rules[0] == Rule::IndexExpr && rules[1] == Rule::Identifier);
        assert(rules.contains(Rule::IndexExpr) && rules.contains(Rule::Identifier));
        if p.len() == 3 {
            assert(!rules.contains(Rule::Lbracket));
            assert(suffix_part(s) == Some(1nat));
            let a = v.inner->ArrayExpr_0;
            lemma_chain_read(c, pos, (k - 1) as nat, *a.arr);
            let idx = p[1].children@;
            let kinds = seq![Rule::Num, Rule::Identifier];
            assert(kinds[0] == Rule::Num && kinds[1] == Rule::Identifier);
            assert(kinds.contains(Rule::Num) && kinds.contains(Rule::Identifier));
            assert(first_of(idx, kinds, 0) == Some(0nat));
            assert(written_index(*a.idx) == index_tokens(p[1]));
        } else {
            assert(!rules.contains(Rule::Dot));
            assert(suffix_part(s) == Some(1nat));
            let m = v.inner->MemberExpr_0;
            lemma_chain_read(c, pos, (k - 1) as nat, *m.struct_id);
        }
    }
}

/// A place reads back as the tokens of its tree.
pub proof fn lemma_place_reads_back(n: Node, v: LeftVal)
    requires
        regular_chain(n.children@),
        left_val_is(n, v),
    ensures
        written_place(v) == chain_tokens(n.children@, n.children@.len()),
{
    lemma_chain_end(n.children@, 1);
    lemma_chain_read(n.children@, n.pos, n.children@.len(), v);
}

/// An atomic expression reads back as the tokens of its tree.
pub proof fn lemma_unit_reads_back(n: Node, u: ExprUnit)
    requires
        regular_unit(n),
        unit_is(n, u),
    ensures
        written_unit(u) == unit_tokens(n),
    decreases n, 0nat, 0nat,
{
    let c = n.children@;
    reveal_with_fuel(inside, 5);
    if c.len() > 0 && c[0].rule != Rule::Lparen && c[0].rule != Rule::Rparen {
        lemma_first_inside(c, c.len());
    }
    lemma_inside(c, c.len());
    if c.len() == 2 && c[0].rule == Rule::OpSub {
        assert(inside(c, 2) =~= seq![0nat, 1nat]);
        assert(unit_form(n) == UnitForm::Negated(1));
    } else if c.len() == 3 && c[0].rule == Rule::Lparen {
        assert(inside(c, 3) =~= seq![1nat]);
        assert(unit_form(n) == UnitForm::Parenthesized(1));
        let e = u.inner->ArithExpr_0;
        lemma_arith_reads_back(c[1], *e);
    } else if c.len() == 1 && c[0].rule == Rule::FnCall {
        assert(unit_form(n) == UnitForm::Call(0));
        let f = u.inner->FnCall_0;
        lemma_call_reads_back(c[0], *f);
    } else if c.len() == 1 && c[0].rule == Rule::Num {
        assert(inside(c, 1) =~= seq![0nat]);
        assert(unit_form(n) == UnitForm::Literal(0));
    } else if c.len() == 2 && c[0].rule == Rule::Ampersand {
        assert(inside(c, 2) =~= seq![0nat, 1nat]);
        assert(unit_form(n) == UnitForm::Reference(1));
    } else {
        assert(unit_form(n) == UnitForm::Place);
        let v = choose|v: LeftVal| #[trigger] left_val_is(n, v) && as_unit(v, u);
        lemma_place_reads_back(n, v);
    }
}

proof fn lemma_products_read(n: Node, k: nat, e: ArithExpr)
    requires
        regular_term(n),
        2 * k + 1 <= n.children@.len(),
        products_are(n, k, e),
    ensures
        written_arith(e) == term_tokens(n, 2 * k + 1),
    decreases n, 0nat, k,
{
    let c = n.children@;
    lemma_operators(c, Rule::ExprUnit, Rule::ArithMulOp, 0);
    if k == 0 {
        let u = e.inner->ExprUnit_0;
        assert(single_is(c[0], e));
        assert(regular_unit(c[0]));
        lemma_unit_reads_back(c[0], *u);
        assert(term_tokens(n, 0) =~= Seq::empty());
        assert(term_tokens(n, 1) =~= unit_tokens(c[0]));
    } else {
        let ops = operators(c, Rule::ArithMulOp, 1);
        assert(ops[k - 1] == 2 * k - 1);
        let o = (2 * k - 1) as int;
        let b = e.inner->ArithBiOpExpr_0;
        lemma_products_read(n, (k - 1) as nat, *b.left);
        assert(regular_unit(c[o + 1])) by {
            assert((o + 1) % 2 == 0);
        }
        assert(regular_op(c[o], Rule::OpMul, Rule::OpDiv)) by {
            assert(o % 2 == 1);
            assert(if o % 2 == 0 {
                regular_unit(c[o])
            } else {
                regular_op(c[o], Rule::OpMul, Rule::OpDiv)
            });
        }
        let u = b.right.inner->ExprUnit_0;
        assert(single_is(c[o + 1], *b.right));
        assert(written_arith(*b.right) == written_unit(*u));
        lemma_unit_reads_back(c[o + 1], *u);
        let rules = seq![Rule::OpMul, Rule::OpDiv];
        assert(rules[0] == Rule::OpMul && rules[1] == Rule::OpDiv);
        assert(rules.contains(Rule::OpMul) && rules.contains(Rule::OpDiv));
        assert(first_of(c[o].children@, rules, 0) == Some(0nat));
        assert(symbol(c[o].children@[0].rule) == arith_symbol(b.op));
        assert(term_tokens(n, (2 * k) as nat) == term_tokens(n, (2 * k - 1) as nat).push(
            arith_symbol(b.op),
        ));
        assert(term_tokens(n, 2 * k + 1) == term_tokens(n, (2 * k) as nat) + unit_tokens(c[o + 1]));
    }
}

/// A term reads back as the tokens of its tree.
pub proof fn lemma_term_reads_back(n: Node, e: ArithExpr)
    requires
        regular_term(n),
        term_is(n, e),
    ensures
        written_arith(e) == term_tokens(n, n.children@.len()),
    decreases n, 1nat, 0nat,
{
    let c = n.children@;
    lemma_operators(c, Rule::ExprUnit, Rule::ArithMulOp, 0);
    lemma_products_read(n, operators(c, Rule::ArithMulOp, 1).len(), e);
}

proof fn lemma_sums_read(n: Node, k: nat, e: ArithExpr)
    requires
        regular_arith(n),
        2 * k + 1 <= n.children@.len(),
        sums_are(n, k, e),
    ensures
        written_arith(e) == arith_tokens(n, 2 * k + 1),
    decreases n, 0nat, k,
{
    let c = n.children@;
    lemma_operators(c, Rule::ArithTerm, Rule::ArithAddOp, 0);
    if k == 0 {
        assert(regular_term(c[0]));
        lemma_term_reads_back(c[0], e);
        assert(arith_tokens(n, 0) =~= Seq::empty());
        assert(arith_tokens(n, 1) =~= term_tokens(c[0], c[0].children@.len()));
    } else {
        let ops = operators(c, Rule::ArithAddOp, 1);
        assert(ops[k - 1] == 2 * k - 1);
        let o = (2 * k - 1) as int;
        let b = e.inner->ArithBiOpExpr_0;
        lemma_sums_read(n, (k - 1) as nat, *b.left);
        assert(regular_term(c[o + 1])) by {
            assert((o + 1) % 2 == 0);
        }
        assert(regular_op(c[o], Rule::OpAdd, Rule::OpSub)) by {
            assert(o % 2 == 1);
            assert(if o % 2 == 0 {
                regular_term(c[o])
            } else {
                regular_op(c[o], Rule::OpAdd, Rule::OpSub)
            });
        }
        lemma_term_reads_back(c[o + 1], *b.right);
        let rules = seq![Rule::OpAdd, Rule::OpSub];
        assert(rules[0] == Rule::OpAdd && rules[1] == Rule::OpSub);
        assert(rules.contains(Rule::OpAdd) && rules.contains(Rule::OpSub));
        assert(first_of(c[o].children@, rules, 0) == Some(0nat));
        assert(symbol(c[o].children@[0].rule) == arith_symbol(b.op));
        assert(arith_tokens(n, (2 * k) as nat) == arith_tokens(n, (2 * k - 1) as nat).push(
            arith_symbol(b.op),
        ));
        assert(arith_tokens(n, 2 * k + 1) == arith_tokens(n, (2 * k) as nat) + term_tokens(
            c[o + 1],
            c[o + 1].children@.len(),
        ));
    }
}

/// An arithmetic expression reads back as the tokens of its tree: each
/// operator stands between the operands that it stood between.
pub proof fn lemma_arith_reads_back(n: Node, e: ArithExpr)
    requires
        regular_arith(n),
        arith_is(n, e),
    ensures
        written_arith(e) == arith_tokens(n, n.children@.len()),
    decreases n, 1nat, 0nat,
{
    let c = n.children@;
    lemma_operators(c, Rule::ArithTerm, Rule::ArithAddOp, 0);
    lemma_sums_read(n, operators(c, Rule::ArithAddOp, 1).len(), e);
}

proof fn lemma_names(c: Seq<Node>, k: nat)
    requires
        k <= c.len(),
    ensures
        identifiers(c, k) == names_in(c, k),
        names_in(c, k).len() > 0 ==> (last_of(c, Rule::Identifier, k) matches Some(i)
            && c[i as int].text@ == names_in(c, k).last()),
        names_in(c, k).len() == 0 ==> last_of(c, Rule::Identifier, k) is None,
    decreases k,
{
    if k > 0 {
        lemma_names(c, (k - 1) as nat);
    }
}

/// Values read back as the tokens of their trees.
pub proof fn lemma_values_read(n: Node, k: nat, vals: Seq<RightVal>)
    requires
        regular_values(n),
        k <= n.children@.len(),
        values_are(n, k, vals),
    ensures
        written_values(vals) == value_tokens(n, k),
    decreases n, 0nat, k,
{
    let c = n.children@;
    if k > 0 {
        if c[k - 1].rule == Rule::RightVal {
            lemma_values_read(n, (k - 1) as nat, vals.drop_last());
            lemma_value_reads_back(c[k - 1], vals.last());
        } else {
            lemma_values_read(n, (k - 1) as nat, vals);
        }
    } else {
        assert(written_values(vals) =~= Seq::empty());
    }
}

/// A value reads back as the tokens of its tree.
pub proof fn lemma_value_reads_back(n: Node, v: RightVal)
    requires
        regular_value(n),
        right_val_is(n, v),
    ensures
        written_value(v) == right_tokens(n),
    decreases n, 0nat, 0nat,
{
    let c = n.children@;
    let rules = seq![Rule::BoolExpr, Rule::ArithExpr];
    assert(rules[0] == Rule::BoolExpr && rules[1] == Rule::ArithExpr);
    assert(rules.contains(Rule::BoolExpr) && rules.contains(Rule::ArithExpr));
    assert(first_of(c, rules, 0) == Some(0nat));
    if c[0].rule == Rule::BoolExpr {
        let e = v.inner->BoolExpr_0;
        lemma_bool_reads_back(c[0], *e);
    } else {
        let e = v.inner->ArithExpr_0;
        lemma_arith_reads_back(c[0], *e);
    }
}

proof fn lemma_argument_tokens(n: Node, k: nat, at: int)
    requires
        k <= n.children@.len(),
        forall|j: int|
            0 <= j < k && (#[trigger] n.children@[j]).rule == Rule::RightValList ==> j == at,
    ensures
        0 <= at < k && n.children@[at].rule == Rule::RightValList ==> argument_tokens(n, k)
            == value_tokens(n.children@[at], n.children@[at].children@.len()),
        !(0 <= at < k && n.children@[at].rule == Rule::RightValList) ==> argument_tokens(n, k)
            == Seq::<Token>::empty(),
    decreases k,
{
    if k > 0 {
        lemma_argument_tokens(n, (k - 1) as nat, at);
        let c = n.children@;
        if c[k - 1].rule == Rule::RightValList {
            assert(at == k - 1);
            let list = value_tokens(c[at], c[at].children@.len());
            assert(Seq::<Token>::empty() + list =~= list);
        }
    }
}

/// A call reads back as the tokens of its tree: the name of the callee and the
/// values in order.
pub proof fn lemma_call_reads_back(n: Node, f: FnCall)
    requires
        regular_call(n),
        call_is(n, f),
    ensures
        written_call(f) == call_tokens(n),
    decreases n, 0nat, 0nat,
{
    let call = n.children@[0];
    let c = call.children@;
    let rules = seq![Rule::ModulePrefixedCall, Rule::LocalCall];
    assert(rules[0] == Rule::ModulePrefixedCall && rules[1] == Rule::LocalCall);
    assert(rules.contains(Rule::ModulePrefixedCall) && rules.contains(Rule::LocalCall));
    assert(first_of(n.children@, rules, 0) == Some(0nat));
    lemma_names(c, c.len());
    let path = names_in(c, c.len());
    if call.rule == Rule::ModulePrefixedCall {
        assert(f.callee() == join_text(path, "::"@));
    } else {
        assert(f.callee() == join_text(path, "::"@));
    }
    broadcast use super::common::lemma_last_of;

    match last_of(c, Rule::RightValList, c.len()) {
        None => {
            lemma_no_list(c, c.len());
            lemma_argument_tokens(call, c.len(), -1);
            assert(written_values(f.vals@) =~= Seq::empty());
        },
        Some(i) => {
            assert(c[i as int].rule == Rule::RightValList);
            lemma_argument_tokens(call, c.len(), i as int);
            lemma_values_read(c[i as int], c[i as int].children@.len(), f.vals@);
        },
    }
}

proof fn lemma_no_list(c: Seq<Node>, k: nat)
    requires
        k <= c.len(),
        last_of(c, Rule::RightValList, k) is None,
    ensures
        forall|j: int| 0 <= j < k ==> (#[trigger] c[j]).rule != Rule::RightValList,
    decreases k,
{
    if k > 0 {
        lemma_no_list(c, (k - 1) as nat);
    }
}

proof fn lemma_comparison_read(n: Node, parts: Seq<nat>, i: int, u: BoolUnit)
    requires
        regular_comparison(n, i),
        parts == seq![i as nat, (i + 1) as nat, (i + 2) as nat],
        triple_is(n, parts, u),
    ensures
        written_atom(u) == comparison_tokens(n, i),
    decreases n, 0nat, 0nat,
{
    let c = n.children@;
    let e = u.inner->ComExpr_0;
    lemma_unit_reads_back(c[i], *e.left);
    lemma_unit_reads_back(c[i + 2], *e.right);
    let rules = seq![Rule::OpLt, Rule::OpGt, Rule::OpLe, Rule::OpGe, Rule::OpEq, Rule::OpNe];
    assert(rules[0] == Rule::OpLt && rules[1] == Rule::OpGt && rules[2] == Rule::OpLe && rules[3]
        == Rule::OpGe && rules[4] == Rule::OpEq && rules[5] == Rule::OpNe);
    assert(rules.contains(c[i + 1].children@[0].rule));
    assert(first_of(c[i + 1].children@, rules, 0) == Some(0nat));
    assert(symbol(c[i + 1].children@[0].rule) == comparison_symbol(e.op));
    assert(written_atom(u) == written_comparison(*e));
}

/// An atomic boolean expression reads back as the tokens of its tree.
pub proof fn lemma_atom_reads_back(n: Node, u: BoolUnit)
    requires
        regular_atom(n),
        atom_is(n, u),
    ensures
        written_atom(u) == atom_tokens(n),
    decreases n, 1nat, 0nat,
{
    let c = n.children@;
    if c.len() == 2 && c[0].rule == Rule::OpNot {
        let e = u.inner->BoolUOpExpr_0;
        lemma_atom_reads_back(c[1], *e.cond);
    } else {
        let rules = seq![Rule::BoolUnitParen, Rule::BoolComparison];
        assert(rules[0] == Rule::BoolUnitParen && rules[1] == Rule::BoolComparison);
        assert(rules.contains(Rule::BoolUnitParen) && rules.contains(Rule::BoolComparison));
        assert(first_of(c, rules, 0) == Some(0nat));
        let p = c[0].children@;
        if c[0].rule == Rule::BoolComparison {
            assert(positions(3) =~= seq![0nat, 1nat, 2nat]);
            lemma_comparison_read(c[0], positions(3), 0, u);
        } else {
            reveal_with_fuel(inside, 7);
            assert(paren_is(c[0], u));
            if p.len() == 3 {
                assert(p[2] == p.last());
                assert(inside(p, 3) =~= seq![1nat]);
                let e = u.inner->BoolExpr_0;
                lemma_bool_reads_back(p[1], *e);
            } else {
                assert(p[4] == p.last());
                assert(regular_comparison(c[0], 1));
                assert(regular_unit(p[1]) && regular_unit(p[3]) && regular_comparison_op(p[2]));
                assert(inside(p, 5) =~= seq![1nat, 2nat, 3nat]);
                lemma_comparison_read(c[0], inside(p, 5), 1, u);
            }
        }
    }
}

proof fn lemma_ands_read(n: Node, k: nat, e: BoolExpr)
    requires
        regular_and(n),
        2 * k + 1 <= n.children@.len(),
        ands_are(n, k, e),
    ensures
        written_bool(e) == and_tokens(n, 2 * k + 1),
    decreases n, 0nat, k,
{
    let c = n.children@;
    lemma_operators(c, Rule::BoolUnitAtom, Rule::OpAnd, 0);
    if k == 0 {
        let u = e.inner->BoolUnit_0;
        assert(lone_is(c[0], e));
        assert(regular_atom(c[0]));
        lemma_atom_reads_back(c[0], *u);
        assert(and_tokens(n, 0) =~= Seq::empty());
        assert(and_tokens(n, 1) =~= atom_tokens(c[0]));
    } else {
        assert(operators(c, Rule::OpAnd, 1)[k - 1] == 2 * k - 1);
        let o = (2 * k - 1) as int;
        let b = e.inner->BoolBiOpExpr_0;
        lemma_ands_read(n, (k - 1) as nat, *b.left);
        assert(regular_atom(c[o + 1])) by {
            assert((o + 1) % 2 == 0);
        }
        let u = b.right.inner->BoolUnit_0;
        assert(lone_is(c[o + 1], *b.right));
        assert(written_bool(*b.right) == written_atom(*u));
        lemma_atom_reads_back(c[o + 1], *u);
        assert(c[o].rule == Rule::OpAnd);
        assert(and_tokens(n, (2 * k) as nat) == and_tokens(n, (2 * k - 1) as nat).push(
            bool_symbol(b.op),
        ));
        assert(and_tokens(n, 2 * k + 1) == and_tokens(n, (2 * k) as nat) + atom_tokens(c[o + 1]));
    }
}

/// A conjunction reads back as the tokens of its tree.
pub proof fn lemma_and_reads_back(n: Node, e: BoolExpr)
    requires
        regular_and(n),
        and_is(n, e),
    ensures
        written_bool(e) == and_tokens(n, n.children@.len()),
    decreases n, 1nat, 0nat,
{
    let c = n.children@;
    lemma_operators(c, Rule::BoolUnitAtom, Rule::OpAnd, 0);
    lemma_ands_read(n, operators(c, Rule::OpAnd, 1).len(), e);
}

proof fn lemma_ors_read(n: Node, k: nat, e: BoolExpr)
    requires
        regular_bool(n),
        2 * k + 1 <= n.children@.len(),
        ors_are(n, k, e),
    ensures
        written_bool(e) == bool_tokens(n, 2 * k + 1),
    decreases n, 0nat, k,
{
    let c = n.children@;
    lemma_operators(c, Rule::BoolAndTerm, Rule::OpOr, 0);
    if k == 0 {
        assert(regular_and(c[0]));
        lemma_and_reads_back(c[0], e);
        assert(bool_tokens(n, 0) =~= Seq::empty());
        assert(bool_tokens(n, 1) =~= and_tokens(c[0], c[0].children@.len()));
    } else {
        assert(operators(c, Rule::OpOr, 1)[k - 1] == 2 * k - 1);
        let o = (2 * k - 1) as int;
        let b = e.inner->BoolBiOpExpr_0;
        lemma_ors_read(n, (k - 1) as nat, *b.left);
        assert(regular_and(c[o + 1])) by {
            assert((o + 1) % 2 == 0);
        }
        lemma_and_reads_back(c[o + 1], *b.right);
        assert(c[o].rule == Rule::OpOr);
        assert(bool_tokens(n, (2 * k) as nat) == bool_tokens(n, (2 * k - 1) as nat).push(
            bool_symbol(b.op),
        ));
        assert(bool_tokens(n, 2 * k + 1) == bool_tokens(n, (2 * k) as nat) + and_tokens(
            c[o + 1],
            c[o + 1].children@.len(),
        ));
    }
}

/// A boolean expression reads back as the tokens of its tree.
pub proof fn lemma_bool_reads_back(n: Node, e: BoolExpr)
    requires
        regular_bool(n),
        bool_is(n, e),
    ensures
        written_bool(e) == bool_tokens(n, n.children@.len()),
    decreases n, 1nat, 0nat,
{
    let c = n.children@;
    lemma_operators(c, Rule::BoolAndTerm, Rule::OpOr, 0);
    lemma_ors_read(n, operators(c, Rule::OpOr, 1).len(), e);
}

/// The expression is a single operand, or a chain of products and quotients of
/// single operands that groups to the left.
pub open spec fn grouped_term(e: ArithExpr) -> bool
    decreases e,
{
    match e.inner {
        ArithExprInner::ArithBiOpExpr(b) => {
            &&& b.op == ArithBiOp::Mul || b.op == ArithBiOp::Div
            &&& grouped_term(*b.left)
            &&& b.right.inner is ExprUnit
        },
        ArithExprInner::ExprUnit(_) => true,
    }
}

/// The expression is a term, or a chain of sums and differences of terms that
/// groups to the left.
pub open spec fn grouped_arith(e: ArithExpr) -> bool
    decreases e,
{
    grouped_term(e) || match e.inner {
        ArithExprInner::ArithBiOpExpr(b) => {
            &&& b.op == ArithBiOp::Add || b.op == ArithBiOp::Sub
            &&& grouped_arith(*b.left)
            &&& grouped_term(*b.right)
        },
        ArithExprInner::ExprUnit(_) => true,
    }
}

proof fn lemma_products_grouped(n: Node, k: nat, e: ArithExpr)
    requires
        products_are(n, k, e),
    ensures
        grouped_term(e),
    decreases k,
{
    if k == 0 {
        assert(single_is(n.children@[0], e));
    } else {
        let b = e.inner->ArithBiOpExpr_0;
        lemma_products_grouped(n, (k - 1) as nat, *b.left);
        let o = operators(n.children@, Rule::ArithMulOp, 1)[k - 1];
        assert(single_is(n.children@[o as int + 1], *b.right));
    }
}

proof fn lemma_sums_grouped(n: Node, k: nat, e: ArithExpr)
    requires
        sums_are(n, k, e),
    ensures
        grouped_arith(e),
    decreases k,
{
    if k == 0 {
        let t = n.children@[0];
        assert(term_is(t, e));
        lemma_products_grouped(t, operators(t.children@, Rule::ArithMulOp, 1).len(), e);
    } else {
        let b = e.inner->ArithBiOpExpr_0;
        lemma_sums_grouped(n, (k - 1) as nat, *b.left);
        let o = operators(n.children@, Rule::ArithAddOp, 1)[k - 1];
        let t = n.children@[o as int + 1];
        assert(term_is(t, *b.right));
        lemma_products_grouped(t, operators(t.children@, Rule::ArithMulOp, 1).len(), *b.right);
    }
}

/// Products bind closer than sums, and operators of one level group to the
/// left.
pub proof fn lemma_arith_grouped(n: Node, e: ArithExpr)
    requires
        arith_is(n, e),
    ensures
        grouped_arith(e),
{
    lemma_sums_grouped(n, operators(n.children@, Rule::ArithAddOp, 1).len(), e);
}

/// The expression is atomic, or a chain of conjunctions of atomic ones that
/// groups to the left.
pub open spec fn grouped_and(e: BoolExpr) -> bool
    decreases e,
{
    match e.inner {
        BoolExprInner::BoolBiOpExpr(b) => {
            &&& b.op == BoolBiOp::And
            &&& grouped_and(*b.left)
            &&& b.right.inner is BoolUnit
        },
        BoolExprInner::BoolUnit(_) => true,
    }
}

/// The expression is a conjunction, or a chain of disjunctions of conjunctions
/// that groups to the left.
pub open spec fn grouped_bool(e: BoolExpr) -> bool
    decreases e,
{
    grouped_and(e) || match e.inner {
        BoolExprInner::BoolBiOpExpr(b) => {
            &&& b.op == BoolBiOp::Or
            &&& grouped_bool(*b.left)
            &&& grouped_and(*b.right)
        },
        BoolExprInner::BoolUnit(_) => true,
    }
}

proof fn lemma_ands_grouped(n: Node, k: nat, e: BoolExpr)
    requires
        ands_are(n, k, e),
    ensures
        grouped_and(e),
    decreases k,
{
    if k == 0 {
        assert(lone_is(n.children@[0], e));
    } else {
        let b = e.inner->BoolBiOpExpr_0;
        lemma_ands_grouped(n, (k - 1) as nat, *b.left);
        let o = operators(n.children@, Rule::OpAnd, 1)[k - 1];
        assert(lone_is(n.children@[o as int + 1], *b.right));
    }
}

proof fn lemma_ors_grouped(n: Node, k: nat, e: BoolExpr)
    requires
        ors_are(n, k, e),
    ensures
        grouped_bool(e),
    decreases k,
{
    if k == 0 {
        let t = n.children@[0];
        assert(and_is(t, e));
        lemma_ands_grouped(t, operators(t.children@, Rule::OpAnd, 1).len(), e);
    } else {
        let b = e.inner->BoolBiOpExpr_0;
        lemma_ors_grouped(n, (k - 1) as nat, *b.left);
        let o = operators(n.children@, Rule::OpOr, 1)[k - 1];
        let t = n.children@[o as int + 1];
        assert(and_is(t, *b.right));
        lemma_ands_grouped(t, operators(t.children@, Rule::OpAnd, 1).len(), *b.right);
    }
}

/// `&&` binds closer than `||`, and both group to the left.
pub proof fn lemma_bool_grouped(n: Node, e: BoolExpr)
    requires
        bool_is(n, e),
    ensures
        grouped_bool(e),
{
    lemma_ors_grouped(n, operators(n.children@, Rule::OpOr, 1).len(), e);
}

} // verus!
