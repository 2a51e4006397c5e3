//! Parsed statements and declarations read back as the tokens of their trees.

use super::common::{first_of, last_of, only, type_of, Node, Rule};
use super::decl::{
    element_is, element_part, fn_decl_is, fn_def_is, initializer_is, last_type, struct_is,
    typed_list_are, var_decl_is, var_decl_stmt_is, var_def_is,
};
use super::parts_are;
use super::reading::{
    bool_tokens, bracketed, call_tokens, chain_tokens, lemma_bool_reads_back,
    lemma_call_reads_back, lemma_place_reads_back, lemma_value_reads_back, lemma_values_read,
    numeral, parenthesized, regular_bool, regular_call, regular_chain, regular_number,
    regular_value, regular_values, right_tokens, value_tokens, written_atom, written_bool,
    written_call, written_place, written_value, written_values, Token,
};
use super::stmt::{block_are, branch_are, if_is, last_condition_is, stmt_is, stmt_part, while_is};
use crate::ast::decl::{
    ArrayInitializer, FnDecl, FnDef, StructDef, VarDecl, VarDeclInner, VarDeclStmt,
    VarDeclStmtInner, VarDef, VarDefInner,
};
use crate::ast::expr::{BoolUnit, BoolUnitInner};
use crate::ast::program::{ProgramElement, ProgramElementInner, UseStmt};
use crate::ast::stmt::{CodeBlockStmt, CodeBlockStmtInner, IfStmt, WhileStmt};
use crate::ast::types::{BuiltIn, TypeSpecifier, TypeSpecifierInner};
use vstd::prelude::*;

verus! {

/// A keyword.
pub open spec fn word(text: Seq<char>) -> Seq<Token> {
    seq![Token::Word(text)]
}

/// A symbol.
pub open spec fn sign(text: Seq<char>) -> Seq<Token> {
    seq![Token::Symbol(text)]
}

/// The tokens between braces.
pub open spec fn braced(t: Seq<Token>) -> Seq<Token> {
    sign("{"@) + t + sign("}"@)
}

/// The node at position `i` is the only one with the rule.
pub open spec fn sole(c: Seq<Node>, rule: Rule, i: int) -> bool {
    &&& 0 <= i < c.len()
    &&& c[i].rule == rule
    &&& forall|j: int| 0 <= j < c.len() && (#[trigger] c[j]).rule == rule ==> j == i
}

/// No node has the rule.
pub open spec fn absent(c: Seq<Node>, rule: Rule) -> bool {
    forall|j: int| 0 <= j < c.len() ==> (#[trigger] c[j]).rule != rule
}

/// The position of the only node with the rule.
pub open spec fn at(c: Seq<Node>, rule: Rule) -> int {
    choose|i: int| sole(c, rule, i)
}

/// There is one node with the rule.
pub open spec fn one(c: Seq<Node>, rule: Rule) -> bool {
    sole(c, rule, at(c, rule))
}

proof fn lemma_last(c: Seq<Node>, rule: Rule, i: int, k: nat)
    requires
        sole(c, rule, i),
        k <= c.len(),
    ensures
        last_of(c, rule, k) == if i < k {
            Some(i as nat)
        } else {
            None
        },
    decreases k,
{
    if k > 0 {
        lemma_last(c, rule, i, (k - 1) as nat);
        assert(c[k - 1].rule == rule ==> k - 1 == i);
    }
}

proof fn lemma_first(c: Seq<Node>, rule: Rule, i: int, k: nat)
    requires
        sole(c, rule, i),
        k <= i,
    ensures
        first_of(c, seq![rule], k) == Some(i as nat),
    decreases i - k,
{
    let rules = seq![rule];
    assert(rules[0] == rule);
    assert(rules.contains(rule));
    if k < i {
        assert(!rules.contains(c[k as int].rule)) by {
            if rules.contains(c[k as int].rule) {
                let x = choose|x: int| 0 <= x < rules.len() && rules[x] == c[k as int].rule;
            }
        }
        lemma_first(c, rule, i, k + 1);
    }
}

/// The only node with the rule is the first and the last with it.
proof fn lemma_one(c: Seq<Node>, rule: Rule)
    requires
        one(c, rule),
    ensures
        last_of(c, rule, c.len()) == Some(at(c, rule) as nat),
        only(c, rule) == Some(at(c, rule) as nat),
        0 <= at(c, rule) < c.len(),
        c[at(c, rule)].rule == rule,
{
    lemma_last(c, rule, at(c, rule), c.len());
    lemma_first(c, rule, at(c, rule), 0);
}

proof fn lemma_absent_last(c: Seq<Node>, rule: Rule, k: nat)
    requires
        absent(c, rule),
        k <= c.len(),
    ensures
        last_of(c, rule, k) is None,
    decreases k,
{
    if k > 0 {
        lemma_absent_last(c, rule, (k - 1) as nat);
    }
}

proof fn lemma_absent_first(c: Seq<Node>, rule: Rule, k: nat)
    requires
        absent(c, rule),
    ensures
        first_of(c, seq![rule], k) is None,
    decreases c.len() - k,
{
    if k < c.len() {
        let rules = seq![rule];
        assert(!rules.contains(c[k as int].rule)) by {
            if rules.contains(c[k as int].rule) {
                let x = choose|x: int| 0 <= x < rules.len() && rules[x] == c[k as int].rule;
                assert(rules[x] == rule);
            }
        }
        lemma_absent_first(c, rule, k + 1);
    }
}

proof fn lemma_absent(c: Seq<Node>, rule: Rule)
    requires
        absent(c, rule),
    ensures
        last_of(c, rule, c.len()) is None,
        only(c, rule) is None,
{
    lemma_absent_last(c, rule, c.len());
    lemma_absent_first(c, rule, 0);
}

/// The tokens of a type.
pub open spec fn written_type(t: TypeSpecifier) -> Seq<Token>
    decreases t,
{
    match t.inner {
        TypeSpecifierInner::BuiltIn(BuiltIn::Int) => word("i32"@),
        TypeSpecifierInner::Composite(name) => word(name@),
        TypeSpecifierInner::Reference(r) => sign("&"@) + bracketed(written_type(*r)),
    }
}

/// A type as the grammar gives it.
pub open spec fn regular_type(n: Node) -> bool
    decreases n,
{
    let c = n.children@;
    c.len() == 1 && (c[0].rule == Rule::KwI32 || c[0].rule == Rule::Identifier || c[0].rule
        == Rule::RefType && c[0].children@.len() == 1 && c[0].children@[0].rule == Rule::TypeSpec
        && regular_type(c[0].children@[0]))
}

/// The tokens of a type.
pub open spec fn type_tokens(n: Node) -> Seq<Token>
    decreases n,
{
    let c = n.children@;
    if c.len() == 0 {
        Seq::empty()
    } else if c[0].rule == Rule::KwI32 {
        word("i32"@)
    } else if c[0].rule == Rule::RefType && c[0].children@.len() == 1 {
        sign("&"@) + bracketed(type_tokens(c[0].children@[0]))
    } else {
        word(c[0].text@)
    }
}

/// A type reads back as the tokens of its tree.
pub proof fn lemma_type_reads_back(n: Node)
    requires
        regular_type(n),
    ensures
        type_of(n) matches Some(t) && written_type(t) == type_tokens(n),
    decreases n,
{
    let c = n.children@;
    let rules = seq![Rule::RefType, Rule::KwI32, Rule::Identifier];
    assert(rules[0] == Rule::RefType && rules[1] == Rule::KwI32 && rules[2] == Rule::Identifier);
    assert(rules.contains(Rule::RefType) && rules.contains(Rule::KwI32) && rules.contains(
        Rule::Identifier,
    ));
    assert(first_of(c, rules, 0) == Some(0nat));
    if c[0].rule == Rule::RefType {
        let inner = c[0].children@;
        assert(sole(inner, Rule::TypeSpec, 0));
        lemma_first(inner, Rule::TypeSpec, 0, 0);
        lemma_type_reads_back(inner[0]);
        assert(super::common::referenced(c[0]) == type_of(inner[0]));
    }
}

/// A type that may be left out, as the grammar gives it.
pub open spec fn regular_annotation(c: Seq<Node>) -> bool {
    absent(c, Rule::TypeSpec) || one(c, Rule::TypeSpec) && regular_type(c[at(c, Rule::TypeSpec)])
}

/// The tokens of a type that may be left out, with what leads to it.
pub open spec fn annotation_tokens(c: Seq<Node>, lead: Seq<char>) -> Seq<Token> {
    if one(c, Rule::TypeSpec) {
        sign(lead) + type_tokens(c[at(c, Rule::TypeSpec)])
    } else {
        Seq::empty()
    }
}

/// The tokens of a type that may be left out, with what leads to it.
pub open spec fn written_annotation(t: Option<TypeSpecifier>, lead: Seq<char>) -> Seq<Token> {
    match t {
        Some(t) => sign(lead) + written_type(t),
        None => Seq::empty(),
    }
}

proof fn lemma_annotation(c: Seq<Node>, lead: Seq<char>)
    requires
        regular_annotation(c),
    ensures
        written_annotation(last_type(c, c.len()), lead) == annotation_tokens(c, lead),
        one(c, Rule::TypeSpec) ==> only(c, Rule::TypeSpec) == Some(at(c, Rule::TypeSpec) as nat)
            && written_annotation(type_of(c[at(c, Rule::TypeSpec)]), lead) == annotation_tokens(
            c,
            lead,
        ),
{
    if one(c, Rule::TypeSpec) {
        lemma_one(c, Rule::TypeSpec);
        assert(regular_type(c[at(c, Rule::TypeSpec)])) by {
            if absent(c, Rule::TypeSpec) {
                assert(c[at(c, Rule::TypeSpec)].rule != Rule::TypeSpec);
            }
        }
        lemma_type_reads_back(c[at(c, Rule::TypeSpec)]);
    } else {
        lemma_absent(c, Rule::TypeSpec);
    }
}

/// The tokens of a declaration.
pub open spec fn written_decl(d: VarDecl) -> Seq<Token> {
    word(d.identifier@) + (match d.inner {
        VarDeclInner::Scalar => Seq::empty(),
        VarDeclInner::Array(a) => bracketed(seq![Token::Number(a.len as int)]),
    }) + written_annotation(d.type_specifier, ":"@)
}

/// A declaration as the grammar gives it.
pub open spec fn regular_decl(n: Node) -> bool {
    let c = n.children@;
    &&& one(c, Rule::Identifier)
    &&& absent(c, Rule::Num) || one(c, Rule::Num) && regular_number(c[at(c, Rule::Num)])
    &&& regular_annotation(c)
}

/// The tokens of a declaration.
pub open spec fn decl_tokens(n: Node) -> Seq<Token> {
    let c = n.children@;
    word(c[at(c, Rule::Identifier)].text@) + (if one(c, Rule::Num) {
        bracketed(seq![Token::Number(numeral(c[at(c, Rule::Num)]))])
    } else {
        Seq::empty()
    }) + annotation_tokens(c, ":"@)
}

/// A declaration reads back as the tokens of its tree.
pub proof fn lemma_decl_reads_back(n: Node, d: VarDecl)
    requires
        regular_decl(n),
        var_decl_is(n, d),
    ensures
        written_decl(d) == decl_tokens(n),
{
    let c = n.children@;
    lemma_one(c, Rule::Identifier);
    lemma_annotation(c, ":"@);
    if one(c, Rule::Num) {
        lemma_one(c, Rule::Num);
        assert(regular_number(c[at(c, Rule::Num)])) by {
            if absent(c, Rule::Num) {
                assert(c[at(c, Rule::Num)].rule != Rule::Num);
            }
        }
    } else {
        lemma_absent(c, Rule::Num);
    }
}

/// The tokens of an initializer.
pub open spec fn written_initializer(a: ArrayInitializer) -> Seq<Token> {
    match a {
        ArrayInitializer::ExplicitList(vals) => braced(written_values(vals@)),
        ArrayInitializer::Fill { val, count } => bracketed(
            written_value(*val) + sign(";"@) + seq![Token::Number(count as int)],
        ),
    }
}

/// An initializer as the grammar gives it.
pub open spec fn regular_initializer(n: Node) -> bool {
    let c = n.children@;
    if one(c, Rule::RightValList) {
        regular_values(c[at(c, Rule::RightValList)])
    } else {
        &&& absent(c, Rule::RightValList)
        &&& one(c, Rule::RightVal)
        &&& regular_value(c[at(c, Rule::RightVal)])
        &&& one(c, Rule::Num)
        &&& regular_number(c[at(c, Rule::Num)])
    }
}

/// The tokens of an initializer.
pub open spec fn initializer_tokens(n: Node) -> Seq<Token> {
    let c = n.children@;
    if one(c, Rule::RightValList) {
        let l = c[at(c, Rule::RightValList)];
        braced(value_tokens(l, l.children@.len()))
    } else {
        bracketed(
            right_tokens(c[at(c, Rule::RightVal)]) + sign(";"@) + seq![
                Token::Number(numeral(c[at(c, Rule::Num)])),
            ],
        )
    }
}

/// An initializer reads back as the tokens of its tree.
pub proof fn lemma_initializer_reads_back(n: Node, a: ArrayInitializer)
    requires
        regular_initializer(n),
        initializer_is(n, a),
    ensures
        written_initializer(a) == initializer_tokens(n),
{
    let c = n.children@;
    if one(c, Rule::RightValList) {
        lemma_one(c, Rule::RightValList);
        let l = c[at(c, Rule::RightValList)];
        lemma_values_read(l, l.children@.len(), a->ExplicitList_0@);
    } else {
        lemma_absent(c, Rule::RightValList);
        lemma_one(c, Rule::RightVal);
        lemma_one(c, Rule::Num);
        lemma_value_reads_back(c[at(c, Rule::RightVal)], *a->Fill_val);
    }
}

/// The tokens of a definition.
pub open spec fn written_def(d: VarDef) -> Seq<Token> {
    word(d.identifier@) + (match d.inner {
        VarDefInner::Scalar(_) => Seq::empty(),
        VarDefInner::Array(a) => bracketed(seq![Token::Number(a.len as int)]),
    }) + written_annotation(d.type_specifier, ":"@) + sign("="@) + match d.inner {
        VarDefInner::Scalar(s) => written_value(*s.val),
        VarDefInner::Array(a) => written_initializer(a.initializer),
    }
}

/// A definition as the grammar gives it.
pub open spec fn regular_def(n: Node) -> bool {
    let c = n.children@;
    &&& c.len() > 0
    &&& c[0].rule == Rule::Identifier
    &&& regular_annotation(c)
    &&& one(c, Rule::TypeSpec) ==> one(c, Rule::Colon)
    &&& absent(c, Rule::TypeSpec) ==> absent(c, Rule::Colon)
    &&& if one(c, Rule::ArrayInitializer) {
        &&& regular_initializer(c[at(c, Rule::ArrayInitializer)])
        &&& one(c, Rule::Num)
        &&& regular_number(c[at(c, Rule::Num)])
    } else {
        &&& absent(c, Rule::ArrayInitializer)
        &&& one(c, Rule::RightVal)
        &&& regular_value(c[at(c, Rule::RightVal)])
    }
}

/// The tokens of a definition.
pub open spec fn def_tokens(n: Node) -> Seq<Token> {
    let c = n.children@;
    let array = one(c, Rule::ArrayInitializer);
    word(c[0].text@) + (if array {
        bracketed(seq![Token::Number(numeral(c[at(c, Rule::Num)]))])
    } else {
        Seq::empty()
    }) + annotation_tokens(c, ":"@) + sign("="@) + if array {
        initializer_tokens(c[at(c, Rule::ArrayInitializer)])
    } else {
        right_tokens(c[at(c, Rule::RightVal)])
    }
}

/// A definition reads back as the tokens of its tree.
pub proof fn lemma_def_reads_back(n: Node, d: VarDef)
    requires
        regular_def(n),
        var_def_is(n, d),
    ensures
        written_def(d) == def_tokens(n),
{
    let c = n.children@;
    lemma_annotation(c, ":"@);
    if one(c, Rule::TypeSpec) {
        lemma_one(c, Rule::Colon);
    } else {
        lemma_absent(c, Rule::Colon);
    }
    if one(c, Rule::ArrayInitializer) {
        lemma_one(c, Rule::ArrayInitializer);
        lemma_one(c, Rule::Num);
        let a = d.inner->Array_0;
        lemma_initializer_reads_back(c[at(c, Rule::ArrayInitializer)], a.initializer);
    } else {
        lemma_absent(c, Rule::ArrayInitializer);
        lemma_one(c, Rule::RightVal);
        let s = d.inner->Scalar_0;
        lemma_value_reads_back(c[at(c, Rule::RightVal)], *s.val);
    }
}

/// The tokens of a declaration or definition.
pub open spec fn written_var(s: VarDeclStmt) -> Seq<Token> {
    word("let"@) + (match s.inner {
        VarDeclStmtInner::Decl(d) => written_decl(*d),
        VarDeclStmtInner::Def(d) => written_def(*d),
    }) + sign(";"@)
}

/// A declaration or definition as the grammar gives it.
pub open spec fn regular_var(n: Node) -> bool {
    let c = n.children@;
    c.len() == 1 && (c[0].rule == Rule::VarDef && regular_def(c[0]) || c[0].rule == Rule::VarDecl
        && regular_decl(c[0]))
}

/// The tokens of a declaration or definition.
pub open spec fn var_tokens(n: Node) -> Seq<Token> {
    let c = n.children@;
    word("let"@) + (if c[0].rule == Rule::VarDef {
        def_tokens(c[0])
    } else {
        decl_tokens(c[0])
    }) + sign(";"@)
}

/// A declaration or definition reads back as the tokens of its tree.
pub proof fn lemma_var_reads_back(n: Node, s: VarDeclStmt)
    requires
        regular_var(n),
        var_decl_stmt_is(n, s),
    ensures
        written_var(s) == var_tokens(n),
{
    let c = n.children@;
    let rules = seq![Rule::VarDef, Rule::VarDecl];
    assert(rules[0] == Rule::VarDef && rules[1] == Rule::VarDecl);
    assert(rules.contains(Rule::VarDef) && rules.contains(Rule::VarDecl));
    assert(first_of(c, rules, 0) == Some(0nat));
    if c[0].rule == Rule::VarDef {
        lemma_def_reads_back(c[0], *s.inner->Def_0);
    } else {
        lemma_decl_reads_back(c[0], *s.inner->Decl_0);
    }
}

/// The tokens of a condition.
pub open spec fn written_condition(u: BoolUnit) -> Seq<Token> {
    match u.inner {
        BoolUnitInner::BoolExpr(e) => written_bool(*e),
        _ => written_atom(u),
    }
}

/// The tokens of a statement.
pub open spec fn written_stmt(s: CodeBlockStmt) -> Seq<Token>
    decreases s,
{
    match s.inner {
        CodeBlockStmtInner::VarDecl(v) => written_var(*v),
        CodeBlockStmtInner::Assignment(a) => written_place(*a.left_val) + sign("="@)
            + written_value(*a.right_val) + sign(";"@),
        CodeBlockStmtInner::Call(c) => written_call(*c.fn_call) + sign(";"@),
        CodeBlockStmtInner::If(i) => word("if"@) + written_condition(*i.bool_unit) + braced(
            written_stmts(i.if_stmts@),
        ) + match i.else_stmts {
            Some(e) => word("else"@) + braced(written_stmts(e@)),
            None => Seq::empty(),
        },
        CodeBlockStmtInner::While(w) => word("while"@) + written_condition(*w.bool_unit) + braced(
            written_stmts(w.stmts@),
        ),
        CodeBlockStmtInner::Return(r) => word("return"@) + (match r.val {
            Some(v) => written_value(*v),
            None => Seq::empty(),
        }) + sign(";"@),
        CodeBlockStmtInner::Continue(_) => word("continue"@) + sign(";"@),
        CodeBlockStmtInner::Break(_) => word("break"@) + sign(";"@),
        CodeBlockStmtInner::Null(_) => sign(";"@),
    }
}

/// The tokens of statements.
pub open spec fn written_stmts(stmts: Seq<CodeBlockStmt>) -> Seq<Token>
    decreases stmts,
{
    if stmts.len() == 0 {
        Seq::empty()
    } else {
        written_stmts(stmts.drop_last()) + written_stmt(stmts.last())
    }
}

/// A condition as the grammar gives it.
pub open spec fn regular_condition(c: Seq<Node>) -> bool {
    one(c, Rule::BoolExpr) && regular_bool(c[at(c, Rule::BoolExpr)])
}

/// The tokens of a condition.
pub open spec fn condition_tokens(c: Seq<Node>) -> Seq<Token> {
    let b = c[at(c, Rule::BoolExpr)];
    bool_tokens(b, b.children@.len())
}

/// A statement as the grammar gives it.
pub open spec fn regular_stmt(n: Node) -> bool
    decreases n,
{
    &&& n.children@.len() == 1
    &&& {
        let s = n.children@[0];
        let c = s.children@;
        match s.rule {
            Rule::VarDeclStmt => regular_var(s),
            Rule::AssignmentStmt => {
                &&& one(c, Rule::LeftVal)
                &&& regular_chain(c[at(c, Rule::LeftVal)].children@)
                &&& one(c, Rule::RightVal)
                &&& regular_value(c[at(c, Rule::RightVal)])
            },
            Rule::CallStmt => one(c, Rule::FnCall) && regular_call(c[at(c, Rule::FnCall)]),
            Rule::IfStmt => {
                &&& regular_condition(c)
                &&& absent(c, Rule::KwElse) || one(c, Rule::KwElse) && exists|k: int|
                    at(c, Rule::KwElse) < k < c.len() && (#[trigger] c[k]).rule
                        == Rule::CodeBlockStmt
                &&& forall|k: int|
                    0 <= k < c.len() && (#[trigger] c[k]).rule == Rule::CodeBlockStmt
                        ==> regular_stmt(c[k])
            },
            Rule::WhileStmt => {
                &&& regular_condition(c)
                &&& forall|k: int|
                    0 <= k < c.len() && (#[trigger] c[k]).rule == Rule::CodeBlockStmt
                        ==> regular_stmt(c[k])
            },
            Rule::ReturnStmt => absent(c, Rule::RightVal) || one(c, Rule::RightVal)
                && regular_value(c[at(c, Rule::RightVal)]),
            Rule::ContinueStmt => true,
            Rule::BreakStmt => true,
            _ => s.rule == Rule::NullStmt,
        }
    }
}

/// The tokens of a statement.
pub open spec fn stmt_tokens(n: Node) -> Seq<Token>
    decreases n, 0nat,
{
    if n.children@.len() == 0 {
        Seq::empty()
    } else {
        let s = n.children@[0];
        let c = s.children@;
        match s.rule {
            Rule::VarDeclStmt => var_tokens(s),
            Rule::AssignmentStmt => {
                let l = c[at(c, Rule::LeftVal)].children@;
                chain_tokens(l, l.len()) + sign("="@) + right_tokens(c[at(c, Rule::RightVal)])
                    + sign(";"@)
            },
            Rule::CallStmt => call_tokens(c[at(c, Rule::FnCall)]) + sign(";"@),
            Rule::IfStmt => if one(c, Rule::KwElse) {
                let e = at(c, Rule::KwElse);
                word("if"@) + condition_tokens(c) + braced(section_tokens(s, 0, e)) + word(
                    "else"@,
                ) + braced(section_tokens(s, e, c.len() as int))
            } else {
                word("if"@) + condition_tokens(c) + braced(section_tokens(s, 0, c.len() as int))
            },
            Rule::WhileStmt => word("while"@) + condition_tokens(c) + braced(
                section_tokens(s, 0, c.len() as int),
            ),
            Rule::ReturnStmt => word("return"@) + (if one(c, Rule::RightVal) {
                right_tokens(c[at(c, Rule::RightVal)])
            } else {
                Seq::empty()
            }) + sign(";"@),
            Rule::ContinueStmt => word("continue"@) + sign(";"@),
            Rule::BreakStmt => word("break"@) + sign(";"@),
            _ => sign(";"@),
        }
    }
}

/// The tokens of the statements from position `lo` on and before position
/// `hi`.
pub open spec fn section_tokens(n: Node, lo: int, hi: int) -> Seq<Token>
    decreases n, hi - lo,
{
    let c = n.children@;
    if hi <= lo || hi <= 0 || hi > c.len() {
        Seq::empty()
    } else if c[hi - 1].rule == Rule::CodeBlockStmt {
        section_tokens(n, lo, hi - 1) + stmt_tokens(c[hi - 1])
    } else {
        section_tokens(n, lo, hi - 1)
    }
}

/// The statements of a node are such as the grammar gives.
pub open spec fn regular_section(n: Node) -> bool {
    forall|k: int|
        0 <= k < n.children@.len() && (#[trigger] n.children@[k]).rule == Rule::CodeBlockStmt
            ==> regular_stmt(n.children@[k])
}

proof fn lemma_condition(c: Seq<Node>, u: Box<BoolUnit>)
    requires
        regular_condition(c),
        last_condition_is(c, c.len(), Some(u)),
    ensures
        written_condition(*u) == condition_tokens(c),
{
    lemma_one(c, Rule::BoolExpr);
    let e = u.inner->BoolExpr_0;
    lemma_bool_reads_back(c[at(c, Rule::BoolExpr)], *e);
}

proof fn lemma_block_read(n: Node, k: nat, stmts: Seq<CodeBlockStmt>)
    requires
        regular_section(n),
        k <= n.children@.len(),
        block_are(n, k, stmts),
    ensures
        written_stmts(stmts) == section_tokens(n, 0, k as int),
    decreases n, k, 0nat,
{
    let c = n.children@;
    if k > 0 {
        if c[k - 1].rule == Rule::CodeBlockStmt {
            lemma_block_read(n, (k - 1) as nat, stmts.drop_last());
            assert(regular_stmt(c[k - 1]));
            lemma_stmt_reads_back(c[k - 1], stmts.last());
        } else {
            lemma_block_read(n, (k - 1) as nat, stmts);
        }
    } else {
        assert(written_stmts(stmts) =~= Seq::empty());
    }
}

/// The statements before the `else`, or all where there is none.
proof fn lemma_before_read(n: Node, e: int, k: nat, stmts: Seq<CodeBlockStmt>)
    requires
        regular_section(n),
        k <= n.children@.len(),
        e == n.children@.len() && absent(n.children@, Rule::KwElse) || sole(
            n.children@,
            Rule::KwElse,
            e,
        ),
        branch_are(n, k, false, stmts),
    ensures
        written_stmts(stmts) == section_tokens(
            n,
            0,
            if k < e {
                k as int
            } else {
                e
            },
        ),
    decreases n, k, 0nat,
{
    let c = n.children@;
    if k > 0 {
        if absent(c, Rule::KwElse) {
            lemma_absent_last(c, Rule::KwElse, (k - 1) as nat);
        } else {
            lemma_last(c, Rule::KwElse, e, (k - 1) as nat);
        }
        if c[k - 1].rule == Rule::CodeBlockStmt && k - 1 <= e {
            assert(k - 1 != e || e == c.len());
            lemma_before_read(n, e, (k - 1) as nat, stmts.drop_last());
            assert(regular_stmt(c[k - 1]));
            lemma_stmt_reads_back(c[k - 1], stmts.last());
        } else {
            lemma_before_read(n, e, (k - 1) as nat, stmts);
        }
    } else {
        assert(written_stmts(stmts) =~= Seq::empty());
    }
}

/// The statements behind the `else`.
proof fn lemma_behind_read(n: Node, e: int, k: nat, stmts: Seq<CodeBlockStmt>)
    requires
        regular_section(n),
        k <= n.children@.len(),
        sole(n.children@, Rule::KwElse, e),
        branch_are(n, k, true, stmts),
    ensures
        written_stmts(stmts) == section_tokens(n, e, k as int),
        k <= e ==> stmts.len() == 0,
        (exists|j: int| e < j < k && (#[trigger] n.children@[j]).rule == Rule::CodeBlockStmt)
            ==> stmts.len() > 0,
    decreases n, k, 0nat,
{
    let c = n.children@;
    if k > 0 {
        lemma_last(c, Rule::KwElse, e, (k - 1) as nat);
        if c[k - 1].rule == Rule::CodeBlockStmt && e < k - 1 {
            lemma_behind_read(n, e, (k - 1) as nat, stmts.drop_last());
            assert(regular_stmt(c[k - 1]));
            lemma_stmt_reads_back(c[k - 1], stmts.last());
        } else {
            lemma_behind_read(n, e, (k - 1) as nat, stmts);
            assert(c[k - 1].rule == Rule::CodeBlockStmt ==> k - 1 < e);
        }
    } else {
        assert(written_stmts(stmts) =~= Seq::empty());
    }
}

proof fn lemma_nothing_behind(n: Node, k: nat, stmts: Seq<CodeBlockStmt>)
    requires
        k <= n.children@.len(),
        absent(n.children@, Rule::KwElse),
        branch_are(n, k, true, stmts),
    ensures
        stmts.len() == 0,
    decreases k,
{
    if k > 0 {
        lemma_absent_last(n.children@, Rule::KwElse, (k - 1) as nat);
        lemma_nothing_behind(n, (k - 1) as nat, stmts);
    }
}

proof fn lemma_if_reads_back(s: Node, i: IfStmt)
    requires
        regular_condition(s.children@),
        regular_section(s),
        absent(s.children@, Rule::KwElse) || one(s.children@, Rule::KwElse) && exists|k: int|
            at(s.children@, Rule::KwElse) < k < s.children@.len() && (
            #[trigger] s.children@[k]).rule == Rule::CodeBlockStmt,
        if_is(s, i),
    ensures
        ({
            let c = s.children@;
            let e = at(c, Rule::KwElse);
            &&& written_condition(*i.bool_unit) == condition_tokens(c)
            &&& one(c, Rule::KwElse) ==> written_stmts(i.if_stmts@) == section_tokens(s, 0, e)
                && (i.else_stmts matches Some(v) && written_stmts(v@) == section_tokens(
                s,
                e,
                c.len() as int,
            ))
            &&& !one(c, Rule::KwElse) ==> written_stmts(i.if_stmts@) == section_tokens(
                s,
                0,
                c.len() as int,
            ) && i.else_stmts is None
        }),
    decreases s, s.children@.len() + 1, 0nat,
{
    let c = s.children@;
    lemma_condition(c, i.bool_unit);
    if one(c, Rule::KwElse) {
        let e = at(c, Rule::KwElse);
        lemma_before_read(s, e, c.len(), i.if_stmts@);
        assert(!absent(c, Rule::KwElse)) by {
            assert(c[e].rule == Rule::KwElse);
        }
        let k = choose|k: int| e < k < c.len() && (#[trigger] c[k]).rule == Rule::CodeBlockStmt;
        assert(c[k].rule == Rule::CodeBlockStmt);
        match i.else_stmts {
            Some(v) => lemma_behind_read(s, e, c.len(), v@),
            None => lemma_behind_read(s, e, c.len(), Seq::empty()),
        }
    } else {
        lemma_before_read(s, c.len() as int, c.len(), i.if_stmts@);
        match i.else_stmts {
            Some(v) => lemma_nothing_behind(s, c.len(), v@),
            None => {},
        }
    }
}

/// A statement reads back as the tokens of its tree.
pub proof fn lemma_stmt_reads_back(n: Node, s: CodeBlockStmt)
    requires
        regular_stmt(n),
        stmt_is(n, s),
    ensures
        written_stmt(s) == stmt_tokens(n),
    decreases n, 0nat, 1nat,
{
    let x = n.children@[0];
    let c = x.children@;
    let rules = seq![
        Rule::VarDeclStmt,
        Rule::AssignmentStmt,
        Rule::CallStmt,
        Rule::IfStmt,
        Rule::WhileStmt,
        Rule::ReturnStmt,
        Rule::ContinueStmt,
        Rule::BreakStmt,
        Rule::NullStmt,
    ];
    assert(rules[0] == Rule::VarDeclStmt && rules[1] == Rule::AssignmentStmt && rules[2]
        == Rule::CallStmt && rules[3] == Rule::IfStmt && rules[4] == Rule::WhileStmt && rules[5]
        == Rule::ReturnStmt && rules[6] == Rule::ContinueStmt && rules[7] == Rule::BreakStmt
        && rules[8] == Rule::NullStmt);
    assert(rules.contains(x.rule));
    assert(stmt_part(n) == Some(0nat));
    match x.rule {
        Rule::VarDeclStmt => lemma_var_reads_back(x, *s.inner->VarDecl_0),
        Rule::AssignmentStmt => {
            let a = s.inner->Assignment_0;
            lemma_one(c, Rule::LeftVal);
            lemma_one(c, Rule::RightVal);
            lemma_place_reads_back(c[at(c, Rule::LeftVal)], *a.left_val);
            lemma_value_reads_back(c[at(c, Rule::RightVal)], *a.right_val);
        },
        Rule::CallStmt => {
            lemma_one(c, Rule::FnCall);
            lemma_call_reads_back(c[at(c, Rule::FnCall)], *s.inner->Call_0.fn_call);
        },
        Rule::IfStmt => {
            let i = s.inner->If_0;
            assert(if_is(x, *i));
            lemma_if_reads_back(x, *i);
        },
        Rule::WhileStmt => {
            let w = s.inner->While_0;
            assert(while_is(x, *w));
            lemma_condition(c, w.bool_unit);
            lemma_block_read(x, c.len(), w.stmts@);
        },
        Rule::ReturnStmt => {
            let r = s.inner->Return_0;
            if one(c, Rule::RightVal) {
                lemma_one(c, Rule::RightVal);
                assert(regular_value(c[at(c, Rule::RightVal)])) by {
                    if absent(c, Rule::RightVal) {
                        assert(c[at(c, Rule::RightVal)].rule != Rule::RightVal);
                    }
                }
                lemma_value_reads_back(c[at(c, Rule::RightVal)], *r.val->Some_0);
            } else {
                lemma_absent(c, Rule::RightVal);
            }
        },
        _ => {},
    }
}

/// The tokens of parameters or members, with a comma behind each.
pub open spec fn written_decls(decls: Seq<VarDecl>) -> Seq<Token>
    decreases decls.len(),
{
    if decls.len() == 0 {
        Seq::empty()
    } else {
        written_decls(decls.drop_last()) + written_decl(decls.last()) + sign(","@)
    }
}

/// Parameters or members as the grammar gives them.
pub open spec fn regular_decls(c: Seq<Node>) -> bool {
    forall|k: int|
        0 <= k < c.len() && (#[trigger] c[k]).rule == Rule::TypedVarDecl ==> regular_decl(c[k])
}

/// The tokens of the parameters or members among the first `k` parts.
pub open spec fn decls_tokens(c: Seq<Node>, k: nat) -> Seq<Token>
    decreases k,
{
    if k == 0 {
        Seq::empty()
    } else if c[k - 1].rule == Rule::TypedVarDecl {
        decls_tokens(c, (k - 1) as nat) + decl_tokens(c[k - 1]) + sign(","@)
    } else {
        decls_tokens(c, (k - 1) as nat)
    }
}

proof fn lemma_decls_read(c: Seq<Node>, k: nat, decls: Seq<VarDecl>)
    requires
        regular_decls(c),
        k <= c.len(),
        typed_list_are(c, k, decls),
    ensures
        written_decls(decls) == decls_tokens(c, k),
    decreases k,
{
    if k > 0 {
        if c[k - 1].rule == Rule::TypedVarDecl {
            lemma_decls_read(c, (k - 1) as nat, decls.drop_last());
            assert(regular_decl(c[k - 1]));
            lemma_decl_reads_back(c[k - 1], decls.last());
        } else {
            lemma_decls_read(c, (k - 1) as nat, decls);
        }
    }
}

/// The tokens of a struct.
pub open spec fn written_struct(s: StructDef) -> Seq<Token> {
    word("struct"@) + word(s.identifier@) + braced(written_decls(s.decls@))
}

/// A struct as the grammar gives it.
pub open spec fn regular_struct(n: Node) -> bool {
    let c = n.children@;
    &&& one(c, Rule::Identifier)
    &&& one(c, Rule::TypedVarDeclList)
    &&& regular_decls(c[at(c, Rule::TypedVarDeclList)].children@)
}

/// The tokens of a struct.
pub open spec fn struct_tokens(n: Node) -> Seq<Token> {
    let c = n.children@;
    let l = c[at(c, Rule::TypedVarDeclList)].children@;
    word("struct"@) + word(c[at(c, Rule::Identifier)].text@) + braced(decls_tokens(l, l.len()))
}

/// A struct reads back as the tokens of its tree.
pub proof fn lemma_struct_reads_back(n: Node, s: StructDef)
    requires
        regular_struct(n),
        struct_is(n, s),
    ensures
        written_struct(s) == struct_tokens(n),
{
    let c = n.children@;
    lemma_one(c, Rule::Identifier);
    lemma_one(c, Rule::TypedVarDeclList);
    let l = c[at(c, Rule::TypedVarDeclList)].children@;
    lemma_decls_read(l, l.len(), s.decls@);
}

/// The tokens of a signature.
pub open spec fn written_signature(d: FnDecl) -> Seq<Token> {
    word("fn"@) + word(d.identifier@) + parenthesized(
        match d.param_decl {
            Some(p) => written_decls(p.decls@),
            None => Seq::empty(),
        },
    ) + written_annotation(d.return_dtype, "->"@)
}

/// A signature as the grammar gives it.
pub open spec fn regular_signature(n: Node) -> bool {
    let c = n.children@;
    &&& one(c, Rule::Identifier)
    &&& absent(c, Rule::ParamDecl) || one(c, Rule::ParamDecl) && {
        let p = c[at(c, Rule::ParamDecl)].children@;
        one(p, Rule::TypedVarDeclList) && regular_decls(p[at(p, Rule::TypedVarDeclList)].children@)
    }
    &&& regular_annotation(c)
}

/// The tokens of a signature.
pub open spec fn signature_tokens(n: Node) -> Seq<Token> {
    let c = n.children@;
    word("fn"@) + word(c[at(c, Rule::Identifier)].text@) + parenthesized(
        if one(c, Rule::ParamDecl) {
            let p = c[at(c, Rule::ParamDecl)].children@;
            let l = p[at(p, Rule::TypedVarDeclList)].children@;
            decls_tokens(l, l.len())
        } else {
            Seq::empty()
        },
    ) + annotation_tokens(c, "->"@)
}

/// A signature reads back as the tokens of its tree.
pub proof fn lemma_signature_reads_back(n: Node, d: FnDecl)
    requires
        regular_signature(n),
        fn_decl_is(n, d),
    ensures
        written_signature(d) == signature_tokens(n),
{
    let c = n.children@;
    lemma_one(c, Rule::Identifier);
    lemma_annotation(c, "->"@);
    if one(c, Rule::ParamDecl) {
        lemma_one(c, Rule::ParamDecl);
        assert(!absent(c, Rule::ParamDecl)) by {
            assert(c[at(c, Rule::ParamDecl)].rule == Rule::ParamDecl);
        }
        let p = c[at(c, Rule::ParamDecl)].children@;
        lemma_one(p, Rule::TypedVarDeclList);
        let l = p[at(p, Rule::TypedVarDeclList)].children@;
        lemma_decls_read(l, l.len(), d.param_decl->Some_0.decls@);
    } else {
        lemma_absent(c, Rule::ParamDecl);
    }
}

/// The tokens of a function.
pub open spec fn written_function(f: FnDef) -> Seq<Token> {
    written_signature(*f.fn_decl) + braced(written_stmts(f.stmts@))
}

/// A function as the grammar gives it.
pub open spec fn regular_function(n: Node) -> bool {
    let c = n.children@;
    one(c, Rule::FnDecl) && regular_signature(c[at(c, Rule::FnDecl)]) && regular_section(n)
}

/// The tokens of a function.
pub open spec fn function_tokens(n: Node) -> Seq<Token> {
    let c = n.children@;
    signature_tokens(c[at(c, Rule::FnDecl)]) + braced(section_tokens(n, 0, c.len() as int))
}

/// A function reads back as the tokens of its tree.
pub proof fn lemma_function_reads_back(n: Node, f: FnDef)
    requires
        regular_function(n),
        fn_def_is(n, f),
    ensures
        written_function(f) == function_tokens(n),
{
    let c = n.children@;
    lemma_one(c, Rule::FnDecl);
    lemma_signature_reads_back(c[at(c, Rule::FnDecl)], *f.fn_decl);
    lemma_block_read(n, c.len(), f.stmts@);
}

/// The tokens of a top-level element.
pub open spec fn written_element(e: ProgramElement) -> Seq<Token> {
    match e.inner {
        ProgramElementInner::VarDeclStmt(s) => written_var(*s),
        ProgramElementInner::StructDef(s) => written_struct(*s),
        ProgramElementInner::FnDeclStmt(s) => written_signature(*s.fn_decl) + sign(";"@),
        ProgramElementInner::FnDef(f) => written_function(*f),
    }
}

/// A top-level element as the grammar gives it.
pub open spec fn regular_element(n: Node) -> bool {
    &&& n.children@.len() == 1
    &&& {
        let x = n.children@[0];
        match x.rule {
            Rule::VarDeclStmt => regular_var(x),
            Rule::StructDef => regular_struct(x),
            Rule::FnDeclStmt => one(x.children@, Rule::FnDecl) && regular_signature(
                x.children@[at(x.children@, Rule::FnDecl)],
            ),
            _ => x.rule == Rule::FnDef && regular_function(x),
        }
    }
}

/// The tokens of a top-level element.
pub open spec fn element_tokens(n: Node) -> Seq<Token> {
    let x = n.children@[0];
    match x.rule {
        Rule::VarDeclStmt => var_tokens(x),
        Rule::StructDef => struct_tokens(x),
        Rule::FnDeclStmt => signature_tokens(x.children@[at(x.children@, Rule::FnDecl)]) + sign(
            ";"@,
        ),
        _ => function_tokens(x),
    }
}

/// A top-level element reads back as the tokens of its tree.
pub proof fn lemma_element_reads_back(n: Node, e: ProgramElement)
    requires
        regular_element(n),
        element_is(n, e),
    ensures
        written_element(e) == element_tokens(n),
{
    let x = n.children@[0];
    let rules = seq![Rule::VarDeclStmt, Rule::StructDef, Rule::FnDeclStmt, Rule::FnDef];
    assert(rules[0] == Rule::VarDeclStmt && rules[1] == Rule::StructDef && rules[2]
        == Rule::FnDeclStmt && rules[3] == Rule::FnDef);
    assert(rules.contains(x.rule));
    assert(element_part(n) == Some(0nat));
    match x.rule {
        Rule::VarDeclStmt => lemma_var_reads_back(x, *e.inner->VarDeclStmt_0),
        Rule::StructDef => lemma_struct_reads_back(x, *e.inner->StructDef_0),
        Rule::FnDeclStmt => {
            lemma_one(x.children@, Rule::FnDecl);
            lemma_signature_reads_back(
                x.children@[at(x.children@, Rule::FnDecl)],
                *e.inner->FnDeclStmt_0.fn_decl,
            );
        },
        _ => lemma_function_reads_back(x, *e.inner->FnDef_0),
    }
}

/// The tokens of top-level elements.
pub open spec fn written_elements(elements: Seq<ProgramElement>) -> Seq<Token>
    decreases elements.len(),
{
    if elements.len() == 0 {
        Seq::empty()
    } else {
        written_elements(elements.drop_last()) + written_element(elements.last())
    }
}

/// The tokens of the top-level elements among the first `k` parts of a
/// program.
pub open spec fn elements_tokens(parts: Seq<Node>, k: nat) -> Seq<Token>
    decreases k,
{
    if k == 0 {
        Seq::empty()
    } else if parts[k - 1].rule == Rule::ProgramElement {
        elements_tokens(parts, (k - 1) as nat) + element_tokens(parts[k - 1])
    } else {
        elements_tokens(parts, (k - 1) as nat)
    }
}

/// The elements of a program read back, in their order, as the tokens of their
/// trees: none is lost, and none comes twice.
pub proof fn lemma_elements_read_back(
    parts: Seq<Node>,
    k: nat,
    uses: Seq<UseStmt>,
    elements: Seq<ProgramElement>,
)
    requires
        k <= parts.len(),
        forall|i: int|
            0 <= i < parts.len() && (#[trigger] parts[i]).rule == Rule::ProgramElement
                ==> regular_element(parts[i]),
        parts_are(parts, k, uses, elements),
    ensures
        written_elements(elements) == elements_tokens(parts, k),
    decreases k,
{
    if k > 0 {
        let c = parts[k - 1];
        if c.rule == Rule::UseStmt {
            lemma_elements_read_back(parts, (k - 1) as nat, uses.drop_last(), elements);
        } else if c.rule == Rule::ProgramElement {
            let x = c.children@[0];
            let rules = seq![Rule::VarDeclStmt, Rule::StructDef, Rule::FnDeclStmt, Rule::FnDef];
            assert(rules[0] == Rule::VarDeclStmt && rules[1] == Rule::StructDef && rules[2]
                == Rule::FnDeclStmt && rules[3] == Rule::FnDef);
            assert(rules.contains(x.rule));
            assert(element_part(c) == Some(0nat));
            lemma_element_reads_back(c, elements.last());
            lemma_elements_read_back(parts, (k - 1) as nat, uses, elements.drop_last());
        } else {
            lemma_elements_read_back(parts, (k - 1) as nat, uses, elements);
        }
    }
}

} // verus!
