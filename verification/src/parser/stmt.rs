//! The parser of statements.

use super::common::{
    answers, find_first, find_one, first_of, grammar_error, grammar_fault, last_of, only, shaped,
    Error, ErrorModel, Node, Rule,
};
use super::decl::{parse_var_decl_stmt, var_decl_stmt_error, var_decl_stmt_is};
use super::expr::{
    bool_error, bool_is, call_error, call_is, left_val_error, left_val_is, missing,
    parse_bool_expr, parse_fn_call, parse_left_val, parse_right_val, right_val_error, right_val_is,
};
use crate::ast::expr::{BoolUnit, BoolUnitInner, LeftVal, RightVal};
use crate::ast::stmt::{
    AssignmentStmt, BreakStmt, CallStmt, CodeBlockStmt, CodeBlockStmtInner, ContinueStmt, IfStmt,
    NullStmt, ReturnStmt, WhileStmt,
};
use vstd::prelude::*;

verus! {

/// What is wrong with an assignment from position `i` on.
pub open spec fn assignment_error(n: Node, i: nat) -> Option<ErrorModel>
    decreases n.children@.len() - i,
{
    let c = n.children@;
    if i >= c.len() {
        match missing(last_of(c, Rule::LeftVal, c.len()), "assignment.left_val"@, n) {
            Some(e) => Some(e),
            None => missing(last_of(c, Rule::RightVal, c.len()), "assignment.right_val"@, n),
        }
    } else if c[i as int].rule == Rule::LeftVal {
        match left_val_error(c[i as int]) {
            Some(e) => Some(e),
            None => assignment_error(n, i + 1),
        }
    } else if c[i as int].rule == Rule::RightVal {
        match right_val_error(c[i as int]) {
            Some(e) => Some(e),
            None => assignment_error(n, i + 1),
        }
    } else {
        assignment_error(n, i + 1)
    }
}

/// The assignment that a tree stands for.
pub open spec fn assignment_is(n: Node, s: AssignmentStmt) -> bool {
    let c = n.children@;
    &&& last_of(c, Rule::LeftVal, c.len()) matches Some(i) && left_val_is(c[i as int], *s.left_val)
    &&& last_of(c, Rule::RightVal, c.len()) matches Some(i) && right_val_is(
        c[i as int],
        *s.right_val,
    )
}

/// What is wrong with a call statement.
pub open spec fn call_stmt_error(n: Node) -> Option<ErrorModel> {
    match only(n.children@, Rule::FnCall) {
        None => Some(grammar_fault("call_stmt"@, n)),
        Some(i) => call_error(n.children@[i as int]),
    }
}

/// The call statement that a tree stands for.
pub open spec fn call_stmt_is(n: Node, s: CallStmt) -> bool {
    match only(n.children@, Rule::FnCall) {
        None => false,
        Some(i) => call_is(n.children@[i as int], *s.fn_call),
    }
}

/// What is wrong with the values of a return from position `i` on.
pub open spec fn return_error(nodes: Seq<Node>, i: nat) -> Option<ErrorModel>
    decreases nodes.len() - i,
{
    if i >= nodes.len() {
        None
    } else if nodes[i as int].rule == Rule::RightVal {
        match right_val_error(nodes[i as int]) {
            Some(e) => Some(e),
            None => return_error(nodes, i + 1),
        }
    } else {
        return_error(nodes, i + 1)
    }
}

/// The last value before position `k`.
pub open spec fn last_value_is(nodes: Seq<Node>, k: nat, val: Option<Box<RightVal>>) -> bool {
    match last_of(nodes, Rule::RightVal, k) {
        None => val is None,
        Some(i) => val matches Some(v) && right_val_is(nodes[i as int], *v),
    }
}

/// The return that a tree stands for.
pub open spec fn return_is(n: Node, s: ReturnStmt) -> bool {
    last_value_is(n.children@, n.children@.len(), s.val)
}

/// The last condition before position `k`.
pub open spec fn last_condition_is(nodes: Seq<Node>, k: nat, u: Option<Box<BoolUnit>>) -> bool {
    match last_of(nodes, Rule::BoolExpr, k) {
        None => u is None,
        Some(i) => {
            &&& u matches Some(x)
            &&& x.pos == nodes[i as int].pos
            &&& x.inner matches BoolUnitInner::BoolExpr(e) && bool_is(nodes[i as int], *e)
        },
    }
}

/// What a statement is.
pub open spec fn stmt_part(n: Node) -> Option<nat> {
    first_of(
        n.children@,
        seq![
            Rule::VarDeclStmt,
            Rule::AssignmentStmt,
            Rule::CallStmt,
            Rule::IfStmt,
            Rule::WhileStmt,
            Rule::ReturnStmt,
            Rule::ContinueStmt,
            Rule::BreakStmt,
            Rule::NullStmt,
        ],
        0,
    )
}

/// What is wrong with a conditional or loop from position `i` on.
pub open spec fn conditional_error(n: Node, i: nat) -> Option<ErrorModel>
    decreases n, n.children@.len() - i,
{
    let c = n.children@;
    if i >= c.len() {
        missing(last_of(c, Rule::BoolExpr, c.len()), "cond.bool_unit"@, n)
    } else if c[i as int].rule == Rule::BoolExpr {
        match bool_error(c[i as int]) {
            Some(e) => Some(e),
            None => conditional_error(n, i + 1),
        }
    } else if c[i as int].rule == Rule::CodeBlockStmt {
        match stmt_error(c[i as int]) {
            Some(e) => Some(e),
            None => conditional_error(n, i + 1),
        }
    } else {
        conditional_error(n, i + 1)
    }
}

/// What is wrong with a statement.
pub open spec fn stmt_error(n: Node) -> Option<ErrorModel>
    decreases n, 0nat,
{
    match stmt_part(n) {
        None => Some(grammar_fault("code_block_stmt"@, n)),
        Some(i) => if i < n.children@.len() {
            let c = n.children@[i as int];
            match c.rule {
                Rule::VarDeclStmt => var_decl_stmt_error(c),
                Rule::AssignmentStmt => assignment_error(c, 0),
                Rule::CallStmt => call_stmt_error(c),
                Rule::IfStmt => conditional_error(c, 0),
                Rule::WhileStmt => conditional_error(c, 0),
                Rule::ReturnStmt => return_error(c.children@, 0),
                _ => None,
            }
        } else {
            None
        },
    }
}

/// The statements among the first `k` parts of a block.
pub open spec fn block_are(n: Node, k: nat, stmts: Seq<CodeBlockStmt>) -> bool
    decreases n, k,
{
    let c = n.children@;
    if k == 0 {
        stmts.len() == 0
    } else if k <= c.len() && c[k - 1].rule == Rule::CodeBlockStmt {
        stmts.len() > 0 && block_are(n, (k - 1) as nat, stmts.drop_last()) && stmt_is(
            c[k - 1],
            stmts.last(),
        )
    } else {
        block_are(n, (k - 1) as nat, stmts)
    }
}

/// The statements among the first `k` parts of a conditional that stand
/// before (or behind) the `else`.
pub open spec fn branch_are(n: Node, k: nat, behind: bool, stmts: Seq<CodeBlockStmt>) -> bool
    decreases n, k,
{
    let c = n.children@;
    if k == 0 {
        stmts.len() == 0
    } else if k <= c.len() && c[k - 1].rule == Rule::CodeBlockStmt && behind == (last_of(
        c,
        Rule::KwElse,
        (k - 1) as nat,
    ) is Some) {
        stmts.len() > 0 && branch_are(n, (k - 1) as nat, behind, stmts.drop_last()) && stmt_is(
            c[k - 1],
            stmts.last(),
        )
    } else {
        branch_are(n, (k - 1) as nat, behind, stmts)
    }
}

/// The statements behind `else` among the first `k` parts; there is no branch
/// without statements.
pub open spec fn else_are(n: Node, k: nat, stmts: Option<Vec<CodeBlockStmt>>) -> bool
    decreases n, k + 1,
{
    match stmts {
        None => branch_are(n, k, true, Seq::empty()),
        Some(v) => v@.len() > 0 && branch_are(n, k, true, v@),
    }
}

/// The conditional that a tree stands for.
pub open spec fn if_is(n: Node, s: IfStmt) -> bool
    decreases n, n.children@.len() + 2,
{
    let c = n.children@;
    &&& last_condition_is(c, c.len(), Some(s.bool_unit))
    &&& branch_are(n, c.len(), false, s.if_stmts@)
    &&& else_are(n, c.len(), s.else_stmts)
}

/// The loop that a tree stands for.
pub open spec fn while_is(n: Node, s: WhileStmt) -> bool
    decreases n, n.children@.len() + 2,
{
    let c = n.children@;
    &&& last_condition_is(c, c.len(), Some(s.bool_unit))
    &&& block_are(n, c.len(), s.stmts@)
}

/// The statement that a tree stands for.
pub open spec fn stmt_is(n: Node, s: CodeBlockStmt) -> bool
    decreases n, 0nat,
{
    match stmt_part(n) {
        None => false,
        Some(i) => i < n.children@.len() && {
            let c = n.children@[i as int];
            match c.rule {
                Rule::VarDeclStmt => s.inner matches CodeBlockStmtInner::VarDecl(x)
                    && var_decl_stmt_is(c, *x),
                Rule::AssignmentStmt => s.inner matches CodeBlockStmtInner::Assignment(x)
                    && assignment_is(c, *x),
                Rule::CallStmt => s.inner matches CodeBlockStmtInner::Call(x) && call_stmt_is(
                    c,
                    *x,
                ),
                Rule::IfStmt => s.inner matches CodeBlockStmtInner::If(x) && if_is(c, *x),
                Rule::WhileStmt => s.inner matches CodeBlockStmtInner::While(x) && while_is(c, *x),
                Rule::ReturnStmt => s.inner matches CodeBlockStmtInner::Return(x) && return_is(
                    c,
                    *x,
                ),
                Rule::ContinueStmt => s.inner is Continue,
                Rule::BreakStmt => s.inner is Break,
                _ => s.inner is Null,
            }
        },
    }
}

/// The statement that a tree stands for.
pub fn parse_code_block_stmt(n: &Node) -> (r: Result<Box<CodeBlockStmt>, Error>)
    requires
        shaped(*n),
    ensures
        answers(r, stmt_error(*n)),
        r matches Ok(s) ==> stmt_is(*n, *s),
    decreases n,
{
    let rules = vec![
        Rule::VarDeclStmt,
        Rule::AssignmentStmt,
        Rule::CallStmt,
        Rule::IfStmt,
        Rule::WhileStmt,
        Rule::ReturnStmt,
        Rule::ContinueStmt,
        Rule::BreakStmt,
        Rule::NullStmt,
    ];
    assert(rules@ =~= seq![
        Rule::VarDeclStmt,
        Rule::AssignmentStmt,
        Rule::CallStmt,
        Rule::IfStmt,
        Rule::WhileStmt,
        Rule::ReturnStmt,
        Rule::ContinueStmt,
        Rule::BreakStmt,
        Rule::NullStmt,
    ]);
    let i: usize = match find_first(&n.children, &rules) {
        None => {
            return Err(grammar_error("code_block_stmt", n));
        },
        Some(i) => i,
    };
    let c = &n.children[i];
    assert(shaped(n.children@[i as int]));
    let inner = match c.rule {
        Rule::VarDeclStmt => match parse_var_decl_stmt(c) {
            Ok(x) => CodeBlockStmtInner::VarDecl(x),
            Err(e) => {
                return Err(e);
            },
        },
        Rule::AssignmentStmt => match parse_assignment_stmt(c) {
            Ok(x) => CodeBlockStmtInner::Assignment(x),
            Err(e) => {
                return Err(e);
            },
        },
        Rule::CallStmt => match parse_call_stmt(c) {
            Ok(x) => CodeBlockStmtInner::Call(x),
            Err(e) => {
                return Err(e);
            },
        },
        Rule::IfStmt => match parse_if_stmt(c) {
            Ok(x) => CodeBlockStmtInner::If(x),
            Err(e) => {
                return Err(e);
            },
        },
        Rule::WhileStmt => match parse_while_stmt(c) {
            Ok(x) => CodeBlockStmtInner::While(x),
            Err(e) => {
                return Err(e);
            },
        },
        Rule::ReturnStmt => match parse_return_stmt(c) {
            Ok(x) => CodeBlockStmtInner::Return(x),
            Err(e) => {
                return Err(e);
            },
        },
        Rule::ContinueStmt => CodeBlockStmtInner::Continue(Box::new(ContinueStmt {  })),
        Rule::BreakStmt => CodeBlockStmtInner::Break(Box::new(BreakStmt {  })),
        _ => CodeBlockStmtInner::Null(Box::new(NullStmt {  })),
    };
    Ok(Box::new(CodeBlockStmt { inner }))
}

/// The assignment that a tree stands for.
fn parse_assignment_stmt(n: &Node) -> (r: Result<Box<AssignmentStmt>, Error>)
    requires
        shaped(*n),
    ensures
        answers(r, assignment_error(*n, 0)),
        r matches Ok(s) ==> assignment_is(*n, *s),
{
    let c = &n.children;
    let mut left_val: Option<Box<LeftVal>> = None;
    let mut right_val: Option<Box<RightVal>> = None;
    let mut i: usize = 0;
    while i < c.len()
        invariant
            i <= c.len(),
            *c == n.children,
            shaped(*n),
            assignment_error(*n, 0) == assignment_error(*n, i as nat),
            match last_of(c@, Rule::LeftVal, i as nat) {
                None => left_val is None,
                Some(j) => left_val matches Some(v) && left_val_is(c@[j as int], *v),
            },
            last_value_is(c@, i as nat, right_val),
        decreases c.len() - i,
    {
        match c[i].rule {
            Rule::LeftVal => match parse_left_val(&c[i]) {
                Ok(v) => {
                    left_val = Some(v);
                },
                Err(e) => {
                    return Err(e);
                },
            },
            Rule::RightVal => {
                assert(shaped(c@[i as int]));
                match parse_right_val(&c[i]) {
                    Ok(v) => {
                        right_val = Some(v);
                    },
                    Err(e) => {
                        return Err(e);
                    },
                }
            },
            _ => {},
        }
        i = i + 1;
    }
    let left_val = match left_val {
        Some(v) => v,
        None => {
            return Err(grammar_error("assignment.left_val", n));
        },
    };
    let right_val = match right_val {
        Some(v) => v,
        None => {
            return Err(grammar_error("assignment.right_val", n));
        },
    };
    Ok(Box::new(AssignmentStmt { left_val, right_val }))
}

/// The call statement that a tree stands for.
fn parse_call_stmt(n: &Node) -> (r: Result<Box<CallStmt>, Error>)
    requires
        shaped(*n),
    ensures
        answers(r, call_stmt_error(*n)),
        r matches Ok(s) ==> call_stmt_is(*n, *s),
{
    match find_one(&n.children, Rule::FnCall) {
        None => Err(grammar_error("call_stmt", n)),
        Some(i) => {
            assert(shaped(n.children@[i as int]));
            match parse_fn_call(&n.children[i]) {
                Ok(fn_call) => Ok(Box::new(CallStmt { fn_call })),
                Err(e) => Err(e),
            }
        },
    }
}

/// The return that a tree stands for.
fn parse_return_stmt(n: &Node) -> (r: Result<Box<ReturnStmt>, Error>)
    requires
        shaped(*n),
    ensures
        answers(r, return_error(n.children@, 0)),
        r matches Ok(s) ==> return_is(*n, *s),
{
    let c = &n.children;
    let mut val: Option<Box<RightVal>> = None;
    let mut i: usize = 0;
    while i < c.len()
        invariant
            i <= c.len(),
            *c == n.children,
            shaped(*n),
            return_error(c@, 0) == return_error(c@, i as nat),
            last_value_is(c@, i as nat, val),
        decreases c.len() - i,
    {
        match c[i].rule {
            Rule::RightVal => {
                assert(shaped(c@[i as int]));
                match parse_right_val(&c[i]) {
                    Ok(v) => {
                        val = Some(v);
                    },
                    Err(e) => {
                        return Err(e);
                    },
                }
            },
            _ => {},
        }
        i = i + 1;
    }
    Ok(Box::new(ReturnStmt { val }))
}

/// The condition that a tree stands for.
fn parse_condition(n: &Node) -> (r: Result<Box<BoolUnit>, Error>)
    requires
        shaped(*n),
    ensures
        answers(r, bool_error(*n)),
        r matches Ok(u) ==> u.pos == n.pos && (u.inner matches BoolUnitInner::BoolExpr(e) && bool_is(
            *n,
            *e,
        )),
{
    match parse_bool_expr(n) {
        Ok(e) => Ok(Box::new(BoolUnit { pos: n.pos, inner: BoolUnitInner::BoolExpr(e) })),
        Err(e) => Err(e),
    }
}

/// The conditional that a tree stands for.
fn parse_if_stmt(n: &Node) -> (r: Result<Box<IfStmt>, Error>)
    requires
        shaped(*n),
    ensures
        answers(r, conditional_error(*n, 0)),
        r matches Ok(s) ==> if_is(*n, *s),
    decreases n,
{
    let c = &n.children;
    let mut bool_unit: Option<Box<BoolUnit>> = None;
    let mut if_stmts: Vec<CodeBlockStmt> = Vec::new();
    let mut else_stmts: Vec<CodeBlockStmt> = Vec::new();
    let mut in_else = false;
    let mut i: usize = 0;
    while i < c.len()
        invariant
            i <= c.len(),
            *c == n.children,
            shaped(*n),
            conditional_error(*n, 0) == conditional_error(*n, i as nat),
            last_condition_is(c@, i as nat, bool_unit),
            in_else == (last_of(c@, Rule::KwElse, i as nat) is Some),
            branch_are(*n, i as nat, false, if_stmts@),
            branch_are(*n, i as nat, true, else_stmts@),
        decreases c.len() - i,
    {
        match c[i].rule {
            Rule::BoolExpr => {
                assert(shaped(c@[i as int]));
                match parse_condition(&c[i]) {
                    Ok(u) => {
                        bool_unit = Some(u);
                    },
                    Err(e) => {
                        return Err(e);
                    },
                }
            },
            Rule::CodeBlockStmt => {
                assert(shaped(c@[i as int]));
                let stmt = match parse_code_block_stmt(&c[i]) {
                    Ok(s) => s,
                    Err(e) => {
                        return Err(e);
                    },
                };
                if in_else {
                    let ghost before = else_stmts@;
                    else_stmts.push(*stmt);
                    assert(else_stmts@.drop_last() =~= before);
                } else {
                    let ghost before = if_stmts@;
                    if_stmts.push(*stmt);
                    assert(if_stmts@.drop_last() =~= before);
                }
            },
            Rule::KwElse => {
                in_else = true;
            },
            _ => {},
        }
        i = i + 1;
    }
    let bool_unit = match bool_unit {
        Some(u) => u,
        None => {
            return Err(grammar_error("cond.bool_unit", n));
        },
    };
    let else_stmts = if else_stmts.len() == 0 {
        assert(else_stmts@ =~= Seq::empty());
        None
    } else {
        Some(else_stmts)
    };
    assert(else_are(*n, c@.len(), else_stmts));
    Ok(Box::new(IfStmt { bool_unit, if_stmts, else_stmts }))
}

/// The loop that a tree stands for.
fn parse_while_stmt(n: &Node) -> (r: Result<Box<WhileStmt>, Error>)
    requires
        shaped(*n),
    ensures
        answers(r, conditional_error(*n, 0)),
        r matches Ok(s) ==> while_is(*n, *s),
    decreases n,
{
    let c = &n.children;
    let mut bool_unit: Option<Box<BoolUnit>> = None;
    let mut stmts: Vec<CodeBlockStmt> = Vec::new();
    let mut i: usize = 0;
    while i < c.len()
        invariant
            i <= c.len(),
            *c == n.children,
            shaped(*n),
            conditional_error(*n, 0) == conditional_error(*n, i as nat),
            last_condition_is(c@, i as nat, bool_unit),
            block_are(*n, i as nat, stmts@),
        decreases c.len() - i,
    {
        match c[i].rule {
            Rule::BoolExpr => {
                assert(shaped(c@[i as int]));
                match parse_condition(&c[i]) {
                    Ok(u) => {
                        bool_unit = Some(u);
                    },
                    Err(e) => {
                        return Err(e);
                    },
                }
            },
            Rule::CodeBlockStmt => {
                assert(shaped(c@[i as int]));
                match parse_code_block_stmt(&c[i]) {
                    Ok(s) => {
                        let ghost before = stmts@;
                        stmts.push(*s);
                        assert(stmts@.drop_last() =~= before);
                    },
                    Err(e) => {
                        return Err(e);
                    },
                }
            },
            _ => {},
        }
        i = i + 1;
    }
    match bool_unit {
        Some(u) => Ok(Box::new(WhileStmt { bool_unit: u, stmts })),
        None => Err(grammar_error("cond.bool_unit", n)),
    }
}

} // verus!
