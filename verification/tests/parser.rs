use teac::ast::decl::{ArrayInitializer, VarDeclInner, VarDeclStmtInner, VarDefInner};
use teac::ast::expr::{
    ArithExprInner, BoolExprInner, BoolUnitInner, ExprUnitInner, IndexExprInner, LeftValInner,
    RightValInner,
};
use teac::ast::ops::{ArithBiOp, BoolBiOp, ComOp};
use teac::ast::program::ProgramElementInner;
use teac::ast::stmt::CodeBlockStmtInner;
use teac::ast::types::TypeSpecifierInner;
use teac::common::generator::Generator;
use teac::parser::common::{compact_snippet, parse_num, Error, Node, NumberFault, Rule, Source};
use teac::parser::decl::{parse_use_stmt, parse_var_decl, parse_var_def};
use teac::parser::expr::{
    parse_arith_expr, parse_bool_expr, parse_expr_unit, parse_fn_call, parse_left_val,
};
use teac::parser::stmt::parse_code_block_stmt;
use teac::parser::Parser;

fn node(rule: Rule, text: &str, children: Vec<Node>) -> Node {
    Node { rule, text: text.to_string(), pos: 3, line: 2, column: 5, children }
}

fn leaf(rule: Rule, text: &str) -> Node {
    node(rule, text, vec![])
}

fn name(text: &str) -> Node {
    leaf(Rule::Identifier, text)
}

fn num(text: &str) -> Node {
    leaf(Rule::Num, text)
}

fn unit(child: Node) -> Node {
    node(Rule::ExprUnit, "", vec![child])
}

fn term(child: Node) -> Node {
    node(Rule::ArithTerm, "", vec![unit(child)])
}

fn arith(child: Node) -> Node {
    node(Rule::ArithExpr, "", vec![term(child)])
}

fn right(child: Node) -> Node {
    node(Rule::RightVal, "", vec![arith(child)])
}

fn int_type() -> Node {
    node(Rule::TypeSpec, "i32", vec![leaf(Rule::KwI32, "i32")])
}

fn comparison(left: Node, op: Rule, right: Node) -> Node {
    node(
        Rule::BoolUnitAtom,
        "",
        vec![node(
            Rule::BoolComparison,
            "",
            vec![unit(left), node(Rule::CompOp, "", vec![leaf(op, "")]), unit(right)],
        )],
    )
}

fn condition(left: Node, op: Rule, right: Node) -> Node {
    node(
        Rule::BoolExpr,
        "",
        vec![node(Rule::BoolAndTerm, "", vec![comparison(left, op, right)])],
    )
}

#[test]
fn snippets_are_compacted() {
    assert_eq!(compact_snippet("  a\n\t b  "), "a b");
    assert_eq!(compact_snippet(" \n "), "<empty>");
    assert_eq!(compact_snippet("a\u{a0}b"), "a b");
    for code in 0..0x11_0000u32 {
        if let Some(c) = char::from_u32(code) {
            assert_eq!(compact_snippet(&c.to_string()) == "<empty>", c.is_whitespace());
        }
    }
    let long = "x".repeat(49);
    assert_eq!(compact_snippet(&long), format!("{}...", "x".repeat(48)));
    assert_eq!(compact_snippet(&"x".repeat(48)), "x".repeat(48));
}

#[test]
fn numbers_are_read() {
    assert_eq!(parse_num(&num("0")).unwrap(), 0);
    assert_eq!(parse_num(&num("2147483647")).unwrap(), i32::MAX);
    assert_eq!(parse_num(&num("-2147483648")).unwrap(), i32::MIN);
    assert_eq!(parse_num(&num("+7")).unwrap(), 7);
    for (bad, fault) in [
        ("2147483648", NumberFault::PosOverflow),
        ("-2147483649", NumberFault::NegOverflow),
        ("", NumberFault::Empty),
        ("-", NumberFault::InvalidDigit),
        ("1x", NumberFault::InvalidDigit),
        ("99999999999999999999", NumberFault::PosOverflow),
        ("99999999999x", NumberFault::PosOverflow),
        ("x99999999999", NumberFault::InvalidDigit),
    ] {
        match parse_num(&num(bad)) {
            Err(Error::InvalidNumber { literal, line, column, source }) => {
                assert_eq!(literal, bad);
                assert_eq!((line, column), (2, 5));
                assert_eq!(source, fault);
                assert_eq!(source.to_text(), bad.parse::<i32>().unwrap_err().to_string());
            }
            r => panic!("{r:?}"),
        }
    }
    assert_eq!(
        parse_num(&num("1x")).unwrap_err().to_text(),
        "invalid integer literal `1x` at line 2, column 5"
    );
}

#[test]
fn sums_group_to_the_left() {
    // 1 - 2 - 3
    let minus = || node(Rule::ArithAddOp, "-", vec![leaf(Rule::OpSub, "-")]);
    let n = node(
        Rule::ArithExpr,
        "1 - 2 - 3",
        vec![term(num("1")), minus(), term(num("2")), minus(), term(num("3"))],
    );
    let e = parse_arith_expr(&n).unwrap();
    assert_eq!(e.to_text(), "((1 sub 2) sub 3)");
    match e.inner {
        ArithExprInner::ArithBiOpExpr(b) => {
            assert_eq!(b.op, ArithBiOp::Sub);
            assert!(matches!(b.left.inner, ArithExprInner::ArithBiOpExpr(_)));
            assert!(matches!(b.right.inner, ArithExprInner::ExprUnit(_)));
        }
        _ => panic!("no operation"),
    }
}

#[test]
fn missing_operands_are_reported() {
    let plus = node(Rule::ArithAddOp, "+", vec![leaf(Rule::OpAdd, "+")]);
    let n = node(Rule::ArithExpr, "1  +", vec![term(num("1")), plus]);
    match parse_arith_expr(&n) {
        Err(Error::Grammar { line, column, message }) => {
            assert_eq!((line, column), (2, 5));
            assert_eq!(message, "arith_expr.operand near `1 +`");
        }
        r => panic!("{r:?}"),
    }
    let n = node(Rule::ArithExpr, "", vec![]);
    assert_eq!(
        parse_arith_expr(&n).unwrap_err().to_text(),
        "unexpected parse tree structure in arith_expr near `<empty>` at line 2, column 5"
    );
}

#[test]
fn conjunction_binds_closer_than_disjunction() {
    // 1 < 2 || 3 < 4 && 5 < 6
    let n = node(
        Rule::BoolExpr,
        "",
        vec![
            node(Rule::BoolAndTerm, "", vec![comparison(num("1"), Rule::OpLt, num("2"))]),
            leaf(Rule::OpOr, "||"),
            node(
                Rule::BoolAndTerm,
                "",
                vec![
                    comparison(num("3"), Rule::OpGe, num("4")),
                    leaf(Rule::OpAnd, "&&"),
                    comparison(num("5"), Rule::OpNe, num("6")),
                ],
            ),
        ],
    );
    match parse_bool_expr(&n).unwrap().inner {
        BoolExprInner::BoolBiOpExpr(or) => {
            assert_eq!(or.op, BoolBiOp::Or);
            assert!(matches!(or.left.inner, BoolExprInner::BoolUnit(_)));
            match or.right.inner {
                BoolExprInner::BoolBiOpExpr(and) => {
                    assert_eq!(and.op, BoolBiOp::And);
                    match and.left.inner {
                        BoolExprInner::BoolUnit(u) => match u.inner {
                            BoolUnitInner::ComExpr(c) => assert_eq!(c.op, ComOp::Ge),
                            _ => panic!("no comparison"),
                        },
                        _ => panic!("no unit"),
                    }
                }
                _ => panic!("no conjunction"),
            }
        }
        _ => panic!("no disjunction"),
    }
}

#[test]
fn atomic_expressions_take_all_forms() {
    let negated = node(Rule::ExprUnit, "-5", vec![leaf(Rule::OpSub, "-"), num("5")]);
    assert!(matches!(parse_expr_unit(&negated).unwrap().inner, ExprUnitInner::Num(-5)));

    let parens = node(
        Rule::ExprUnit,
        "(1)",
        vec![leaf(Rule::Lparen, "("), arith(num("1")), leaf(Rule::Rparen, ")")],
    );
    assert!(matches!(parse_expr_unit(&parens).unwrap().inner, ExprUnitInner::ArithExpr(_)));

    let reference = node(Rule::ExprUnit, "&a", vec![leaf(Rule::Ampersand, "&"), name("a")]);
    match parse_expr_unit(&reference).unwrap().inner {
        ExprUnitInner::Reference(id) => assert_eq!(id, "a"),
        _ => panic!("no reference"),
    }

    match parse_expr_unit(&unit(name("x"))).unwrap().inner {
        ExprUnitInner::Id(id) => assert_eq!(id, "x"),
        _ => panic!("no name"),
    }
    assert!(matches!(
        parse_expr_unit(&node(Rule::ExprUnit, "?", vec![])),
        Err(Error::Grammar { .. })
    ));
}

#[test]
fn places_chain_their_suffixes() {
    // s.a[2]
    let n = node(
        Rule::LeftVal,
        "s.a[2]",
        vec![
            name("s"),
            node(Rule::ExprSuffix, ".a", vec![leaf(Rule::Dot, "."), name("a")]),
            node(
                Rule::ExprSuffix,
                "[2]",
                vec![
                    leaf(Rule::Lbracket, "["),
                    node(Rule::IndexExpr, "2", vec![num("2")]),
                    leaf(Rule::Rbracket, "]"),
                ],
            ),
        ],
    );
    let v = parse_left_val(&n).unwrap();
    assert_eq!(v.to_text(), "s.a[2]");
    match v.inner {
        LeftValInner::ArrayExpr(a) => {
            assert!(matches!(a.idx.inner, IndexExprInner::Num(2)));
            assert!(matches!(a.arr.inner, LeftValInner::MemberExpr(_)));
        }
        _ => panic!("no element"),
    }
}

#[test]
fn calls_keep_their_module() {
    let n = node(
        Rule::FnCall,
        "",
        vec![node(
            Rule::ModulePrefixedCall,
            "",
            vec![
                name("a"),
                name("b"),
                name("f"),
                node(Rule::RightValList, "", vec![right(num("1")), right(num("2"))]),
            ],
        )],
    );
    let f = parse_fn_call(&n).unwrap();
    assert_eq!(f.module_prefix.as_deref(), Some("a::b"));
    assert_eq!(f.name, "f");
    assert_eq!(f.vals.len(), 2);
    assert_eq!(f.qualified_name(), "a::b::f");

    let n = node(Rule::FnCall, "", vec![node(Rule::LocalCall, "", vec![name("g")])]);
    let f = parse_fn_call(&n).unwrap();
    assert!(f.module_prefix.is_none());
    assert_eq!(f.name, "g");
    assert!(f.vals.is_empty());
}

#[test]
fn declarations_are_read() {
    let n = node(Rule::VarDecl, "", vec![name("a"), num("4"), leaf(Rule::Colon, ":"), int_type()]);
    let d = parse_var_decl(&n).unwrap();
    assert_eq!(d.identifier, "a");
    assert!(matches!(d.inner, VarDeclInner::Array(a) if a.len == 4));
    assert!(matches!(d.type_specifier.unwrap().inner, TypeSpecifierInner::BuiltIn(_)));
    assert!(matches!(
        parse_var_decl(&node(Rule::VarDecl, "", vec![])),
        Err(Error::Grammar { .. })
    ));

    let fill = node(
        Rule::VarDef,
        "",
        vec![
            name("b"),
            num("3"),
            node(Rule::ArrayInitializer, "", vec![right(num("7")), num("3")]),
        ],
    );
    match parse_var_def(&fill).unwrap().inner {
        VarDefInner::Array(a) => {
            assert_eq!(a.len, 3);
            assert!(matches!(a.initializer, ArrayInitializer::Fill { count: 3, .. }));
        }
        _ => panic!("no array"),
    }

    let reference = node(
        Rule::TypeSpec,
        "",
        vec![node(Rule::RefType, "", vec![int_type()])],
    );
    let n = node(Rule::VarDecl, "", vec![name("r"), reference]);
    assert!(matches!(
        parse_var_decl(&n).unwrap().type_specifier.unwrap().inner,
        TypeSpecifierInner::Reference(_)
    ));
    assert_eq!(
        parse_use_stmt(&node(Rule::UseStmt, "", vec![name("a"), name("b")])).module_name,
        "a::b"
    );
}

#[test]
fn conditionals_keep_their_branches() {
    let null = || node(Rule::CodeBlockStmt, ";", vec![leaf(Rule::NullStmt, ";")]);
    let with_else = node(
        Rule::CodeBlockStmt,
        "",
        vec![node(
            Rule::IfStmt,
            "",
            vec![
                condition(num("1"), Rule::OpEq, num("1")),
                null(),
                null(),
                leaf(Rule::KwElse, "else"),
                null(),
            ],
        )],
    );
    match parse_code_block_stmt(&with_else).unwrap().inner {
        CodeBlockStmtInner::If(s) => {
            assert_eq!(s.if_stmts.len(), 2);
            assert_eq!(s.else_stmts.unwrap().len(), 1);
        }
        _ => panic!("no conditional"),
    }
    let empty_else = node(
        Rule::CodeBlockStmt,
        "",
        vec![node(
            Rule::IfStmt,
            "",
            vec![condition(num("1"), Rule::OpEq, num("1")), leaf(Rule::KwElse, "else")],
        )],
    );
    match parse_code_block_stmt(&empty_else).unwrap().inner {
        CodeBlockStmtInner::If(s) => assert!(s.else_stmts.is_none()),
        _ => panic!("no conditional"),
    }
    let bare = node(Rule::CodeBlockStmt, "", vec![node(Rule::WhileStmt, "while", vec![])]);
    match parse_code_block_stmt(&bare) {
        Err(Error::Grammar { message, .. }) => {
            assert_eq!(message, "cond.bool_unit near `while`");
        }
        r => panic!("{r:?}"),
    }
}

fn simple_source() -> Source {
    Source::Matched(vec![node(
        Rule::Program,
        "",
        vec![
            node(Rule::UseStmt, "use std;", vec![name("std")]),
            node(
                Rule::ProgramElement,
                "",
                vec![node(
                    Rule::FnDef,
                    "",
                    vec![
                        node(
                            Rule::FnDecl,
                            "",
                            vec![
                                name("main"),
                                node(
                                    Rule::ParamDecl,
                                    "",
                                    vec![node(
                                        Rule::TypedVarDeclList,
                                        "",
                                        vec![node(
                                            Rule::TypedVarDecl,
                                            "",
                                            vec![name("n"), int_type()],
                                        )],
                                    )],
                                ),
                                int_type(),
                            ],
                        ),
                        node(
                            Rule::CodeBlockStmt,
                            "",
                            vec![node(Rule::ReturnStmt, "", vec![right(name("n"))])],
                        ),
                    ],
                )],
            ),
            node(
                Rule::ProgramElement,
                "",
                vec![node(
                    Rule::StructDef,
                    "",
                    vec![
                        name("P"),
                        node(
                            Rule::TypedVarDeclList,
                            "",
                            vec![node(Rule::TypedVarDecl, "", vec![name("x"), int_type()])],
                        ),
                    ],
                )],
            ),
            node(
                Rule::ProgramElement,
                "",
                vec![node(
                    Rule::VarDeclStmt,
                    "",
                    vec![node(Rule::VarDef, "", vec![name("g"), right(num("1"))])],
                )],
            ),
            node(Rule::ProgramElement, "", vec![leaf(Rule::Other, "")]),
            leaf(Rule::Eoi, ""),
        ],
    )])
}

#[test]
fn programs_are_read() {
    let source = simple_source();
    match &source {
        Source::Matched(nodes) => assert!(nodes.iter().all(|n| n.is_shaped())),
        Source::Rejected { .. } => panic!("rejected"),
    }
    let mut parser = Parser::new(&source);
    let mut out = String::new();
    match parser.output(&mut out) {
        Err(Error::Grammar { line: 0, column: 0, message }) => {
            assert_eq!(message, "output before generate");
        }
        r => panic!("{r:?}"),
    }
    assert!(parser.generate().is_ok());
    let p = parser.program.as_ref().unwrap();
    assert_eq!(p.use_stmts.len(), 1);
    assert_eq!(p.use_stmts[0].module_name, "std");
    assert_eq!(p.elements.len(), 3);
    match &p.elements[0].inner {
        ProgramElementInner::FnDef(f) => {
            assert_eq!(f.fn_decl.identifier, "main");
            assert_eq!(f.fn_decl.param_decl.as_ref().unwrap().decls.len(), 1);
            assert!(f.fn_decl.return_dtype.is_some());
            match &f.stmts[0].inner {
                CodeBlockStmtInner::Return(r) => {
                    assert!(matches!(
                        r.val.as_ref().unwrap().inner,
                        RightValInner::ArithExpr(_)
                    ));
                }
                _ => panic!("no return"),
            }
        }
        _ => panic!("no function"),
    }
    match &p.elements[2].inner {
        ProgramElementInner::VarDeclStmt(s) => match &s.inner {
            VarDeclStmtInner::Def(d) => assert_eq!(d.identifier, "g"),
            _ => panic!("no definition"),
        },
        _ => panic!("no global"),
    }
    assert!(parser.output(&mut out).is_ok());
    assert!(out.starts_with("Program\n") || out.contains("Program"), "{out}");
}

#[test]
fn rejected_sources_are_reported() {
    let source =
        Source::Rejected { line: 3, column: 9, message: "expected a statement".to_string() };
    let mut parser = Parser::new(&source);
    match parser.generate() {
        Err(Error::Syntax { line: 3, column: 9, message }) => {
            assert_eq!(message, "expected a statement");
        }
        r => panic!("{r:?}"),
    }
    assert!(parser.program.is_none());
}

#[test]
fn trees_outside_the_grammar_are_recognized() {
    let bare = node(Rule::TypeSpec, "", vec![node(Rule::RefType, "", vec![])]);
    assert!(!bare.is_shaped());
    assert!(!node(Rule::VarDef, "", vec![]).is_shaped());
    let least = node(Rule::ExprUnit, "", vec![leaf(Rule::OpSub, "-"), num("-2147483648")]);
    assert!(!least.is_shaped());
    assert!(int_type().is_shaped());
}
