use teac::ast::decl::{
    ArrayInitializer, FnDecl, FnDeclStmt, FnDef, ParamDecl, StructDef, VarDecl, VarDeclArray,
    VarDeclInner, VarDeclStmt, VarDeclStmtInner, VarDef, VarDefArray, VarDefInner, VarDefScalar,
};
use teac::ast::expr::{
    ArithBiOpExpr, ArithExpr, ArithExprInner, ArrayExpr, BoolBiOpExpr, BoolExpr, BoolExprInner,
    BoolUnit, BoolUnitInner, ComExpr, ExprUnit, ExprUnitInner, FnCall, IndexExpr, IndexExprInner,
    LeftVal, LeftValInner, MemberExpr, RightVal, RightValInner,
};
use teac::ast::ops::{ArithBiOp, BoolBiOp, ComOp};
use teac::ast::program::{Program, ProgramElement, ProgramElementInner, UseStmt};
use teac::ast::stmt::{
    AssignmentStmt, BreakStmt, CallStmt, CodeBlockStmt, CodeBlockStmtInner, IfStmt, ReturnStmt,
    WhileStmt,
};
use teac::ast::types::{BuiltIn, TypeSpecifier, TypeSpecifierInner};
use teac::common::generator::Generator;
use teac::experimental::return_infer::ReturnInferPass;
use teac::ir::error::Error;
use teac::ir::gen::limits::indices_fit;
use teac::ir::module::{Header, IrGenerator};
use teac::ir::types::Dtype;
use teac::opt::optimizer::{can_optimize, Optimizer};

fn integer() -> Option<TypeSpecifier> {
    Some(TypeSpecifier { pos: 0, inner: TypeSpecifierInner::BuiltIn(BuiltIn::Int) })
}

fn named(name: &str) -> Option<TypeSpecifier> {
    Some(TypeSpecifier { pos: 0, inner: TypeSpecifierInner::Composite(name.to_string()) })
}

fn unit(inner: ExprUnitInner) -> Box<ExprUnit> {
    Box::new(ExprUnit { pos: 0, inner })
}

fn num(n: i32) -> Box<ExprUnit> {
    unit(ExprUnitInner::Num(n))
}

fn id(name: &str) -> Box<ExprUnit> {
    unit(ExprUnitInner::Id(name.to_string()))
}

fn single(u: Box<ExprUnit>) -> Box<ArithExpr> {
    Box::new(ArithExpr { pos: 0, inner: ArithExprInner::ExprUnit(u) })
}

fn op(op: ArithBiOp, left: Box<ArithExpr>, right: Box<ArithExpr>) -> Box<ArithExpr> {
    Box::new(ArithExpr {
        pos: 0,
        inner: ArithExprInner::ArithBiOpExpr(Box::new(ArithBiOpExpr { op, left, right })),
    })
}

fn value(e: Box<ArithExpr>) -> Box<RightVal> {
    Box::new(RightVal { inner: RightValInner::ArithExpr(e) })
}

fn call(module: Option<&str>, name: &str, vals: Vec<RightVal>) -> Box<FnCall> {
    Box::new(FnCall { module_prefix: module.map(|m| m.to_string()), name: name.to_string(), vals })
}

fn compare(op: ComOp, left: Box<ExprUnit>, right: Box<ExprUnit>) -> Box<BoolUnit> {
    Box::new(BoolUnit {
        pos: 0,
        inner: BoolUnitInner::ComExpr(Box::new(ComExpr { op, left, right })),
    })
}

fn stmt(inner: CodeBlockStmtInner) -> CodeBlockStmt {
    CodeBlockStmt { inner }
}

fn ret(e: Box<ArithExpr>) -> CodeBlockStmt {
    stmt(CodeBlockStmtInner::Return(Box::new(ReturnStmt { val: Some(value(e)) })))
}

fn scalar_def(name: &str, ty: Option<TypeSpecifier>, e: Box<ArithExpr>) -> VarDeclStmt {
    VarDeclStmt {
        inner: VarDeclStmtInner::Def(Box::new(VarDef {
            identifier: name.to_string(),
            type_specifier: ty,
            inner: VarDefInner::Scalar(Box::new(VarDefScalar { val: value(e) })),
        })),
    }
}

fn local(name: &str, e: Box<ArithExpr>) -> CodeBlockStmt {
    stmt(CodeBlockStmtInner::VarDecl(Box::new(scalar_def(name, integer(), e))))
}

fn set(name: &str, e: Box<ArithExpr>) -> CodeBlockStmt {
    stmt(CodeBlockStmtInner::Assignment(Box::new(AssignmentStmt {
        left_val: Box::new(LeftVal { pos: 0, inner: LeftValInner::Id(name.to_string()) }),
        right_val: value(e),
    })))
}

fn scalar(name: &str, ty: Option<TypeSpecifier>) -> VarDecl {
    VarDecl { identifier: name.to_string(), type_specifier: ty, inner: VarDeclInner::Scalar }
}

fn signature(name: &str, params: Vec<VarDecl>, ret: Option<TypeSpecifier>) -> Box<FnDecl> {
    Box::new(FnDecl {
        identifier: name.to_string(),
        param_decl: if params.is_empty() {
            None
        } else {
            Some(Box::new(ParamDecl { decls: params }))
        },
        return_dtype: ret,
    })
}

fn function(
    name: &str,
    params: Vec<VarDecl>,
    ret: Option<TypeSpecifier>,
    stmts: Vec<CodeBlockStmt>,
) -> ProgramElement {
    ProgramElement {
        inner: ProgramElementInner::FnDef(Box::new(FnDef {
            fn_decl: signature(name, params, ret),
            stmts,
        })),
    }
}

fn declaration(name: &str, params: Vec<VarDecl>, ret: Option<TypeSpecifier>) -> ProgramElement {
    ProgramElement {
        inner: ProgramElementInner::FnDeclStmt(Box::new(FnDeclStmt {
            fn_decl: signature(name, params, ret),
        })),
    }
}

fn global(stmt: VarDeclStmt) -> ProgramElement {
    ProgramElement { inner: ProgramElementInner::VarDeclStmt(Box::new(stmt)) }
}

fn structure(name: &str, decls: Vec<VarDecl>) -> ProgramElement {
    ProgramElement {
        inner: ProgramElementInner::StructDef(Box::new(StructDef {
            identifier: name.to_string(),
            decls,
        })),
    }
}

fn program(elements: Vec<ProgramElement>) -> Program {
    Program { use_stmts: Vec::new(), elements }
}

fn fails(p: &Program, headers: &Vec<Header>) -> Error {
    let mut g = IrGenerator::with_default_passes(p, headers, false);
    match g.generate() {
        Ok(_) => panic!("the program is translated"),
        Err(e) => e,
    }
}

fn printed(p: &Program) -> String {
    let headers = Vec::new();
    let mut g = IrGenerator::with_default_passes(p, &headers, false);
    assert!(g.generate().is_ok());
    let mut out = String::new();
    assert!(g.output(&mut out).is_ok());
    out
}

const HEADER: &str = "target triple = \"aarch64-unknown-linux-gnu\"\n\
    target datalayout = \"e-m:e-i8:8:32-i16:16:32-i64:64-i128:128-n32:64-S128\"\n\n";

fn add_function() -> ProgramElement {
    function(
        "add",
        vec![scalar("a", integer()), scalar("b", integer())],
        integer(),
        vec![ret(op(ArithBiOp::Add, single(id("a")), single(id("b"))))],
    )
}

#[test]
fn empty_program_prints_the_header() {
    assert_eq!(printed(&program(vec![])), format!("{HEADER}\n\n"));
}

#[test]
fn expression_is_translated() {
    let p = program(vec![function(
        "main",
        vec![],
        integer(),
        vec![ret(op(ArithBiOp::Add, single(num(1)), single(num(2))))],
    )]);
    assert_eq!(
        printed(&p),
        format!(
            "{HEADER}\n\ndefine dso_local i32 @main() {{\nmain:\n\t%r0 = add i32 1, 2\n\
             \tret i32 %r0\n}}\n\n"
        )
    );
}

#[test]
fn parameters_get_slots() {
    let p = program(vec![add_function()]);
    assert_eq!(
        printed(&p),
        format!(
            "{HEADER}\n\ndefine dso_local i32 @add(i32 %r0, i32 %r2) {{\nadd:\n\
             \t%r1 = alloca i32, align 4\n\
             \tstore i32 %r0, ptr %r1, align 4\n\
             \t%r3 = alloca i32, align 4\n\
             \tstore i32 %r2, ptr %r3, align 4\n\
             \t%r4 = load i32, ptr %r1, align 4\n\
             \t%r5 = load i32, ptr %r3, align 4\n\
             \t%r6 = add i32 %r4, %r5\n\
             \tret i32 %r6\n}}\n\n"
        )
    );
}

#[test]
fn slots_are_promoted_by_default() {
    let p = program(vec![add_function()]);
    let headers = Vec::new();
    let mut g = IrGenerator::with_default_passes(&p, &headers, false);
    assert!(g.generate().is_ok());
    let mut out = String::new();
    {
        assert!(can_optimize(&g.module));
        let mut o = Optimizer::with_default_passes(&mut g.module, &g.registry);
        assert!(o.generate().is_ok());
        assert!(o.output(&mut out).is_ok());
    }
    assert_eq!(
        out,
        format!(
            "{HEADER}\n\ndefine dso_local i32 @add(i32 %r0, i32 %r2) {{\nadd:\n\
             \t%r6 = add i32 %r0, %r2\n\
             \tret i32 %r6\n}}\n\n"
        )
    );
}

#[test]
fn loops_get_phis() {
    // let i: i32 = 0; while i < 10 { i = i + 1; } return i;
    let p = program(vec![function(
        "main",
        vec![],
        integer(),
        vec![
            local("i", single(num(0))),
            stmt(CodeBlockStmtInner::While(Box::new(WhileStmt {
                bool_unit: compare(ComOp::Lt, id("i"), num(10)),
                stmts: vec![set("i", op(ArithBiOp::Add, single(id("i")), single(num(1))))],
            }))),
            ret(single(id("i"))),
        ],
    )]);
    let headers = Vec::new();
    let mut g = IrGenerator::with_default_passes(&p, &headers, false);
    assert!(g.generate().is_ok());
    let mut out = String::new();
    {
        let mut o = Optimizer::with_default_passes(&mut g.module, &g.registry);
        assert!(o.generate().is_ok());
        assert!(o.output(&mut out).is_ok());
    }
    assert_eq!(
        out,
        format!(
            "{HEADER}\n\ndefine dso_local i32 @main() {{\nmain:\n\
             \tbr label %bb1\n\
             bb1:\n\
             \t%r6 = phi i32 [ 0, %main ], [ %r4, %bb2 ]\n\
             \t%r2 = icmp slt i32 %r6, 10\n\
             \tbr i1 %r2, label %bb2, label %bb3\n\
             bb2:\n\
             \t%r4 = add i32 %r6, 1\n\
             \tbr label %bb1\n\
             bb3:\n\
             \tret i32 %r6\n}}\n\n"
        )
    );
}

#[test]
fn branches_hoist_their_slots() {
    // if 1 < 2 { let x: i32 = 5; }
    let p = program(vec![function(
        "main",
        vec![],
        None,
        vec![stmt(CodeBlockStmtInner::If(Box::new(IfStmt {
            bool_unit: compare(ComOp::Lt, num(1), num(2)),
            if_stmts: vec![local("x", single(num(5)))],
            else_stmts: None,
        })))],
    )]);
    assert_eq!(
        printed(&p),
        format!(
            "{HEADER}\n\ndefine dso_local void @main() {{\nmain:\n\
             \t%r1 = alloca i32, align 4\n\
             \t%r0 = icmp slt i32 1, 2\n\
             \tbr i1 %r0, label %bb1, label %bb2\n\
             bb1:\n\
             \tstore i32 5, ptr %r1, align 4\n\
             \tbr label %bb3\n\
             bb2:\n\
             \tbr label %bb3\n\
             bb3:\n\
             \tret void\n}}\n\n"
        )
    );
}

#[test]
fn conjunction_short_circuits() {
    // if 1 < 2 && 3 < 4 { return 1; } return 0;
    let both = BoolExpr {
        pos: 0,
        inner: BoolExprInner::BoolBiOpExpr(Box::new(BoolBiOpExpr {
            op: BoolBiOp::And,
            left: Box::new(BoolExpr {
                pos: 0,
                inner: BoolExprInner::BoolUnit(compare(ComOp::Lt, num(1), num(2))),
            }),
            right: Box::new(BoolExpr {
                pos: 0,
                inner: BoolExprInner::BoolUnit(compare(ComOp::Lt, num(3), num(4))),
            }),
        })),
    };
    let p = program(vec![function(
        "main",
        vec![],
        integer(),
        vec![
            stmt(CodeBlockStmtInner::If(Box::new(IfStmt {
                bool_unit: Box::new(BoolUnit {
                    pos: 0,
                    inner: BoolUnitInner::BoolExpr(Box::new(both)),
                }),
                if_stmts: vec![ret(single(num(1)))],
                else_stmts: None,
            }))),
            ret(single(num(0))),
        ],
    )]);
    assert_eq!(
        printed(&p),
        format!(
            "{HEADER}\n\ndefine dso_local i32 @main() {{\nmain:\n\
             \t%r0 = icmp slt i32 1, 2\n\
             \tbr i1 %r0, label %bb4, label %bb2\n\
             bb4:\n\
             \t%r1 = icmp slt i32 3, 4\n\
             \tbr i1 %r1, label %bb1, label %bb2\n\
             bb1:\n\
             \tret i32 1\n\
             bb2:\n\
             \tbr label %bb3\n\
             bb3:\n\
             \tret i32 0\n}}\n\n"
        )
    );
}

#[test]
fn globals_are_evaluated() {
    let p = program(vec![
        global(scalar_def("g", integer(), op(ArithBiOp::Mul, single(num(3)), single(num(4))))),
        global(VarDeclStmt {
            inner: VarDeclStmtInner::Def(Box::new(VarDef {
                identifier: "a".to_string(),
                type_specifier: integer(),
                inner: VarDefInner::Array(Box::new(VarDefArray {
                    len: 3,
                    initializer: ArrayInitializer::Fill { val: value(single(num(7))), count: 3 },
                })),
            })),
        }),
        global(VarDeclStmt {
            inner: VarDeclStmtInner::Def(Box::new(VarDef {
                identifier: "b".to_string(),
                type_specifier: integer(),
                inner: VarDefInner::Array(Box::new(VarDefArray {
                    len: 2,
                    initializer: ArrayInitializer::ExplicitList(vec![
                        *value(single(num(1))),
                        *value(single(num(-2))),
                    ]),
                })),
            })),
        }),
        global(VarDeclStmt { inner: VarDeclStmtInner::Decl(Box::new(scalar("z", integer()))) }),
    ]);
    assert_eq!(
        printed(&p),
        format!(
            "{HEADER}\n\
             @g = dso_local global i32 12, align 4\n\
             @a = dso_local global [3 x i32] [i32 7, i32 7, i32 7], align 4\n\
             @b = dso_local global [2 x i32] [i32 1, i32 -2], align 4\n\
             @z = dso_local global i32 0, align 4\n\n"
        )
    );
}

#[test]
fn structs_are_printed_in_order() {
    let p = program(vec![
        structure("P", vec![scalar("x", integer()), scalar("y", integer())]),
        structure(
            "Q",
            vec![
                scalar("p", named("P")),
                VarDecl {
                    identifier: "t".to_string(),
                    type_specifier: integer(),
                    inner: VarDeclInner::Array(Box::new(VarDeclArray { len: 4 })),
                },
            ],
        ),
    ]);
    assert_eq!(
        printed(&p),
        format!("{HEADER}%P = type {{ i32, i32 }}\n%Q = type {{ %P, [4 x i32] }}\n\n\n")
    );
}

#[test]
fn imports_declare_qualified_functions() {
    let p = Program {
        use_stmts: vec![UseStmt { module_name: "std".to_string() }],
        elements: vec![function(
            "main",
            vec![],
            integer(),
            vec![
                stmt(CodeBlockStmtInner::Call(Box::new(CallStmt {
                    fn_call: call(Some("std"), "putint", vec![*value(single(num(8)))]),
                }))),
                ret(single(unit(ExprUnitInner::FnCall(call(Some("std"), "getint", vec![]))))),
            ],
        )],
    };
    let headers = vec![Header::Parsed(program(vec![
        declaration("getint", vec![], integer()),
        declaration("putint", vec![scalar("n", integer())], None),
        global(scalar_def("ignored", integer(), single(num(1)))),
    ]))];
    let mut g = IrGenerator::with_default_passes(&p, &headers, false);
    assert!(g.generate().is_ok());
    let mut out = String::new();
    assert!(g.output(&mut out).is_ok());
    assert_eq!(
        out,
        format!(
            "{HEADER}\n\n\
             declare dso_local i32 @getint()\n\n\
             declare dso_local void @putint(i32)\n\n\
             define dso_local i32 @main() {{\nmain:\n\
             \tcall void @putint(i32 8)\n\
             \t%r0 = call i32 @getint()\n\
             \tret i32 %r0\n}}\n\n"
        )
    );
    assert_eq!(g.registry.link_names.get("std::getint").unwrap(), "getint");
    assert_eq!(g.registry.link_names.get("main").unwrap(), "main");
    assert!(!g.module.global_list.contains_key("ignored"));
}

#[test]
fn import_failures_are_reported() {
    let p = Program {
        use_stmts: vec![UseStmt { module_name: "std".to_string() }],
        elements: vec![],
    };
    let missing = vec![Header::Missing { path: "./std.teah".to_string() }];
    match fails(&p, &missing) {
        Error::ModuleNotFound { module_name, path } => {
            assert_eq!(module_name, "std");
            assert_eq!(path, "./std.teah");
        }
        e => panic!("{e:?}"),
    }
    let malformed = vec![Header::Malformed { message: "oops".to_string() }];
    match fails(&p, &malformed) {
        Error::ModuleParseFailed { module_name, message } => {
            assert_eq!(module_name, "std");
            assert_eq!(message, "oops");
        }
        e => panic!("{e:?}"),
    }
    let unreadable = vec![Header::Unreadable { cause: "permission denied".to_string() }];
    match fails(&p, &unreadable) {
        Error::Io { cause } => assert_eq!(cause, "permission denied"),
        e => panic!("{e:?}"),
    }
}

#[test]
fn declaration_failures_are_reported() {
    let none = Vec::new();
    let twice = program(vec![
        global(scalar_def("g", integer(), single(num(1)))),
        global(scalar_def("g", integer(), single(num(2)))),
    ]);
    assert!(matches!(fails(&twice, &none), Error::VariableRedefinition { symbol } if symbol == "g"));

    let conflict = program(vec![
        declaration("f", vec![], integer()),
        declaration("f", vec![], None),
    ]);
    assert!(
        matches!(fails(&conflict, &none), Error::ConflictedFunction { symbol } if symbol == "f")
    );

    let mismatch = program(vec![
        declaration("f", vec![], integer()),
        function("f", vec![], None, vec![]),
    ]);
    assert!(matches!(fails(&mismatch, &none), Error::DeclDefMismatch { symbol } if symbol == "f"));

    let unknown = program(vec![structure("S", vec![scalar("t", named("T"))])]);
    match fails(&unknown, &none) {
        Error::UndefinedStructMemberType { struct_name, member_type } => {
            assert_eq!(struct_name, "S");
            assert_eq!(member_type, "T");
        }
        e => panic!("{e:?}"),
    }

    let array = program(vec![declaration(
        "f",
        vec![VarDecl {
            identifier: "a".to_string(),
            type_specifier: integer(),
            inner: VarDeclInner::Array(Box::new(VarDeclArray { len: 2 })),
        }],
        None,
    )]);
    assert!(
        matches!(fails(&array, &none), Error::ArrayParameterNotAllowed { symbol } if symbol == "a")
    );

    let returns = program(vec![declaration("f", vec![], named("S"))]);
    assert!(
        matches!(fails(&returns, &none), Error::UnsupportedReturnType { symbol } if symbol == "f")
    );

    let initialized = program(vec![global(scalar_def("s", named("S"), single(num(1))))]);
    assert!(matches!(fails(&initialized, &none), Error::StructInitialization));

    let zero = program(vec![global(scalar_def(
        "z",
        integer(),
        op(ArithBiOp::Div, single(num(1)), single(num(0))),
    ))]);
    assert!(matches!(fails(&zero, &none), Error::DivisionByZero));

    let large = program(vec![global(scalar_def(
        "z",
        integer(),
        op(ArithBiOp::Add, single(num(i32::MAX)), single(num(1))),
    ))]);
    assert!(matches!(fails(&large, &none), Error::IntegerOverflow));

    let variable = program(vec![global(scalar_def("z", integer(), single(id("y"))))]);
    match fails(&variable, &none) {
        Error::InvalidExprUnit { expr_unit } => {
            assert!(matches!(expr_unit.inner, ExprUnitInner::Id(name) if name == "y"));
        }
        e => panic!("{e:?}"),
    }
}

#[test]
fn errors_hold_the_expression() {
    let none = Vec::new();
    let nothing = program(vec![
        declaration("f", vec![scalar("a", integer())], None),
        function(
            "main",
            vec![],
            integer(),
            vec![ret(single(unit(ExprUnitInner::FnCall(call(
                None,
                "f",
                vec![*value(op(ArithBiOp::Add, single(num(1)), single(num(2))))],
            )))))],
        ),
    ]);
    let e = fails(&nothing, &none);
    assert_eq!(e.to_text(), "Invalid expression unit: f((1 add 2))");
    match e {
        Error::InvalidExprUnit { expr_unit } => match &expr_unit.inner {
            ExprUnitInner::FnCall(c) => {
                assert_eq!(c.name, "f");
                assert_eq!(c.vals.len(), 1);
            }
            u => panic!("{u:?}"),
        },
        e => panic!("{e:?}"),
    }
    let member = ExprUnitInner::MemberExpr(Box::new(MemberExpr {
        struct_id: Box::new(LeftVal { pos: 0, inner: LeftValInner::Id("x".to_string()) }),
        member_id: "m".to_string(),
    }));
    let scalar_member = program(vec![function(
        "main",
        vec![],
        integer(),
        vec![local("x", single(num(1))), ret(single(unit(member)))],
    )]);
    let e = fails(&scalar_member, &none);
    assert_eq!(e.to_text(), "Invalid struct member expression x.m");
    assert!(matches!(e, Error::InvalidStructMemberExpression { expr } if expr.member_id == "m"));
}

#[test]
fn a_conflict_leaves_the_later_type() {
    let headers: Vec<Header> = Vec::new();
    let p = program(vec![
        declaration("f", vec![], integer()),
        declaration("f", vec![], None),
        declaration("g", vec![], None),
    ]);
    let mut g = IrGenerator::with_default_passes(&p, &headers, false);
    assert!(g.generate().is_err());
    assert!(matches!(g.registry.function_types.get("f").unwrap().return_dtype, Dtype::Void));
    assert!(g.registry.link_names.get("f").is_some());
    assert!(g.registry.function_types.get("g").is_none());
    assert!(!g.module.function_list.contains_key("g"));
}

#[test]
fn bodies_before_a_failing_one_stay() {
    let headers: Vec<Header> = Vec::new();
    let p = program(vec![
        function("a", vec![], integer(), vec![ret(single(num(1)))]),
        function("b", vec![], integer(), vec![ret(single(id("x")))]),
    ]);
    let mut g = IrGenerator::with_default_passes(&p, &headers, false);
    assert!(g.generate().is_err());
    assert!(g.module.function_list.get("a").unwrap().body.is_some());
    assert!(g.module.function_list.get("b").unwrap().body.is_none());
}

#[test]
fn qualified_functions_carry_their_symbol() {
    let headers: Vec<Header> = Vec::new();
    let p = program(vec![
        function("Counter::get", vec![], integer(), vec![ret(single(num(7)))]),
        function(
            "main",
            vec![],
            integer(),
            vec![ret(single(unit(ExprUnitInner::FnCall(call(Some("Counter"), "get", vec![])))))],
        ),
    ]);
    let mut g = IrGenerator::with_default_passes(&p, &headers, false);
    assert!(g.generate().is_ok());
    let mut out = String::new();
    assert!(g.output(&mut out).is_ok());
    assert_eq!(
        out,
        format!(
            "{HEADER}\n\n\
             define dso_local i32 @_TN7Counter3getE() {{\nCounter::get:\n\tret i32 7\n}}\n\n\
             define dso_local i32 @main() {{\nmain:\n\
             \t%r0 = call i32 @_TN7Counter3getE()\n\tret i32 %r0\n}}\n\n"
        )
    );
}

#[test]
fn body_failures_are_reported() {
    let none = Vec::new();
    let unknown = program(vec![function("main", vec![], integer(), vec![ret(single(id("x")))])]);
    assert!(
        matches!(fails(&unknown, &none), Error::VariableNotDefined { symbol } if symbol == "x")
    );

    let callee = program(vec![function(
        "main",
        vec![],
        None,
        vec![stmt(CodeBlockStmtInner::Call(Box::new(CallStmt {
            fn_call: call(None, "f", vec![]),
        })))],
    )]);
    assert!(
        matches!(fails(&callee, &none), Error::FunctionNotDefined { symbol } if symbol == "f")
    );

    let stray = program(vec![function(
        "main",
        vec![],
        None,
        vec![stmt(CodeBlockStmtInner::Break(Box::new(BreakStmt {})))],
    )]);
    assert!(matches!(fails(&stray, &none), Error::InvalidBreakInst));

    let twice = program(vec![function(
        "main",
        vec![],
        None,
        vec![local("x", single(num(1))), local("x", single(num(2)))],
    )]);
    assert!(
        matches!(fails(&twice, &none), Error::VariableRedefinition { symbol } if symbol == "x")
    );
}

#[test]
fn array_elements_are_addressed() {
    // fn main() -> i32 { let a[2]: i32 = [5, 6]; return a[1]; }
    let p = program(vec![function(
        "main",
        vec![],
        integer(),
        vec![
            stmt(CodeBlockStmtInner::VarDecl(Box::new(VarDeclStmt {
                inner: VarDeclStmtInner::Def(Box::new(VarDef {
                    identifier: "a".to_string(),
                    type_specifier: integer(),
                    inner: VarDefInner::Array(Box::new(VarDefArray {
                        len: 2,
                        initializer: ArrayInitializer::ExplicitList(vec![
                            *value(single(num(5))),
                            *value(single(num(6))),
                        ]),
                    })),
                })),
            }))),
            ret(single(unit(ExprUnitInner::ArrayExpr(Box::new(ArrayExpr {
                arr: Box::new(LeftVal { pos: 0, inner: LeftValInner::Id("a".to_string()) }),
                idx: Box::new(IndexExpr { inner: IndexExprInner::Num(1) }),
            }))))),
        ],
    )]);
    assert_eq!(
        printed(&p),
        format!(
            "{HEADER}\n\ndefine dso_local i32 @main() {{\nmain:\n\
             \t%r0 = alloca [2 x i32], align 4\n\
             \t%r1 = getelementptr [2 x i32], ptr %r0, i32 0, i32 0\n\
             \tstore i32 5, ptr %r1, align 4\n\
             \t%r2 = getelementptr [2 x i32], ptr %r0, i32 0, i32 1\n\
             \tstore i32 6, ptr %r2, align 4\n\
             \t%r3 = getelementptr [2 x i32], ptr %r0, i32 0, i32 1\n\
             \t%r4 = load i32, ptr %r3, align 4\n\
             \tret i32 %r4\n}}\n\n"
        )
    );
}

#[test]
fn omitted_return_types_are_inferred_on_request() {
    // fn f() { return g(); }  fn g() { return 1; }  fn h() { }
    let p = program(vec![
        function(
            "f",
            vec![],
            None,
            vec![ret(single(unit(ExprUnitInner::FnCall(call(None, "g", vec![])))))],
        ),
        function("g", vec![], None, vec![ret(single(num(1)))]),
        function("h", vec![], None, vec![]),
    ]);
    let headers = Vec::new();
    let mut g = IrGenerator::with_default_passes(&p, &headers, true);
    assert!(g.generate().is_ok());
    assert!(matches!(g.registry.function_types.get("f").unwrap().return_dtype, Dtype::I32));
    assert!(matches!(g.registry.function_types.get("g").unwrap().return_dtype, Dtype::I32));
    assert!(matches!(g.registry.function_types.get("h").unwrap().return_dtype, Dtype::Void));

    let off = program(vec![function("g", vec![], None, vec![ret(single(num(1)))])]);
    let mut baseline: IrGenerator<ReturnInferPass> = IrGenerator::new(&off, &headers);
    assert!(baseline.generate().is_ok());
    assert!(matches!(baseline.registry.function_types.get("g").unwrap().return_dtype, Dtype::Void));
}

#[test]
fn contradicting_returns_are_rejected() {
    // fn f() { if 1 < 2 { return 1; } return; }
    let p = program(vec![function(
        "f",
        vec![],
        None,
        vec![
            stmt(CodeBlockStmtInner::If(Box::new(IfStmt {
                bool_unit: compare(ComOp::Lt, num(1), num(2)),
                if_stmts: vec![ret(single(num(1)))],
                else_stmts: None,
            }))),
            stmt(CodeBlockStmtInner::Return(Box::new(ReturnStmt { val: None }))),
        ],
    )]);
    let headers = Vec::new();
    let mut g = IrGenerator::with_default_passes(&p, &headers, true);
    match g.generate() {
        Err(Error::TypeMismatch { symbol, .. }) => assert_eq!(symbol, "f"),
        r => panic!("{r:?}"),
    }
}

fn called(name: &str, vals: Vec<RightVal>) -> Box<ArithExpr> {
    single(unit(ExprUnitInner::FnCall(call(None, name, vals))))
}

fn untyped(name: &str, e: Box<ArithExpr>) -> CodeBlockStmt {
    stmt(CodeBlockStmtInner::VarDecl(Box::new(scalar_def(name, None, e))))
}

#[test]
fn type_infer_5() {
    // fn gcd(a: int, b: int) -> int { return a; }
    // fn modular_inverse(a: int, m: int) {
    //     let g = gcd(a, m); if g != 1 { return; } let t = a * m; return t;
    // }
    let two = || vec![scalar("a", integer()), scalar("m", integer())];
    let p = program(vec![
        function("gcd", two(), integer(), vec![ret(single(id("a")))]),
        function(
            "modular_inverse",
            two(),
            None,
            vec![
                untyped("g", called("gcd", vec![*value(single(id("a"))), *value(single(id("m")))])),
                stmt(CodeBlockStmtInner::If(Box::new(IfStmt {
                    bool_unit: compare(ComOp::Ne, id("g"), num(1)),
                    if_stmts: vec![stmt(CodeBlockStmtInner::Return(Box::new(ReturnStmt {
                        val: None,
                    })))],
                    else_stmts: None,
                }))),
                untyped("t", op(ArithBiOp::Mul, single(id("a")), single(id("m")))),
                ret(single(id("t"))),
            ],
        ),
    ]);
    let headers = Vec::new();
    let mut g = IrGenerator::with_default_passes(&p, &headers, true);
    match g.generate() {
        Err(Error::TypeMismatch { symbol, expected, actual }) => {
            assert_eq!(symbol, "modular_inverse");
            assert!(matches!(expected, Dtype::Void));
            assert!(matches!(actual, Dtype::I32));
        }
        r => panic!("{r:?}"),
    }
}

#[test]
fn recursive_functions_get_return_types() {
    // fn pow(base: int, exp: int) {
    //     if exp == 0 { return 1; } let half = pow(base, exp / 2); return square(half);
    // }
    // fn square(x: int) { return x * x; }
    let p = program(vec![
        function(
            "pow",
            vec![scalar("base", integer()), scalar("exp", integer())],
            None,
            vec![
                stmt(CodeBlockStmtInner::If(Box::new(IfStmt {
                    bool_unit: compare(ComOp::Eq, id("exp"), num(0)),
                    if_stmts: vec![ret(single(num(1)))],
                    else_stmts: None,
                }))),
                untyped(
                    "half",
                    called(
                        "pow",
                        vec![
                            *value(single(id("base"))),
                            *value(op(ArithBiOp::Div, single(id("exp")), single(num(2)))),
                        ],
                    ),
                ),
                ret(called("square", vec![*value(single(id("half")))])),
            ],
        ),
        function(
            "square",
            vec![scalar("x", integer())],
            None,
            vec![ret(op(ArithBiOp::Mul, single(id("x")), single(id("x"))))],
        ),
    ]);
    let headers = Vec::new();
    let mut g = IrGenerator::with_default_passes(&p, &headers, true);
    assert!(g.generate().is_ok());
    for name in ["pow", "square"] {
        assert!(matches!(g.registry.function_types.get(name).unwrap().return_dtype, Dtype::I32));
    }
    assert_eq!(g.registry.function_types.get("pow").unwrap().arguments.len(), 2);
}

#[test]
fn indices_beyond_the_limit_are_found() {
    let read = |n: usize| {
        program(vec![function(
            "f",
            vec![],
            integer(),
            vec![ret(single(unit(ExprUnitInner::ArrayExpr(Box::new(ArrayExpr {
                arr: Box::new(LeftVal { pos: 0, inner: LeftValInner::Id("a".to_string()) }),
                idx: Box::new(IndexExpr { inner: IndexExprInner::Num(n) }),
            })))))],
        )])
    };
    assert!(indices_fit(&read(0)));
    assert!(indices_fit(&read(2147483647)));
    assert!(!indices_fit(&read(2147483648)));
}

#[test]
fn values_are_defined_once() {
    // fn f(n: int) -> int { let s: int = 0; while s < n { s = s + n; } return s; }
    let p = program(vec![function(
        "f",
        vec![scalar("n", integer())],
        integer(),
        vec![
            local("s", single(num(0))),
            stmt(CodeBlockStmtInner::While(Box::new(WhileStmt {
                bool_unit: compare(ComOp::Lt, id("s"), id("n")),
                stmts: vec![set("s", op(ArithBiOp::Add, single(id("s")), single(id("n"))))],
            }))),
            ret(single(id("s"))),
        ],
    )]);
    let text = printed(&p);
    let mut defined: Vec<&str> =
        text.lines().filter_map(|l| l.trim().split_once(" = ")).map(|(d, _)| d).collect();
    defined.retain(|d| d.starts_with("%r"));
    let count = defined.len();
    assert!(count > 5);
    defined.sort();
    defined.dedup();
    assert_eq!(defined.len(), count);
}

#[test]
fn given_return_types_are_kept() {
    let p = program(vec![add_function(), function("h", vec![], None, vec![])]);
    let headers = Vec::new();
    let mut g = IrGenerator::with_default_passes(&p, &headers, true);
    assert!(g.generate().is_ok());
    assert!(matches!(g.registry.function_types.get("add").unwrap().return_dtype, Dtype::I32));
    assert_eq!(g.registry.function_types.get("add").unwrap().arguments.len(), 2);
    assert!(matches!(g.registry.function_types.get("h").unwrap().return_dtype, Dtype::Void));
}
