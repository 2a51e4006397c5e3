use teac::ast::decl::{FnDecl, FnDef};
use teac::ast::expr::{
    ArithBiOpExpr, ArithExpr, ArithExprInner, ArrayExpr, BoolBiOpExpr, BoolExpr, BoolExprInner,
    BoolUOpExpr, BoolUnit, BoolUnitInner, ComExpr, ExprUnit, ExprUnitInner, FnCall, IndexExpr,
    IndexExprInner, LeftVal, LeftValInner, MemberExpr, RightVal, RightValInner,
};
use teac::ast::ops::{ArithBiOp, BoolBiOp, BoolUOp, ComOp};
use teac::ast::program::{Program, ProgramElement, ProgramElementInner};
use teac::ast::stmt::{
    CallStmt, CodeBlockStmt, CodeBlockStmtInner, IfStmt, NullStmt, ReturnStmt, WhileStmt,
};
use teac::common::names::NameMap;
use teac::experimental::return_infer::ReturnInferPass;
use teac::ir::gen::function_gen::FunctionGenerator;
use teac::ir::gen::trace::calls::collect_call_sites;
use teac::ir::gen::trace::plan::{plan, register_runtime};
use teac::ir::gen::trace::texts::{bool_unit, left_val, right_val};
use teac::ir::module::{Header, IrGenerator, Registry};
use teac::ir::stmt::StmtInner;
use teac::ir::types::Dtype;
use teac::ir::value::Operand;

fn unit(inner: ExprUnitInner) -> Box<ExprUnit> {
    Box::new(ExprUnit { pos: 0, inner })
}

fn num(n: i32) -> Box<ExprUnit> {
    unit(ExprUnitInner::Num(n))
}

fn id(name: &str) -> Box<ExprUnit> {
    unit(ExprUnitInner::Id(name.to_string()))
}

fn single(u: Box<ExprUnit>) -> Box<ArithExpr> {
    Box::new(ArithExpr { pos: 0, inner: ArithExprInner::ExprUnit(u) })
}

fn arith(op: ArithBiOp, left: Box<ArithExpr>, right: Box<ArithExpr>) -> Box<ArithExpr> {
    Box::new(ArithExpr {
        pos: 0,
        inner: ArithExprInner::ArithBiOpExpr(Box::new(ArithBiOpExpr { op, left, right })),
    })
}

fn value(e: Box<ArithExpr>) -> RightVal {
    RightVal { inner: RightValInner::ArithExpr(e) }
}

fn call(name: &str, vals: Vec<RightVal>) -> Box<FnCall> {
    Box::new(FnCall { module_prefix: None, name: name.to_string(), vals })
}

fn compare(op: ComOp, left: Box<ExprUnit>, right: Box<ExprUnit>) -> Box<BoolUnit> {
    Box::new(BoolUnit {
        pos: 0,
        inner: BoolUnitInner::ComExpr(Box::new(ComExpr { op, left, right })),
    })
}

fn truth(u: Box<BoolUnit>) -> Box<BoolExpr> {
    Box::new(BoolExpr { pos: 0, inner: BoolExprInner::BoolUnit(u) })
}

fn place(name: &str) -> Box<LeftVal> {
    Box::new(LeftVal { pos: 0, inner: LeftValInner::Id(name.to_string()) })
}

fn call_stmt(c: Box<FnCall>) -> CodeBlockStmt {
    CodeBlockStmt { inner: CodeBlockStmtInner::Call(Box::new(CallStmt { fn_call: c })) }
}

fn function(name: &str, stmts: Vec<CodeBlockStmt>) -> ProgramElement {
    ProgramElement {
        inner: ProgramElementInner::FnDef(Box::new(FnDef {
            fn_decl: Box::new(FnDecl {
                identifier: name.to_string(),
                param_decl: None,
                return_dtype: None,
            }),
            stmts,
        })),
    }
}

fn program(elements: Vec<ProgramElement>) -> Program {
    Program { use_stmts: vec![], elements }
}

fn names(list: &[&str]) -> Vec<String> {
    list.iter().map(|n| n.to_string()).collect()
}

#[test]
fn expressions_read_as_written() {
    let sum = arith(ArithBiOp::Add, single(id("a")), single(num(-2)));
    let nested = arith(ArithBiOp::Mul, single(unit(ExprUnitInner::ArithExpr(sum))), single(id("b")));
    assert_eq!(right_val(&value(nested)), "(a + -2) * b");
    let args = vec![
        value(arith(ArithBiOp::Div, single(id("x")), single(num(2)))),
        value(arith(ArithBiOp::Sub, single(id("y")), single(num(1)))),
        value(single(unit(ExprUnitInner::Reference("z".to_string())))),
    ];
    let c = FnCall { module_prefix: Some("m".to_string()), name: "f".to_string(), vals: args };
    assert_eq!(
        right_val(&value(single(unit(ExprUnitInner::FnCall(Box::new(c)))))),
        "m::f(x / 2, y - 1, &z)"
    );
    assert_eq!(
        right_val(&value(single(unit(ExprUnitInner::FnCall(call("g", vec![])))))),
        "g()"
    );
}

#[test]
fn places_read_as_written() {
    let element = LeftVal {
        pos: 0,
        inner: LeftValInner::ArrayExpr(Box::new(ArrayExpr {
            arr: Box::new(LeftVal {
                pos: 0,
                inner: LeftValInner::MemberExpr(Box::new(MemberExpr {
                    struct_id: place("s"),
                    member_id: "list".to_string(),
                })),
            }),
            idx: Box::new(IndexExpr { inner: IndexExprInner::Num(3) }),
        })),
    };
    assert_eq!(left_val(&element), "s.list[3]");
    let by_name = LeftVal {
        pos: 0,
        inner: LeftValInner::ArrayExpr(Box::new(ArrayExpr {
            arr: place("a"),
            idx: Box::new(IndexExpr { inner: IndexExprInner::Id("i".to_string()) }),
        })),
    };
    assert_eq!(left_val(&by_name), "a[i]");
}

#[test]
fn conditions_read_as_written() {
    let shown: Vec<(ComOp, &str)> = vec![
        (ComOp::Eq, "a == 1"),
        (ComOp::Ne, "a != 1"),
        (ComOp::Gt, "a > 1"),
        (ComOp::Ge, "a >= 1"),
        (ComOp::Lt, "a < 1"),
        (ComOp::Le, "a <= 1"),
    ];
    for (op, text) in shown {
        assert_eq!(bool_unit(&compare(op, id("a"), num(1))), text);
    }
    let either = Box::new(BoolExpr {
        pos: 0,
        inner: BoolExprInner::BoolBiOpExpr(Box::new(BoolBiOpExpr {
            op: BoolBiOp::Or,
            left: truth(compare(ComOp::Lt, id("a"), id("b"))),
            right: truth(Box::new(BoolUnit {
                pos: 0,
                inner: BoolUnitInner::BoolUOpExpr(Box::new(BoolUOpExpr {
                    op: BoolUOp::Not,
                    cond: compare(ComOp::Eq, id("c"), num(0)),
                })),
            })),
        })),
    });
    assert_eq!(right_val(&RightVal { inner: RightValInner::BoolExpr(either) }), "a < b || !c == 0");
}

#[test]
fn calls_are_found_everywhere() {
    let inner = call("inner", vec![]);
    let outer = call("outer", vec![value(single(unit(ExprUnitInner::FnCall(inner))))]);
    let stmts = vec![
        CodeBlockStmt {
            inner: CodeBlockStmtInner::If(Box::new(IfStmt {
                bool_unit: compare(ComOp::Eq, unit(ExprUnitInner::FnCall(call("test", vec![]))), num(0)),
                if_stmts: vec![call_stmt(outer)],
                else_stmts: Some(vec![call_stmt(call("other", vec![]))]),
            })),
        },
        CodeBlockStmt {
            inner: CodeBlockStmtInner::While(Box::new(WhileStmt {
                bool_unit: compare(ComOp::Lt, num(0), unit(ExprUnitInner::FnCall(call("more", vec![])))),
                stmts: vec![CodeBlockStmt { inner: CodeBlockStmtInner::Null(Box::new(NullStmt {})) }],
            })),
        },
        CodeBlockStmt {
            inner: CodeBlockStmtInner::Return(Box::new(ReturnStmt {
                val: Some(Box::new(value(single(unit(ExprUnitInner::FnCall(call("last", vec![]))))))),
            })),
        },
    ];
    assert_eq!(
        collect_call_sites(&stmts),
        names(&["test", "outer", "inner", "other", "more", "last"])
    );
}

#[test]
fn traced_functions_are_those_in_reach() {
    let p = program(vec![
        function("a", vec![call_stmt(call("b", vec![])), call_stmt(call("putint", vec![]))]),
        function("b", vec![call_stmt(call("c", vec![])), call_stmt(call("a", vec![]))]),
        function("c", vec![]),
        function("main", vec![call_stmt(call("a", vec![])), call_stmt(call("d", vec![]))]),
        function("d", vec![]),
    ]);
    let t = plan(&p, &names(&["a"]));
    assert!(t.needs_runtime);
    for (name, traced) in
        [("a", true), ("b", true), ("c", true), ("d", false), ("main", false), ("putint", false)]
    {
        assert_eq!(t.functions.contains_key(name), traced, "{name}");
    }
    let unknown = plan(&p, &names(&["putint"]));
    assert!(unknown.needs_runtime);
    assert_eq!(unknown.functions.len(), 0);
    let none = plan(&p, &names(&[]));
    assert!(!none.needs_runtime);
    assert_eq!(none.functions.len(), 0);
}

#[test]
fn the_runtime_is_registered() {
    let p = program(vec![]);
    let headers: Vec<Header> = vec![];
    let mut g: IrGenerator<ReturnInferPass> = IrGenerator::new(&p, &headers);
    register_runtime(&mut g);
    assert_eq!(g.module.function_list.len(), 8);
    let begin = g.registry.function_types.get("__teac_trace_begin").unwrap();
    assert!(matches!(begin.return_dtype, Dtype::Void));
    assert_eq!(begin.arguments.len(), 0);
    let putint = g.registry.function_types.get("__teac_trace_putint").unwrap();
    assert_eq!(putint.arguments.len(), 1);
    assert_eq!(putint.arguments[0].0, "arg0");
    assert!(matches!(putint.arguments[0].1, Dtype::I32));
    assert_eq!(g.registry.link_names.get("__teac_trace_event").unwrap(), "__teac_trace_event");
    assert!(g.module.function_list.get("__teac_trace_leave").unwrap().body.is_none());
}

fn spelled_by(g: &FunctionGenerator) -> String {
    let mut bytes: Vec<u8> = vec![];
    for s in &g.irs {
        if let StmtInner::Call(c) = &s.inner {
            match c.func_name.as_str() {
                "__teac_trace_putch" => match &c.args[0] {
                    Operand::Const(k) => bytes.push(k.val as u8),
                    _ => panic!("no byte"),
                },
                name => {
                    bytes.push(b'<');
                    bytes.extend_from_slice(name.trim_start_matches("__teac_trace_").as_bytes());
                    for a in &c.args {
                        bytes.push(b' ');
                        bytes.extend_from_slice(a.to_text().as_bytes());
                    }
                    bytes.push(b'>');
                }
            }
        }
    }
    String::from_utf8(bytes).unwrap()
}

#[test]
fn lines_spell_what_happens() {
    let registry = Registry::new();
    let globals = NameMap::new();
    let mut g = FunctionGenerator::new(&registry, &globals, NameMap::new());
    g.emit_trace_begin_line("f", &vec![Operand::from(1i32), Operand::from(2i32)]);
    g.emit_trace_function_enter();
    g.emit_trace_call_line(
        1,
        "f",
        &vec![
            ("x".to_string(), Operand::from(1i32)),
            ("y\u{e9}".to_string(), Operand::from(2i32)),
        ],
    );
    g.emit_trace_let_line(2, "z", Operand::from(3i32));
    let holds = g.alloc_temporary(Dtype::I1);
    g.emit_trace_condition_line(2, "if", "z > 0", holds);
    g.emit_trace_else_line(2);
    g.emit_trace_function_return(1, Some(Operand::from(7i32)));
    g.emit_trace_function_return(1, None);
    g.emit_trace_end_line();
    assert_eq!(
        spelled_by(&g),
        "<begin><event 0>trace f(<putint 1>, <putint 2>)\n\
         <enter><event 1>call f(x = <putint 1>, y\u{e9} = <putint 2>)\n\
         <event 2>let z = <putint 3>\n\
         <event 2>if z > 0 -> <putbool %r0>\n\
         <event 2>else\n\
         <event 1>return <putint 7>\n<leave>\
         <event 1>return\n<leave>\
         <event 0>end trace\n<finish>"
    );
}

#[test]
fn changes_and_rounds_are_reported() {
    let registry = Registry::new();
    let globals = NameMap::new();
    let mut g = FunctionGenerator::new(&registry, &globals, NameMap::new());
    let slot = g.emit_trace_loop_slot();
    let round = g.bump_trace_loop(&slot, 1);
    assert_eq!(round.to_text(), "%r2");
    assert_eq!(g.irs.len(), 2 + 3 + 1 + "loop #".len() + 1 + 1);
    assert!(matches!(g.irs[0].inner, StmtInner::Alloca(_)));
    assert!(matches!(g.irs[2].inner, StmtInner::Load(_)));
    g.emit_trace_change_line(1, "v", Operand::from(1i32), round);
    assert_eq!(g.next_vreg, 4);
    assert_eq!(g.next_basic_block, 3);
    assert!(spelled_by(&g).ends_with("<event 1>v: <putint 1> -> <putint %r2>\n"));
    assert!(matches!(g.irs[g.irs.len() - 1].inner, StmtInner::Label(_)));
    assert!(matches!(g.irs[g.irs.len() - 2].inner, StmtInner::Jump(_)));
}
