use teac::common::bitset::Bitset;
use teac::common::cfg::Cfg;
use teac::common::graph::{BackwardLiveness, Graph};
use teac::common::names::NameMap;
use teac::experimental::union_find::{unify, Ty, UnionFind};
use teac::ir::error::Error;
use teac::ir::function::{BasicBlock, BlockLabel};
use teac::ir::gen::static_eval::handle_arith_expr_static;
use teac::ir::link::compute_link_name;
use teac::ir::stmt::Stmt;
use teac::ir::types::Dtype;
use teac::ir::value::{Local, LocalId, Operand};
use teac::ast::expr::{ArithBiOpExpr, ArithExpr, ArithExprInner, ExprUnit, ExprUnitInner};
use teac::ast::ops::ArithBiOp;
use teac::opt::dominator::DominatorInfo;

fn set(cap: usize, items: &[usize]) -> Bitset {
    let mut b = Bitset::new(cap);
    for i in items {
        b.insert(*i);
    }
    b
}

#[test]
fn names_keep_their_order() {
    let mut m: NameMap<Dtype> = NameMap::new();
    assert!(!m.insert("b".to_string(), Dtype::I32));
    assert!(!m.insert("a".to_string(), Dtype::I1));
    assert!(!m.insert("c".to_string(), Dtype::Void));
    assert!(m.insert("b".to_string(), Dtype::Void));
    assert_eq!(m.len(), 3);
    assert_eq!(m.name_at(0), "b");
    assert_eq!(m.name_at(1), "a");
    assert_eq!(m.name_at(2), "c");
    assert!(matches!(m.get("b"), Some(Dtype::Void)));
    assert!(matches!(m.value_at(1), Dtype::I1));
    assert!(m.get("d").is_none());
    m.remove("a");
    assert_eq!(m.len(), 2);
    assert_eq!(m.name_at(1), "c");
    assert!(!m.contains_key("a"));
    *m.value_at_mut(0) = Dtype::I32;
    assert!(matches!(m.get("b"), Some(Dtype::I32)));
}

#[test]
fn predecessors_invert_successors() {
    let g = Graph::new(vec![vec![1, 2], vec![3], vec![3], vec![]]);
    assert_eq!(g.num_nodes(), 4);
    assert_eq!(g.successors(0), &[1, 2]);
    assert_eq!(g.predecessors(3), &[1, 2]);
    assert_eq!(g.predecessors(0), &[] as &[usize]);
}

#[test]
fn liveness_flows_backward() {
    // 0: defines 0; 1: uses 0, loops to itself; 2: uses 1.
    let g = Graph::new(vec![vec![1], vec![1, 2], vec![]]);
    let gen = [set(2, &[]), set(2, &[0]), set(2, &[1])];
    let kill = [set(2, &[0]), set(2, &[]), set(2, &[])];
    let live = BackwardLiveness::compute(&gen, &kill, &g, Bitset::new(2));
    let ins: Vec<Vec<usize>> = live.live_in.iter().map(|b| b.iter().collect()).collect();
    let outs: Vec<Vec<usize>> = live.live_out.iter().map(|b| b.iter().collect()).collect();
    assert_eq!(ins, vec![vec![1], vec![0, 1], vec![1]]);
    assert_eq!(outs, vec![vec![0, 1], vec![0, 1], vec![]]);
}

#[test]
fn blocks_follow_their_branches() {
    let cond = Operand::Local(Local::new(Dtype::I1, LocalId(0)));
    let blocks = [
        BasicBlock {
            label: BlockLabel::Function("f".to_string()),
            stmts: vec![Stmt::as_cjump(
                cond,
                BlockLabel::BasicBlock(2),
                BlockLabel::BasicBlock(1),
            )],
        },
        BasicBlock { label: BlockLabel::BasicBlock(1), stmts: vec![] },
        BasicBlock {
            label: BlockLabel::BasicBlock(2),
            stmts: vec![Stmt::as_return(None)],
        },
    ];
    let cfg = Cfg::from_blocks(&blocks);
    assert_eq!(cfg.num_blocks(), 3);
    assert_eq!(cfg.successors(0), &[2, 1]);
    assert_eq!(cfg.successors(1), &[2]);
    assert_eq!(cfg.successors(2), &[] as &[usize]);
    assert_eq!(cfg.predecessors(2), &[0, 1]);
    assert_eq!(cfg.label(1).key(), "bb1");
}

#[test]
fn dominators_of_a_diamond() {
    // 0 -> 1, 2; 1 -> 3; 2 -> 3; 3 -> 1 closes a loop; 4 is unreachable.
    let g = Graph::new(vec![vec![1, 2], vec![3], vec![3], vec![1], vec![]]);
    let d = DominatorInfo::compute(&g);
    assert!(d.dominates(0, 3));
    assert!(!d.dominates(1, 3));
    assert!(d.dominates(3, 3));
    assert_eq!(d.dom_children(0), &vec![1, 2, 3]);
    let frontier: Vec<usize> = d.dominance_frontier(3).iter().collect();
    assert_eq!(frontier, vec![1]);
    let frontier: Vec<usize> = d.dominance_frontier(1).iter().collect();
    assert_eq!(frontier, vec![3]);
}

#[test]
fn types_unify() {
    let mut uf = UnionFind::new();
    let a = uf.fresh();
    let b = uf.fresh();
    let c = uf.fresh();
    let symbol = "s".to_string();
    assert!(uf.union(a, b, &symbol).is_ok());
    assert!(uf.resolve(a).is_none());
    assert!(uf.bind(b, Dtype::I32, &symbol).is_ok());
    assert!(matches!(uf.resolve(a), Some(Dtype::I32)));
    assert!(uf.bind(c, Dtype::Void, &symbol).is_ok());
    match unify(&mut uf, &Ty::Var(a), &Ty::Var(c), &symbol) {
        Err(Error::TypeMismatch { symbol, .. }) => assert_eq!(symbol, "s"),
        r => panic!("{r:?}"),
    }
    assert!(unify(&mut uf, &Ty::Concrete(Dtype::I32), &Ty::Var(a), &symbol).is_ok());
}

#[test]
fn link_names_are_mangled() {
    assert_eq!(compute_link_name("std::putint", true), "putint");
    assert_eq!(compute_link_name("putint", true), "putint");
    assert_eq!(compute_link_name("a:::b", true), "b");
    assert_eq!(compute_link_name("main", false), "main");
    assert_eq!(compute_link_name("Counter::get", false), "_TN7Counter3getE");
    assert_eq!(compute_link_name("a::b::c", false), "_TN1a1b1cE");
    assert_eq!(compute_link_name("a:::b", false), "_TN1a2:bE");
    assert_eq!(compute_link_name("é::x", false), "_TN2é1xE");
}

fn number(n: i32) -> Box<ArithExpr> {
    Box::new(ArithExpr {
        pos: 0,
        inner: ArithExprInner::ExprUnit(Box::new(ExprUnit { pos: 0, inner: ExprUnitInner::Num(n) })),
    })
}

fn binary(op: ArithBiOp, left: i32, right: i32) -> ArithExpr {
    ArithExpr {
        pos: 0,
        inner: ArithExprInner::ArithBiOpExpr(Box::new(ArithBiOpExpr {
            op,
            left: number(left),
            right: number(right),
        })),
    }
}

#[test]
fn constants_are_folded() {
    assert_eq!(handle_arith_expr_static(&binary(ArithBiOp::Sub, 3, 10)).unwrap(), -7);
    assert_eq!(handle_arith_expr_static(&binary(ArithBiOp::Mul, -3, 10)).unwrap(), -30);
    assert_eq!(handle_arith_expr_static(&binary(ArithBiOp::Div, -7, 2)).unwrap(), -3);
    assert_eq!(handle_arith_expr_static(&binary(ArithBiOp::Div, 7, -2)).unwrap(), -3);
    assert!(matches!(
        handle_arith_expr_static(&binary(ArithBiOp::Div, 1, 0)),
        Err(Error::DivisionByZero)
    ));
    assert!(matches!(
        handle_arith_expr_static(&binary(ArithBiOp::Div, i32::MIN, -1)),
        Err(Error::IntegerOverflow)
    ));
    assert!(matches!(
        handle_arith_expr_static(&binary(ArithBiOp::Mul, i32::MAX, 2)),
        Err(Error::IntegerOverflow)
    ));
}

#[test]
fn error_messages_name_the_symbol() {
    assert_eq!(
        Error::VariableNotDefined { symbol: "x".to_string() }.to_text(),
        "Variable x not defined"
    );
}
