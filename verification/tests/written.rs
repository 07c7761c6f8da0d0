use std::sync::Arc;

use lib::cfg::{BasicBlock, Edge, EdgeKind, Terminator, CFG};
use lib::expr::{BinOp, Expr, Prim};
use lib::setters::Updater;
use lib::types::ExprId;
use lib::written::{classify_updater_return, returns_freshness, written_freshness, Freshness};

fn returning(ret: Expr) -> CFG {
    CFG { entry: 0, blocks: vec![BasicBlock { id: 0, stmts: vec![], term: Terminator::Return(ret) }], edges: vec![] }
}

fn updater(ret: Expr, param: &str) -> Expr {
    Expr::FnLit { id: ExprId(0), params: vec![param.to_string()], body_cfg: Arc::new(returning(ret)) }
}

fn obj() -> Expr {
    Expr::ObjectLit { id: ExprId(1), fields: vec![] }
}

#[test]
fn a_bare_setter_call_stores_nothing_fresh() {
    assert_eq!(written_freshness(None, &Updater::Unknown), Some(Freshness::Not));
}

#[test]
fn an_updater_returning_a_literal_object_is_fresh() {
    let e = updater(obj(), "p");
    assert_eq!(written_freshness(Some(&e), &Updater::Unknown), Some(Freshness::Fresh));
}

#[test]
fn the_identity_updater_and_a_literal_reset_are_not_fresh() {
    let id = updater(Expr::Var("p".into()), "p");
    assert_eq!(written_freshness(Some(&id), &Updater::Unknown), Some(Freshness::Not));
    let reset = updater(Expr::Lit(Prim::Int(0)), "p");
    assert_eq!(written_freshness(Some(&reset), &Updater::Unknown), Some(Freshness::Not));
}

#[test]
fn a_value_argument_leaves_freshness_to_its_evaluated_value() {
    let arg = Expr::Var("next".into());
    assert_eq!(written_freshness(Some(&arg), &Updater::Unknown), None);
    let proven = Updater::Functional(Arc::new(returning(obj())));
    assert_eq!(written_freshness(Some(&arg), &proven), Some(Freshness::Fresh));
}

#[test]
fn operators_are_at_most_maybe_fresh() {
    let or = Expr::BinOp { op: BinOp::Or, lhs: Box::new(obj()), rhs: Box::new(Expr::Lit(Prim::Null)) };
    assert_eq!(classify_updater_return(&or, &["p".to_string()]), Freshness::Maybe);
    let add = Expr::BinOp { op: BinOp::Add, lhs: Box::new(Expr::Lit(Prim::Int(1))), rhs: Box::new(Expr::Lit(Prim::Int(2))) };
    assert_eq!(classify_updater_return(&add, &[]), Freshness::Not);
    assert_eq!(classify_updater_return(&Expr::Var("q".into()), &["p".to_string()]), Freshness::Maybe);
    assert_eq!(classify_updater_return(&Expr::TSAnnotated(Box::new(obj())), &[]), Freshness::Fresh);
}

#[test]
fn mixed_returns_are_maybe_and_no_return_is_maybe() {
    let body = CFG {
        entry: 0,
        blocks: vec![
            BasicBlock { id: 0, stmts: vec![], term: Terminator::Branch { cond: Expr::Var("c".into()), then_: 1, else_: 2, span: None } },
            BasicBlock { id: 1, stmts: vec![], term: Terminator::Return(obj()) },
            BasicBlock { id: 2, stmts: vec![], term: Terminator::Return(Expr::Var("p".into())) },
        ],
        edges: vec![Edge { from: 0, to: 1, kind: EdgeKind::IfTrue }, Edge { from: 0, to: 2, kind: EdgeKind::IfFalse }],
    };
    assert_eq!(returns_freshness(&body, &["p".to_string()]), Freshness::Maybe);
    let none = CFG { entry: 0, blocks: vec![BasicBlock { id: 0, stmts: vec![], term: Terminator::Unreachable }], edges: vec![] };
    assert_eq!(returns_freshness(&none, &[]), Freshness::Maybe);
    assert!(Freshness::Not < Freshness::Maybe && Freshness::Maybe < Freshness::Fresh);
}
