use std::sync::Arc;

use lib::bindings::{certified_fn_binding, closure_binding_of, fn_binding_in, local_bindings, ClosureBinding};
use lib::cfg::{BasicBlock, Terminator, CFG};
use lib::expr::{object_member, Expr, Prim};
use lib::stmt::Stmt;
use lib::types::ExprId;

fn single_block_cfg(stmts: Vec<Stmt>) -> CFG {
    CFG { entry: 0, blocks: vec![BasicBlock { id: 0, stmts, term: Terminator::Return(Expr::Lit(Prim::Unit)) }], edges: vec![] }
}

fn let_(var: &str, rhs: Expr) -> Stmt {
    Stmt::Let { var: var.to_string(), rhs, span: None }
}

fn assign(var: &str, rhs: Expr) -> Stmt {
    Stmt::Assign { var: var.to_string(), rhs, span: None }
}

fn var(name: &str) -> Expr {
    Expr::Var(name.to_string())
}

fn lambda(params: &[&str], body: Vec<Stmt>) -> Expr {
    Expr::FnLit {
        id: ExprId(0),
        params: params.iter().map(|p| p.to_string()).collect(),
        body_cfg: Arc::new(single_block_cfg(body)),
    }
}

fn object(fields: Vec<(&str, Expr)>) -> Expr {
    Expr::ObjectLit { id: ExprId(1), fields: fields.into_iter().map(|(k, v)| (k.to_string(), v)).collect() }
}

#[test]
fn local_bindings_keeps_every_right_hand_side_of_a_name() {
    let cfg = single_block_cfg(vec![
        let_("x", Expr::Lit(Prim::Int(1))),
        let_("y", lambda(&[], vec![let_("inner", Expr::Lit(Prim::Int(3)))])),
        assign("x", Expr::Lit(Prim::Int(2))),
    ]);
    let b = local_bindings(&cfg);
    assert_eq!(b.len(), 2);
    let x = b.iter().find(|(k, _)| k == "x").unwrap();
    assert_eq!(x.1.len(), 2);
    assert!(matches!(x.1[1], Expr::Lit(Prim::Int(2))));
    assert!(b.iter().all(|(k, _)| k != "inner"));
}

#[test]
fn a_member_behind_a_later_spread_is_not_certain() {
    let overwritten = vec![("seed".to_string(), var("seed")), ("...0".to_string(), var("rest"))];
    assert!(object_member(&overwritten, "seed").is_none());
    let kept = vec![("...0".to_string(), var("rest")), ("seed".to_string(), var("seed"))];
    assert!(matches!(object_member(&kept, "seed"), Some(Expr::Var(v)) if v == "seed"));
    let dup = vec![("a".to_string(), var("first")), ("a".to_string(), var("second"))];
    assert!(matches!(object_member(&dup, "a"), Some(Expr::Var(v)) if v == "second"));
    assert!(object_member(&dup, "b").is_none());
}

#[test]
fn a_closure_handed_back_in_an_object_resolves_one_hop_in() {
    let cfg = single_block_cfg(vec![
        let_("clear", lambda(&["field"], vec![])),
        let_("alias", var("clear")),
        let_("api", object(vec![("clear", var("alias")), ("cb", Expr::CallbackVal(4))])),
    ]);
    match closure_binding_of("api", &["clear".to_string()], &cfg) {
        Some(ClosureBinding::Lit { params, .. }) => assert_eq!(params, &["field".to_string()][..]),
        other => panic!("expected the literal, got {other:?}"),
    }
    assert!(matches!(closure_binding_of("api", &["cb".to_string()], &cfg), Some(ClosureBinding::Callback(4))));
    assert!(closure_binding_of("api", &["missing".to_string()], &cfg).is_none());
    assert!(closure_binding_of("clear", &["x".to_string()], &cfg).is_none());
    assert!(fn_binding_in("alias", &cfg).is_some());
}

#[test]
fn a_name_bound_twice_has_no_certain_binding() {
    let cfg = single_block_cfg(vec![let_("sel", lambda(&["s"], vec![])), assign("sel", lambda(&["t"], vec![]))]);
    assert!(fn_binding_in("sel", &cfg).is_none());
    assert!(closure_binding_of("sel", &[], &cfg).is_none());
}

#[test]
fn a_self_alias_cycle_gives_up() {
    let cfg = single_block_cfg(vec![let_("a", var("b")), let_("b", var("a"))]);
    assert!(closure_binding_of("a", &[], &cfg).is_none());
}

#[test]
fn a_rebinding_in_a_nested_or_lifted_body_refuses_the_certificate() {
    let clean = single_block_cfg(vec![let_("sel", lambda(&["s"], vec![]))]);
    let got = certified_fn_binding("sel", &clean, &[]).unwrap();
    assert_eq!(got.0, &["s".to_string()][..]);

    let nested = single_block_cfg(vec![
        let_("sel", lambda(&["s"], vec![])),
        Stmt::ExprStmt(lambda(&[], vec![assign("sel", Expr::Lit(Prim::Null))]), None),
    ]);
    assert!(fn_binding_in("sel", &nested).is_some());
    assert!(certified_fn_binding("sel", &nested, &[]).is_none());

    let effect = single_block_cfg(vec![Stmt::ExprStmt(lambda(&[], vec![assign("sel", Expr::Lit(Prim::Null))]), None)]);
    assert!(certified_fn_binding("sel", &clean, &[&effect]).is_none());
    let unrelated = single_block_cfg(vec![let_("other", Expr::Lit(Prim::Null))]);
    assert!(certified_fn_binding("sel", &clean, &[&unrelated]).is_some());
}
