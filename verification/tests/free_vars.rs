use std::sync::Arc;

use lib::cfg::{BasicBlock, Terminator, CFG};
use lib::expr::{Expr, Prim, UnaryOp};
use lib::free_vars::{compute_free_paths, compute_free_vars, dep_paths, path_covered, AccessPath};
use lib::stmt::Stmt;
use lib::types::ExprId;

fn single_block_cfg(stmts: Vec<Stmt>, term: Terminator) -> CFG {
    CFG { entry: 0, blocks: vec![BasicBlock { id: 0, stmts, term }], edges: vec![] }
}

fn single_return_cfg(expr: Expr) -> CFG {
    single_block_cfg(vec![], Terminator::Return(expr))
}

fn lambda(params: &[&str], body: Expr) -> Expr {
    Expr::FnLit {
        id: ExprId(0),
        params: params.iter().map(|p| p.to_string()).collect(),
        body_cfg: Arc::new(single_return_cfg(body)),
    }
}

fn path(root: &str, segs: &[&str]) -> AccessPath {
    AccessPath { root: root.to_string(), segments: segs.iter().map(|s| s.to_string()).collect() }
}

fn field(obj: Expr, name: &str) -> Expr {
    Expr::FieldAccess { obj: Box::new(obj), field: name.to_string() }
}

fn var(v: &str) -> Expr {
    Expr::Var(v.to_string())
}

fn has(v: &[String], x: &str) -> bool {
    v.iter().any(|y| y == x)
}

#[test]
fn dep_paths_keep_member_chains() {
    let deps = vec![field(var("memo"), "content")];
    assert_eq!(dep_paths(&deps), vec![path("memo", &["content"])]);
    let deps = vec![field(field(var("memo"), "a"), "b")];
    assert_eq!(dep_paths(&deps), vec![path("memo", &["a", "b"])]);
    assert_eq!(dep_paths(&[var("memo")]), vec![path("memo", &[])]);
}

#[test]
fn dep_paths_drop_dynamic_index_and_non_vars() {
    let deps = vec![Expr::IndexAccess { arr: Box::new(var("x")), idx: Box::new(var("i")) }];
    assert!(dep_paths(&deps).is_empty());
    assert!(dep_paths(&[Expr::Lit(Prim::Int(1))]).is_empty());
    assert!(dep_paths(&[Expr::Call { fn_: Box::new(var("f")), args: vec![] }]).is_empty());
}

#[test]
fn coverage_is_prefix_based() {
    let decl = vec![path("x", &["a"])];
    assert!(path_covered(&path("x", &["a"]), &decl), "exact");
    assert!(path_covered(&path("x", &["a", "b"]), &decl), "x.a covers x.a.b");
    assert!(!path_covered(&path("x", &["b"]), &decl), "x.a does not cover x.b");
    assert!(!path_covered(&path("x", &[]), &decl), "x.a does not cover whole x");
    let whole = vec![path("x", &[])];
    assert!(path_covered(&path("x", &["a"]), &whole));
    assert!(path_covered(&path("x", &[]), &whole));
    assert!(!path_covered(&path("y", &["a"]), &decl));
}

#[test]
fn free_paths_record_member_chain_not_root() {
    let cfg = single_return_cfg(field(field(var("x"), "a"), "b"));
    let free = compute_free_paths(&cfg);
    assert_eq!(free.len(), 1);
    assert!(free.contains(&path("x", &["a", "b"])));
}

#[test]
fn free_paths_dynamic_index_collapses_to_root() {
    let cfg = single_return_cfg(field(Expr::IndexAccess { arr: Box::new(var("x")), idx: Box::new(var("i")) }, "a"));
    let free = compute_free_paths(&cfg);
    assert!(free.contains(&path("x", &[])), "x[i].a touches all of x: {free:?}");
    assert!(free.contains(&path("i", &[])), "index var is used: {free:?}");
}

#[test]
fn lambda_param_shadows_outer_binding() {
    let cfg = single_return_cfg(lambda(&["open"], Expr::UnaryOp { op: UnaryOp::Not, arg: Box::new(var("open")) }));
    assert!(compute_free_vars(&cfg).is_empty());
}

#[test]
fn non_shadowed_capture_stays_free() {
    let cfg = single_return_cfg(lambda(&["x"], Expr::UnaryOp { op: UnaryOp::Not, arg: Box::new(var("open")) }));
    let free = compute_free_vars(&cfg);
    assert!(has(&free, "open"));
}

#[test]
fn shadowing_is_per_lambda_not_global() {
    let call = Expr::Call { fn_: Box::new(var("f")), args: vec![lambda(&["open"], var("open")), lambda(&[], var("open"))] };
    let cfg = single_return_cfg(call);
    let free = compute_free_vars(&cfg);
    assert!(has(&free, "open"), "unshadowed sibling use must stay free");
}

#[test]
fn param_of_inner_lambda_does_not_leak() {
    let cfg = single_block_cfg(
        vec![Stmt::ExprStmt(var("open"), None), Stmt::ExprStmt(lambda(&["open"], var("open")), None)],
        Terminator::Return(Expr::Lit(Prim::Unit)),
    );
    assert!(has(&compute_free_vars(&cfg), "open"));
}

#[test]
fn a_let_bound_variable_is_not_free_and_each_free_var_appears_once() {
    let cfg = single_block_cfg(
        vec![
            Stmt::Let { var: "y".to_string(), rhs: var("x"), span: None },
            Stmt::ExprStmt(Expr::BinOp { op: lib::expr::BinOp::Add, lhs: Box::new(var("x")), rhs: Box::new(var("y")) }, None),
        ],
        Terminator::Return(var("x")),
    );
    let free = compute_free_vars(&cfg);
    assert_eq!(free, vec!["x".to_string()]);
    let paths = compute_free_paths(&cfg);
    assert_eq!(paths, vec![path("x", &[])]);
}

#[test]
fn a_display_shows_the_source_name_and_the_chain() {
    assert_eq!(path("memo#3", &["a", "b"]).display(), "memo.a.b");
    assert_eq!(path("x", &[]).display(), "x");
}
