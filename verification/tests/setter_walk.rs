use std::sync::Arc;

use lib::cfg::{BasicBlock, Edge, EdgeKind, Terminator, CFG};
use lib::expr::{Expr, Prim};
use lib::setter_walk::{collect_setter_calls, collect_write_sites};
use lib::setters::{SetterCallPhase, Updater, WalkClass};
use lib::stmt::Stmt;
use lib::types::ExprId;

fn single_block_cfg(stmts: Vec<Stmt>) -> CFG {
    CFG { entry: 0, blocks: vec![BasicBlock { id: 0, stmts, term: Terminator::Return(Expr::Lit(Prim::Unit)) }], edges: vec![] }
}

fn call(callee: &str, args: Vec<Expr>) -> Expr {
    Expr::Call { fn_: Box::new(Expr::Var(callee.to_string())), args }
}

fn method(recv: &str, name: &str, args: Vec<Expr>) -> Expr {
    Expr::Call {
        fn_: Box::new(Expr::FieldAccess { obj: Box::new(Expr::Var(recv.to_string())), field: name.to_string() }),
        args,
    }
}

fn lambda(body: Vec<Stmt>) -> Expr {
    Expr::FnLit { id: ExprId(0), params: vec![], body_cfg: Arc::new(single_block_cfg(body)) }
}

fn let_(var: &str, rhs: Expr) -> Stmt {
    Stmt::Let { var: var.to_string(), rhs, span: None }
}

#[test]
fn self_referential_callback_terminates_and_is_still_scanned() {
    let tick_body = single_block_cfg(vec![
        Stmt::ExprStmt(call("setN", vec![Expr::Lit(Prim::Int(1))]), None),
        Stmt::ExprStmt(call("raf", vec![Expr::Var("tick".to_string())]), None),
    ]);
    let cfg = single_block_cfg(vec![
        Stmt::Let {
            var: "tick".to_string(),
            rhs: Expr::FnLit { id: ExprId(0), params: vec!["t".to_string()], body_cfg: Arc::new(tick_body) },
            span: None,
        },
        Stmt::ExprStmt(call("raf", vec![Expr::Var("tick".to_string())]), None),
    ]);

    let setters: Vec<String> = vec!["setN".to_string()];
    let found = collect_setter_calls(&cfg, &setters, 2);

    assert_eq!(
        found.iter().map(|c| c.var.as_str()).collect::<Vec<_>>(),
        vec!["setN"],
        "the cycle guard must not hide the setter inside the recursive closure"
    );
}

#[test]
fn mutually_recursive_callbacks_terminate() {
    let a_body = single_block_cfg(vec![Stmt::ExprStmt(call("raf", vec![Expr::Var("b".to_string())]), None)]);
    let b_body = single_block_cfg(vec![
        Stmt::ExprStmt(call("setN", vec![]), None),
        Stmt::ExprStmt(call("raf", vec![Expr::Var("a".to_string())]), None),
    ]);
    let cfg = single_block_cfg(vec![
        Stmt::Let { var: "a".to_string(), rhs: Expr::FnLit { id: ExprId(0), params: vec![], body_cfg: Arc::new(a_body) }, span: None },
        Stmt::Let { var: "b".to_string(), rhs: Expr::FnLit { id: ExprId(1), params: vec![], body_cfg: Arc::new(b_body) }, span: None },
        Stmt::ExprStmt(call("raf", vec![Expr::Var("a".to_string())]), None),
    ]);

    let setters: Vec<String> = vec!["setN".to_string()];
    let found = collect_setter_calls(&cfg, &setters, 2);

    assert_eq!(found.iter().map(|c| c.var.as_str()).collect::<Vec<_>>(), vec!["setN"]);
}

#[test]
fn a_sync_call_is_preferred_and_keeps_its_block() {
    let cfg = single_block_cfg(vec![
        Stmt::ExprStmt(call("setTimeout", vec![lambda(vec![Stmt::ExprStmt(call("setN", vec![]), None)])]), None),
        Stmt::ExprStmt(call("setN", vec![Expr::Lit(Prim::Int(2))]), None),
    ]);
    let found = collect_setter_calls(&cfg, &vec!["setN".to_string()], 2);
    assert_eq!(found.len(), 1);
    assert_eq!(found[0].class, SetterCallPhase::Sync);
    assert_eq!(found[0].block_id, Some(0));
}

#[test]
fn write_sites_are_classified_by_the_callee_summary() {
    let cfg = single_block_cfg(vec![
        Stmt::ExprStmt(call("setTimeout", vec![lambda(vec![Stmt::ExprStmt(call("setN", vec![]), None)])]), None),
        Stmt::ExprStmt(method("el", "addEventListener", vec![Expr::Lit(Prim::String("click".to_string())), lambda(vec![Stmt::ExprStmt(call("setN", vec![]), None)])]), None),
        Stmt::ExprStmt(method("xs", "forEach", vec![lambda(vec![Stmt::ExprStmt(call("setN", vec![]), None)])]), None),
        Stmt::ExprStmt(call("mystery", vec![lambda(vec![Stmt::ExprStmt(call("setN", vec![]), None)])]), None),
        Stmt::ExprStmt(call("removeEventListener", vec![lambda(vec![Stmt::ExprStmt(call("setN", vec![]), None)])]), None),
    ]);
    let sites = collect_write_sites(&cfg, &vec!["setN".to_string()], 2, false, &vec![], &vec![], &vec![]);
    let classes: Vec<(WalkClass, bool)> = sites.iter().map(|s| (s.class, s.repeats)).collect();
    assert_eq!(
        classes,
        vec![(WalkClass::Deferred, false), (WalkClass::Handler, false), (WalkClass::Sync, true), (WalkClass::Unknown, false)]
    );
    assert!(sites.iter().all(|s| s.prov_block == Some(0)));
}

#[test]
fn a_shadowed_timer_is_not_summarized_and_an_await_defers() {
    let cfg = single_block_cfg(vec![Stmt::ExprStmt(call("setTimeout", vec![lambda(vec![Stmt::ExprStmt(call("setN", vec![]), None)])]), None)]);
    let sites = collect_write_sites(&cfg, &vec!["setN".to_string()], 2, false, &vec!["setTimeout".to_string()], &vec![], &vec![]);
    assert_eq!(sites[0].class, WalkClass::Unknown);

    let awaited = CFG {
        entry: 0,
        blocks: vec![
            BasicBlock { id: 0, stmts: vec![], term: Terminator::Jump(1) },
            BasicBlock { id: 1, stmts: vec![Stmt::ExprStmt(call("setN", vec![]), None)], term: Terminator::Return(Expr::Lit(Prim::Unit)) },
        ],
        edges: vec![Edge { from: 0, to: 1, kind: EdgeKind::Await }],
    };
    let sites = collect_write_sites(&awaited, &vec!["setN".to_string()], 2, false, &vec![], &vec![], &vec![]);
    assert_eq!(sites.len(), 1);
    assert_eq!(sites[0].class, WalkClass::Deferred);
}

#[test]
fn a_functional_updater_is_recognized() {
    let cfg = single_block_cfg(vec![
        let_("inc", lambda(vec![])),
        Stmt::ExprStmt(call("setN", vec![Expr::Var("inc".to_string())]), None),
        Stmt::ExprStmt(call("setN", vec![lambda(vec![])]), None),
        Stmt::ExprStmt(call("setN", vec![Expr::Lit(Prim::Int(3))]), None),
    ]);
    let sites = collect_write_sites(&cfg, &vec!["setN".to_string()], 2, false, &vec![], &vec![], &vec![]);
    let functional: Vec<bool> = sites.iter().map(|s| matches!(s.updater, Updater::Functional(_))).collect();
    assert_eq!(functional, vec![true, true, false]);
}
