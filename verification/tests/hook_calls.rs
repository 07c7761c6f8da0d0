use std::sync::Arc;

use lib::analysis_result::HookKind;
use lib::cfg::{BasicBlock, Edge, EdgeKind, Terminator, CFG};
use lib::expr::{Expr, MarkerVal, Prim, SummaryValue};
use lib::hook_calls::{collect_handler_info, collect_hook_calls, find_hook_marker, hook_labels_in_stmt, retag_marker};
use lib::hooks::{DepsArg, HookEntry};
use lib::stmt::Stmt;
use lib::types::ExprId;

fn let_(var: &str, rhs: Expr) -> Stmt {
    Stmt::Let { var: var.to_string(), rhs, span: None }
}

fn block(id: usize, stmts: Vec<Stmt>, term: Terminator) -> BasicBlock {
    BasicBlock { id, stmts, term }
}

fn unit() -> Expr {
    Expr::Lit(Prim::Unit)
}

fn empty_body() -> CFG {
    CFG { entry: 0, blocks: vec![block(0, vec![], Terminator::Return(unit()))], edges: vec![] }
}

/// Two blocks: the entry holds the state binding, block 1 the memo and an
/// opaque custom hook marker.
fn two_block_render() -> CFG {
    CFG {
        entry: 0,
        blocks: vec![
            block(0, vec![let_("count", Expr::StateVal(0)), let_("setCount", Expr::StateSetter(0))], Terminator::Jump(1)),
            block(
                1,
                vec![
                    let_("m", Expr::MemoVal(2)),
                    let_("d", Expr::TSAnnotated(Box::new(Expr::HookMarker(3, MarkerVal::Unknown)))),
                    Stmt::ExprStmt(Expr::HookMarker(4, MarkerVal::Unknown), None),
                ],
                Terminator::Return(unit()),
            ),
        ],
        edges: vec![Edge { from: 0, to: 1, kind: EdgeKind::Unconditional }],
    }
}

fn hooks() -> Vec<HookEntry> {
    vec![
        HookEntry::State { label: 0, init: Expr::Lit(Prim::Int(0)), span: None },
        HookEntry::Effect { label: 1, body_cfg: empty_body(), deps: DepsArg::Absent, span: None },
        HookEntry::Memo { label: 2, body_cfg: empty_body(), deps: DepsArg::Absent, span: None },
        HookEntry::Custom {
            label: 3,
            name: "useData".to_string(),
            args: vec![],
            deps: DepsArg::Absent,
            binding: Some("d".to_string()),
            import_source: None,
            resolved_file: None,
            span: None,
        },
        HookEntry::Custom {
            label: 4,
            name: "useTracking".to_string(),
            args: vec![],
            deps: DepsArg::Absent,
            binding: None,
            import_source: None,
            resolved_file: None,
            span: None,
        },
    ]
}

#[test]
fn labels_are_read_in_order_without_entering_function_bodies() {
    let s = let_(
        "x",
        Expr::Call {
            fn_: Box::new(Expr::StateSetter(1)),
            args: vec![
                Expr::StateVal(1),
                Expr::FnLit { id: ExprId(0), params: vec![], body_cfg: Arc::new(empty_body()) },
                Expr::ObjectLit { id: ExprId(1), fields: vec![("a".to_string(), Expr::CallbackVal(5))] },
            ],
        },
    );
    assert_eq!(hook_labels_in_stmt(&s), vec![1, 1, 5]);
}

#[test]
fn every_hook_gets_a_row_with_its_first_block() {
    let rows = collect_hook_calls(&hooks(), &two_block_render());
    let got: Vec<(usize, HookKind, usize, bool)> = rows.iter().map(|r| (r.label, r.kind, r.block_id, r.opaque)).collect();
    assert_eq!(
        got,
        vec![
            (0, HookKind::State, 0, false),
            // No block carries the effect: the entry block stands in.
            (1, HookKind::Effect, 0, false),
            (2, HookKind::Memo, 1, false),
            // The marker sits under an annotation, so it is not read as opaque.
            (3, HookKind::Custom, 1, false),
            (4, HookKind::Custom, 1, true),
        ]
    );
}

#[test]
fn the_marker_is_found_with_its_binding() {
    let cfg = two_block_render();
    assert_eq!(find_hook_marker(&cfg, 3), Some((1, 1, Some("d".to_string()))));
    assert_eq!(find_hook_marker(&cfg, 4), Some((1, 2, None)));
    assert_eq!(find_hook_marker(&cfg, 0), None);
}

#[test]
fn retagging_touches_only_the_bare_marker_of_that_label() {
    let mut cfg = two_block_render();
    retag_marker(&mut cfg, 4, SummaryValue::StableRef);
    retag_marker(&mut cfg, 3, SummaryValue::UnstableRef);
    assert!(matches!(cfg.blocks[1].stmts[2], Stmt::ExprStmt(Expr::HookMarker(4, MarkerVal::Summary(SummaryValue::StableRef)), _)));
    // Behind an annotation the marker is not the statement's value.
    assert!(matches!(&cfg.blocks[1].stmts[1], Stmt::Let { rhs: Expr::TSAnnotated(_), .. }));
    assert_eq!(cfg.blocks.len(), 2);
}

#[test]
fn handler_rows_carry_the_captured_variables() {
    let body = CFG {
        entry: 0,
        blocks: vec![block(
            0,
            vec![let_("local", Expr::Lit(Prim::Int(1)))],
            Terminator::Return(Expr::BinOp {
                op: lib::expr::BinOp::Add,
                lhs: Box::new(Expr::Var("count".to_string())),
                rhs: Box::new(Expr::Var("local".to_string())),
            }),
        )],
        edges: vec![],
    };
    let hooks = vec![
        HookEntry::State { label: 0, init: Expr::Lit(Prim::Int(0)), span: None },
        HookEntry::Handler { label: 1, event: "click".to_string(), body_cfg: body, span: None },
    ];
    let rows = collect_handler_info(&hooks);
    assert_eq!(rows.len(), 1);
    assert_eq!(rows[0].label, 1);
    assert_eq!(rows[0].event, "click");
    assert_eq!(rows[0].free_vars, vec!["count".to_string()]);
}

fn call_stmt(callee: &str, arg: &str) -> Stmt {
    Stmt::ExprStmt(Expr::Call { fn_: Box::new(Expr::Var(callee.to_string())), args: vec![Expr::Var(arg.to_string())] }, None)
}

fn body_of(stmts: Vec<Stmt>) -> CFG {
    CFG { entry: 0, blocks: vec![block(0, stmts, Terminator::Return(unit()))], edges: vec![] }
}

#[test]
fn effect_info_rows_carry_the_captured_paths() {
    let hooks = vec![
        HookEntry::State { label: 0, init: unit(), span: None },
        HookEntry::Effect { label: 1, body_cfg: body_of(vec![call_stmt("setN", "n")]), deps: DepsArg::Absent, span: None },
        HookEntry::Callback {
            label: 2,
            body_cfg: body_of(vec![call_stmt("submit", "e")]),
            params: vec!["e".to_string()],
            deps: DepsArg::Opaque,
            span: None,
        },
    ];
    let infos = lib::hook_calls::collect_effect_info(&hooks);
    assert_eq!(infos.len(), 2, "the state entry has no deps facts");
    assert_eq!(infos[0].label, 1);
    assert_eq!(infos[0].kind, HookKind::Effect);
    let mut roots: Vec<&str> = infos[0].free_paths.iter().map(|p| p.root.as_str()).collect();
    roots.sort();
    assert_eq!(roots, vec!["n", "setN"]);
    assert!(!infos[0].has_deps_array());
    assert_eq!(infos[1].kind, HookKind::Callback);
    let roots: Vec<&str> = infos[1].free_paths.iter().map(|p| p.root.as_str()).collect();
    assert_eq!(roots, vec!["submit"], "a callback's own parameter is bound, not captured");
    assert!(infos[1].deps_are_opaque());
}
