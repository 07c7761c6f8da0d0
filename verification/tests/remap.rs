use lib::cfg::{BasicBlock, Terminator, CFG};
use lib::expr::{Expr, Prim};
use lib::hooks::{DepsArg, HookEntry};
use lib::remap::{alloc_id_span, remap_cfg, remap_expr, remap_hooks, Offsets};
use lib::stmt::Stmt;
use lib::types::ExprId;

fn single_block_cfg(stmts: Vec<Stmt>, term: Terminator) -> CFG {
    CFG { entry: 0, blocks: vec![BasicBlock { id: 0, stmts, term }], edges: vec![] }
}

#[test]
fn remap_zero_is_identity() {
    let e = Expr::StateVal(3);
    assert!(matches!(remap_expr(e, Offsets::labels(0)), Expr::StateVal(3)));
}

#[test]
fn remap_state_val() {
    assert!(matches!(remap_expr(Expr::StateVal(0), Offsets::labels(5)), Expr::StateVal(5)));
    assert!(matches!(remap_expr(Expr::StateSetter(2), Offsets::labels(10)), Expr::StateSetter(12)));
    assert!(matches!(remap_expr(Expr::MemoVal(1), Offsets::labels(3)), Expr::MemoVal(4)));
    assert!(matches!(remap_expr(Expr::CallbackVal(0), Offsets::labels(7)), Expr::CallbackVal(7)));
}

#[test]
fn remap_cfg_remaps_stmts_and_term() {
    let cfg = single_block_cfg(
        vec![Stmt::Let { var: "x".to_string(), rhs: Expr::StateVal(0), span: None }],
        Terminator::Return(Expr::StateSetter(1)),
    );
    let remapped = remap_cfg(cfg, Offsets::labels(10));
    let block = &remapped.blocks[0];
    assert!(matches!(&block.stmts[0], Stmt::Let { rhs: Expr::StateVal(10), .. }));
    assert!(matches!(&block.term, Terminator::Return(Expr::StateSetter(11))));
}

#[test]
fn remap_hooks_remaps_labels_and_body() {
    let hooks = vec![
        HookEntry::State { label: 0, init: Expr::Lit(Prim::Int(0)), span: None },
        HookEntry::Effect {
            label: 1,
            body_cfg: single_block_cfg(
                vec![Stmt::ExprStmt(Expr::StateSetter(0), None)],
                Terminator::Return(Expr::Lit(Prim::Unit)),
            ),
            deps: DepsArg::Absent,
            span: None,
        },
    ];
    let remapped = remap_hooks(hooks, Offsets::labels(5));
    assert!(matches!(&remapped[0], HookEntry::State { label: 5, .. }));
    if let HookEntry::Effect { label, body_cfg, .. } = &remapped[1] {
        assert_eq!(*label, 6);
        let block = &body_cfg.blocks[0];
        assert!(matches!(&block.stmts[0], Stmt::ExprStmt(Expr::StateSetter(5), _)));
    } else {
        panic!("expected Effect");
    }
}

#[test]
fn allocation_sites_move_by_the_id_offset() {
    let off = Offsets { labels: 2, ids: 100 };
    assert!(!off.is_identity());
    assert!(Offsets::labels(0).is_identity());
    let e = Expr::ObjectLit { id: ExprId(4), fields: vec![("k".to_string(), Expr::MemoVal(1))] };
    match remap_expr(e, off) {
        Expr::ObjectLit { id, fields } => {
            assert_eq!(id, ExprId(104));
            assert!(matches!(fields[0].1, Expr::MemoVal(3)));
        },
        other => panic!("expected ObjectLit, got {other:?}"),
    }
}

#[test]
fn alloc_id_span_is_one_past_the_largest_site_nested_bodies_included() {
    let inner = single_block_cfg(
        vec![Stmt::ExprStmt(Expr::ArrayLit { id: ExprId(9), elems: vec![], arity: lib::hooks::Arity::Exact(0), spread_at: vec![] }, None)],
        Terminator::Unreachable,
    );
    let cfg = single_block_cfg(
        vec![
            Stmt::Let { var: "o".to_string(), rhs: Expr::ObjectLit { id: ExprId(4), fields: vec![] }, span: None },
            Stmt::Let {
                var: "f".to_string(),
                rhs: Expr::FnLit { id: ExprId(2), params: vec![], body_cfg: std::sync::Arc::new(inner) },
                span: None,
            },
        ],
        Terminator::Unreachable,
    );
    assert_eq!(alloc_id_span(&cfg), 10);
    let empty = single_block_cfg(vec![], Terminator::Return(Expr::Lit(Prim::Unit)));
    assert_eq!(alloc_id_span(&empty), 0);
}

#[test]
fn two_label_shifts_compose_into_one() {
    let once = remap_expr(remap_expr(Expr::StateSetter(2), Offsets::labels(3)), Offsets::labels(7));
    assert!(matches!(once, Expr::StateSetter(12)));
    assert!(matches!(remap_expr(Expr::StateSetter(2), Offsets::labels(0)), Expr::StateSetter(2)));
}
