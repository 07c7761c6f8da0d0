use std::sync::Arc;

use lib::cfg::{BasicBlock, Edge, EdgeKind, Terminator, CFG};
use lib::expr::{Expr, MarkerVal, Prim};
use lib::splice::{callee_rename_map, rename_vars_expr, source_name, splice_callee_into_cfg, subst_vars_expr, RenameMap, Splice};
use lib::stmt::Stmt;
use lib::types::{BlockId, ExprId};

fn one_block(id: BlockId, stmts: Vec<Stmt>, term: Terminator) -> BasicBlock {
    BasicBlock { id, stmts, term }
}

fn let_(var: &str, rhs: Expr) -> Stmt {
    Stmt::Let { var: var.to_string(), rhs, span: None }
}

fn caller(stmts: Vec<Stmt>) -> CFG {
    CFG { entry: 0, blocks: vec![one_block(0, stmts, Terminator::Return(Expr::Lit(Prim::Unit)))], edges: vec![] }
}

fn all_stmts(cfg: &CFG) -> Vec<&Stmt> {
    cfg.blocks.iter().flat_map(|b| b.stmts.iter()).collect()
}

fn lookup<'a>(ren: &'a RenameMap, k: &str) -> Option<&'a str> {
    ren.iter().find(|(a, _)| a == k).map(|(_, b)| b.as_str())
}

#[test]
fn a_headless_callee_leaves_the_caller_untouched() {
    let callee = CFG { entry: 3, blocks: vec![], edges: vec![] };
    let x = "x".to_string();
    let mut caller = caller(vec![let_("x", Expr::HookMarker(0, MarkerVal::Unknown)), let_("after", Expr::Lit(Prim::Int(1)))]);
    let before = format!("{caller:?}");
    let empty: RenameMap = Vec::new();
    splice_callee_into_cfg(&mut caller, 0, 0, Splice { callee, params: &[], args: &[], bound_var: Some(&x), rename: &empty });
    assert_eq!(format!("{caller:?}"), before, "a skipped splice must not mutate the caller at all");
    assert!(caller.validate().is_ok(), "{:?}", caller.validate());
}

#[test]
fn a_missing_call_site_block_leaves_the_caller_untouched() {
    let callee = CFG { entry: 0, blocks: vec![one_block(0, vec![], Terminator::Return(Expr::Lit(Prim::Unit)))], edges: vec![] };
    let mut caller = caller(vec![let_("x", Expr::HookMarker(0, MarkerVal::Unknown))]);
    let before = format!("{caller:?}");
    let empty: RenameMap = Vec::new();
    splice_callee_into_cfg(&mut caller, 42, 0, Splice { callee, params: &[], args: &[], bound_var: None, rename: &empty });
    assert_eq!(format!("{caller:?}"), before);
}

#[test]
fn alpha_renames_locals_and_binds_return() {
    let callee = CFG {
        entry: 0,
        blocks: vec![one_block(0, vec![let_("a", Expr::Lit(Prim::Int(1)))], Terminator::Return(Expr::Var("a".into())))],
        edges: vec![],
    };
    let rename = callee_rename_map(&callee, &[], 7);
    let x = "x".to_string();
    let mut caller = caller(vec![let_("x", Expr::HookMarker(0, MarkerVal::Unknown))]);
    splice_callee_into_cfg(&mut caller, 0, 0, Splice { callee, params: &[], args: &[], bound_var: Some(&x), rename: &rename });
    let stmts = all_stmts(&caller);
    assert!(
        stmts.iter().any(|s| matches!(s, Stmt::Let { var, .. } if var == "a#7")),
        "callee local `a` should be renamed to `a#7`: {stmts:?}"
    );
    assert!(
        stmts.iter().any(|s| matches!(s, Stmt::Assign { var, rhs: Expr::Var(v), .. } if var == "x" && v == "a#7")),
        "return should bind `x = a#7`: {stmts:?}"
    );
}

#[test]
fn caller_local_of_same_name_is_not_clobbered() {
    let callee = CFG {
        entry: 0,
        blocks: vec![one_block(0, vec![let_("x", Expr::Lit(Prim::Int(9)))], Terminator::Return(Expr::Var("x".into())))],
        edges: vec![],
    };
    let rename = callee_rename_map(&callee, &[], 3);
    assert_eq!(lookup(&rename, "x"), Some("x#3"));
}

#[test]
fn every_callee_block_and_edge_is_spliced() {
    let callee = CFG {
        entry: 0,
        blocks: vec![
            one_block(0, vec![let_("a", Expr::Lit(Prim::Int(1)))], Terminator::Jump(1)),
            one_block(1, vec![let_("b", Expr::Lit(Prim::Int(2)))], Terminator::Return(Expr::Var("b".into()))),
        ],
        edges: vec![Edge { from: 0, to: 1, kind: EdgeKind::Unconditional }],
    };
    let rename = callee_rename_map(&callee, &[], 1);
    let mut caller = caller(vec![Stmt::ExprStmt(Expr::HookMarker(0, MarkerVal::Unknown), None)]);
    let before_blocks = caller.blocks.len();
    splice_callee_into_cfg(&mut caller, 0, 0, Splice { callee, params: &[], args: &[], bound_var: None, rename: &rename });
    assert_eq!(caller.blocks.len(), before_blocks + 3);
    let stmts = all_stmts(&caller);
    assert!(
        stmts.iter().any(|s| matches!(s, Stmt::Let { var, .. } if var == "b#1")),
        "the callee's NON-entry block must be spliced (multi-block FN): {stmts:?}"
    );
    assert!(!caller.edges.is_empty(), "spliced blocks must be wired into `edges`");
    assert!(caller.validate().is_ok(), "{:?}", caller.validate());
}

#[test]
fn params_bind_args_under_fresh_names() {
    let callee = CFG { entry: 0, blocks: vec![one_block(0, vec![], Terminator::Return(Expr::Var("p".into())))], edges: vec![] };
    let params = vec!["p".to_string()];
    let rename = callee_rename_map(&callee, &params, 2);
    let args = vec![Expr::Lit(Prim::Int(5))];
    let out = "out".to_string();
    let mut caller = caller(vec![let_("out", Expr::HookMarker(0, MarkerVal::Unknown))]);
    splice_callee_into_cfg(&mut caller, 0, 0, Splice { callee, params: &params, args: &args, bound_var: Some(&out), rename: &rename });
    let stmts = all_stmts(&caller);
    assert!(
        stmts.iter().any(|s| matches!(s, Stmt::Let { var, rhs: Expr::Lit(Prim::Int(5)), .. } if var == "p#2")),
        "param should bind `p#2 = 5`: {stmts:?}"
    );
}

#[test]
fn subst_vars_expr_descends_into_composites() {
    let subst = vec![("p".to_string(), Expr::Lit(Prim::Int(42)))];
    let expr = Expr::ObjectLit {
        id: ExprId(0),
        fields: vec![("k".to_string(), Expr::Call { fn_: Box::new(Expr::Var("f".into())), args: vec![Expr::Var("p".into())] })],
    };
    let out = subst_vars_expr(expr, &subst);
    let Expr::ObjectLit { fields, .. } = out else {
        panic!("expected ObjectLit");
    };
    let Expr::Call { args, .. } = &fields[0].1 else {
        panic!("expected Call");
    };
    assert!(matches!(&args[0], Expr::Lit(Prim::Int(42))), "param `p` nested in ObjectLit→Call must be substituted: {:?}", args[0]);
}

#[test]
fn rename_respects_fnlit_param_shadowing() {
    let ren = vec![("p".to_string(), "p#0".to_string())];
    let lambda = Expr::FnLit {
        id: ExprId(0),
        params: vec!["p".to_string()],
        body_cfg: Arc::new(CFG { entry: 0, blocks: vec![one_block(0, vec![], Terminator::Return(Expr::Var("p".into())))], edges: vec![] }),
    };
    let renamed = rename_vars_expr(lambda, &ren);
    let Expr::FnLit { body_cfg, .. } = renamed else {
        panic!("expected FnLit");
    };
    let ret = &body_cfg.blocks[0].term;
    assert!(matches!(ret, Terminator::Return(Expr::Var(v)) if v == "p"), "shadowed closure param `p` must NOT be renamed: {ret:?}");
}

#[test]
fn a_renamed_local_reads_back_as_its_source_name() {
    assert_eq!(source_name("a#7"), "a");
    assert_eq!(source_name("plain"), "plain");
    let ren = vec![("q".to_string(), "q#4".to_string())];
    match rename_vars_expr(Expr::Var("q".into()), &ren) {
        Expr::Var(v) => assert_eq!(v, "q#4"),
        other => panic!("expected Var, got {other:?}"),
    }
}
