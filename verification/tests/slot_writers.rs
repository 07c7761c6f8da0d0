use lib::cfg::{BasicBlock, Terminator, CFG};
use lib::expr::{Expr, Prim};
use lib::hooks::{DepsArg, HookEntry};
use lib::setters::{InlineRegions, WriteProvenance, WriterPhase, WriterRegion};
use lib::slot_writers::collect_slot_writers;
use lib::source_range::{FileId, SourceRange};
use lib::stmt::Stmt;

fn cfg(stmts: Vec<Stmt>) -> CFG {
    CFG { entry: 0, blocks: vec![BasicBlock { id: 0, stmts, term: Terminator::Return(Expr::Lit(Prim::Unit)) }], edges: vec![] }
}

fn at(line: u32) -> Option<SourceRange> {
    Some(SourceRange { file: FileId(0), line, col: 0 })
}

fn call(callee: &str, args: Vec<Expr>, line: u32) -> Stmt {
    Stmt::ExprStmt(Expr::Call { fn_: Box::new(Expr::Var(callee.to_string())), args }, at(line))
}

fn no_regions(poisoned: bool) -> InlineRegions {
    InlineRegions { render: vec![], bodies: vec![], render_poisoned: poisoned }
}

#[test]
fn writes_in_render_and_an_effect_are_rows_sorted_by_region() {
    let render = cfg(vec![
        Stmt::Let { var: "setN".to_string(), rhs: Expr::StateSetter(0), span: None },
        Stmt::Let { var: "set2".to_string(), rhs: Expr::Var("setN".to_string()), span: None },
        call("setN", vec![Expr::Lit(Prim::Int(1))], 3),
    ]);
    let hooks = vec![HookEntry::Effect {
        label: 1,
        body_cfg: cfg(vec![call("set2", vec![Expr::Lit(Prim::Int(2))], 5)]),
        deps: DepsArg::Absent,
        span: None,
    }];
    let rows = collect_slot_writers(&render, &hooks, &no_regions(false), &vec![]);
    assert_eq!(rows.len(), 2);
    assert_eq!(rows[0].slot, 0);
    assert_eq!(rows[0].setter, "setN");
    assert_eq!(rows[0].region, WriterRegion::Render);
    assert_eq!(rows[0].phase, WriterPhase::Render);
    assert_eq!(rows[0].via, WriteProvenance::Direct);
    assert_eq!(rows[1].slot, 0);
    assert_eq!(rows[1].setter, "set2");
    assert_eq!(rows[1].region, WriterRegion::Effect(1));
    assert_eq!(rows[1].phase, WriterPhase::Effect);
    assert_eq!(rows[1].span, at(5));
}

#[test]
fn a_poisoned_render_body_never_gives_direct() {
    let render = cfg(vec![
        Stmt::Let { var: "setN".to_string(), rhs: Expr::StateSetter(0), span: None },
        call("setN", vec![Expr::Lit(Prim::Int(1))], 3),
    ]);
    let rows = collect_slot_writers(&render, &vec![], &no_regions(true), &vec![]);
    assert_eq!(rows.len(), 1);
    assert_eq!(rows[0].via, WriteProvenance::Unknown);
}

#[test]
fn a_helper_called_twice_is_one_repeating_row() {
    let helper = Expr::FnLit { id: lib::types::ExprId(0), params: vec![], body_cfg: std::sync::Arc::new(cfg(vec![call("setN", vec![], 7)])) };
    let render = cfg(vec![
        Stmt::Let { var: "setN".to_string(), rhs: Expr::StateSetter(0), span: None },
        Stmt::Let { var: "bump".to_string(), rhs: helper, span: None },
        call("bump", vec![], 8),
        call("bump", vec![], 9),
    ]);
    let rows = collect_slot_writers(&render, &vec![], &no_regions(false), &vec![]);
    assert_eq!(rows.len(), 1);
    assert_eq!(rows[0].span, at(7));
    assert!(rows[0].same_tick);
}
