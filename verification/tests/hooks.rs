use lib::analysis_result::{EffectInfo, HookKind};
use lib::cfg::{BasicBlock, Terminator, CFG};
use lib::expr::{Expr, Prim};
use lib::hooks::{Arity, DepsArg, DepsList, HookEntry};
use lib::types::ExprId;

fn var(v: &str) -> Expr {
    Expr::Var(v.to_string())
}

fn unit_cfg() -> CFG {
    CFG { entry: 0, blocks: vec![BasicBlock { id: 0, stmts: vec![], term: Terminator::Return(Expr::Lit(Prim::Unit)) }], edges: vec![] }
}

#[test]
fn arity_bounds_what_a_list_may_hold() {
    assert_eq!(Arity::Exact(2).exact(), Some(2));
    assert_eq!(Arity::AtLeast(2).exact(), None);
    assert_eq!(Arity::Exact(3).at_least(), 3);
    assert_eq!(Arity::AtLeast(1).at_least(), 1);
    assert!(Arity::Exact(2).may_be(2));
    assert!(!Arity::Exact(2).may_be(3));
    assert!(Arity::AtLeast(2).may_be(5));
    assert!(!Arity::AtLeast(2).may_be(1));
}

#[test]
fn a_spread_source_does_not_cover_a_read() {
    let list = DepsList { elems: vec![var("a"), var("rows"), var("b")], arity: Arity::AtLeast(2), spread_at: vec![1] };
    let covering: Vec<String> = list.covering().iter().map(|e| format!("{e:?}")).collect();
    assert_eq!(covering, vec![format!("{:?}", var("a")), format!("{:?}", var("b"))]);
    assert!(!list.is_whole());
    assert_eq!(list.len(), 3);
    let exact = DepsList::exact(vec![var("x")]);
    assert!(exact.is_whole());
    assert_eq!(exact.arity, Arity::Exact(1));
    assert_eq!(exact.as_slice().len(), 1);
    assert!(!exact.is_empty());
}

#[test]
fn deps_arguments_read_array_literals_only() {
    let lit = Expr::TSAnnotated(Box::new(Expr::ArrayLit { id: ExprId(1), elems: vec![var("a")], arity: Arity::Exact(1), spread_at: vec![] }));
    let d = DepsArg::from_expr(lit);
    assert!(matches!(d.list(), Some(l) if l.elems.len() == 1 && l.arity == Arity::Exact(1)));
    assert_eq!(d.covering().len(), 1);
    assert!(d.is_declared());
    let opaque = DepsArg::from_expr(var("deps"));
    assert!(matches!(opaque, DepsArg::Opaque));
    assert!(opaque.is_declared());
    assert!(opaque.list().is_none());
    assert!(opaque.covering().is_empty());
    assert!(!DepsArg::Absent.is_declared());
}

#[test]
fn a_hook_entry_reports_its_label_span_and_body() {
    let eff = HookEntry::Effect { label: 4, body_cfg: unit_cfg(), deps: DepsArg::Absent, span: None };
    assert_eq!(eff.label(), 4);
    assert!(eff.span().is_none());
    assert!(eff.body_cfg().is_some());
    let st = HookEntry::State { label: 1, init: Expr::Lit(Prim::Int(0)), span: None };
    assert_eq!(st.label(), 1);
    assert!(st.body_cfg().is_none());
}

#[test]
fn effect_info_reads_its_deps_argument() {
    let listed = EffectInfo {
        label: 0,
        kind: HookKind::Effect,
        free_paths: vec![],
        deps: DepsArg::List(DepsList { elems: vec![var("a"), var("b")], arity: Arity::AtLeast(2), spread_at: vec![] }),
        span: None,
    };
    assert!(listed.has_deps_array());
    assert!(!listed.deps_are_opaque());
    assert_eq!(listed.deps_arity(), None);
    assert_eq!(listed.deps_at_least(), Some(2));
    let none = EffectInfo { label: 1, kind: HookKind::Effect, free_paths: vec![], deps: DepsArg::Absent, span: None };
    assert!(!none.has_deps_array());
    assert_eq!(none.deps_arity(), None);
    assert_eq!(none.deps_at_least(), None);
    let opaque = EffectInfo { label: 2, kind: HookKind::Memo, free_paths: vec![], deps: DepsArg::Opaque, span: None };
    assert!(opaque.deps_are_opaque());
    assert!(opaque.has_deps_array());
}
