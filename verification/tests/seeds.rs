use lib::bindings::local_bindings;
use lib::cfg::{BasicBlock, Terminator, CFG};
use lib::expr::{BinOp, Expr, Prim};
use lib::free_vars::AccessPath;
use lib::seeds::normalize_to_prop;
use lib::stmt::Stmt;
use lib::types::ExprId;

fn single_block_cfg(stmts: Vec<Stmt>) -> CFG {
    CFG { entry: 0, blocks: vec![BasicBlock { id: 0, stmts, term: Terminator::Return(Expr::Lit(Prim::Unit)) }], edges: vec![] }
}

fn let_(var: &str, rhs: Expr) -> Stmt {
    Stmt::Let { var: var.to_string(), rhs, span: None }
}

fn field(obj: &str, f: &str) -> Expr {
    Expr::FieldAccess { obj: Box::new(Expr::Var(obj.to_string())), field: f.to_string() }
}

fn path(root: &str, segs: &[&str]) -> AccessPath {
    AccessPath { root: root.to_string(), segments: segs.iter().map(|s| s.to_string()).collect() }
}

/// `function C({ seed, other }) { const opts = { seed, other }; … }`: the
/// destructuring preamble plus the literal that re-packs it.
fn destructured_then_repacked() -> CFG {
    single_block_cfg(vec![
        let_("__obj", Expr::Var("__p0".to_string())),
        let_("seed", field("__obj", "seed")),
        let_("other", field("__obj", "other")),
        let_(
            "opts",
            Expr::ObjectLit {
                id: ExprId(0),
                fields: vec![
                    ("seed".to_string(), Expr::Var("seed".to_string())),
                    ("other".to_string(), Expr::Var("other".to_string())),
                ],
            },
        ),
    ])
}

fn chase(cfg: &CFG, p: AccessPath) -> Vec<(String, bool)> {
    let bindings = local_bindings(cfg);
    normalize_to_prop(&p, &"__p0".to_string(), &bindings, &Vec::new())
        .into_iter()
        .map(|n| (n.path.display(), n.exact))
        .collect()
}

#[test]
fn a_literal_member_resolves_to_that_member_alone() {
    let cfg = destructured_then_repacked();
    assert_eq!(chase(&cfg, path("opts", &["seed"])), vec![("__p0.seed".to_string(), true)]);
    assert_eq!(chase(&cfg, path("opts", &["other"])), vec![("__p0.other".to_string(), true)]);
}

#[test]
fn a_member_a_spread_may_have_overwritten_is_not_resolved() {
    let cfg = single_block_cfg(vec![
        let_("__obj", Expr::Var("__p0".to_string())),
        let_("seed", field("__obj", "seed")),
        let_("rest", Expr::Var("__obj".to_string())),
        let_(
            "opts",
            Expr::ObjectLit {
                id: ExprId(0),
                fields: vec![
                    ("seed".to_string(), Expr::Var("seed".to_string())),
                    (format!("{}0", lib::expr::SPREAD_KEY_PREFIX), Expr::Var("rest".to_string())),
                ],
            },
        ),
    ]);
    let got = chase(&cfg, path("opts", &["seed"]));
    assert!(got.iter().all(|(_, exact)| !exact), "a member behind a spread cannot be claimed exact: {got:?}");
}

#[test]
fn sibling_branches_of_a_widened_chase_all_survive() {
    let mut cfg = destructured_then_repacked();
    cfg.blocks[0].stmts.push(let_(
        "key",
        Expr::BinOp {
            op: BinOp::Add,
            lhs: Box::new(Expr::Var("seed".to_string())),
            rhs: Box::new(Expr::Var("other".to_string())),
        },
    ));
    assert_eq!(
        chase(&cfg, path("key", &[])),
        vec![("__p0.other".to_string(), false), ("__p0.seed".to_string(), false)],
        "both widened branches must survive, in a stable order"
    );
}

#[test]
fn a_self_referential_binding_still_terminates() {
    let cfg = single_block_cfg(vec![let_("a", field("a", "b"))]);
    assert!(chase(&cfg, path("a", &[])).is_empty());
}

#[test]
fn a_plain_alias_chain_stays_exact() {
    let cfg = single_block_cfg(vec![
        let_("__obj", Expr::Var("__p0".to_string())),
        let_("value", field("__obj", "value")),
        let_("alias", Expr::Var("value".to_string())),
    ]);
    assert_eq!(chase(&cfg, path("alias", &["deep"])), vec![("__p0.value.deep".to_string(), true)]);
}

#[test]
fn a_multi_write_binding_is_not_chased() {
    let cfg = single_block_cfg(vec![
        let_("__obj", Expr::Var("__p0".to_string())),
        let_("v", field("__obj", "a")),
        let_("v", Expr::Lit(Prim::Int(1))),
    ]);
    assert!(chase(&cfg, path("v", &[])).is_empty());
}

use lib::analysis_result::{EffectInfo, HookKind};
use lib::hooks::{DepsArg, DepsList, HookEntry};
use lib::seeds::{collect_slot_seeds, SeedSync};
use lib::setters::{SlotWriter, Updater, WriteProvenance, WriterPhase, WriterRegion};

fn props_value() -> Expr {
    field("props", "value")
}

fn state_hook(init: Expr) -> HookEntry {
    HookEntry::State { label: 0, init, span: None }
}

fn writer(region: WriterRegion, phase: WriterPhase) -> SlotWriter {
    SlotWriter {
        slot: 0,
        setter: "setV".to_string(),
        span: None,
        region,
        phase,
        via: WriteProvenance::Direct,
        updater: Updater::Unknown,
        same_tick: false,
    }
}

fn effect(deps: DepsArg) -> EffectInfo {
    EffectInfo { label: 1, kind: HookKind::Effect, free_paths: vec![], deps, span: None }
}

fn rows(render: &CFG, init: Expr, writers: Vec<SlotWriter>, infos: Vec<EffectInfo>) -> Vec<(String, Vec<String>, SeedSync, bool)> {
    let hooks = vec![state_hook(init)];
    let labels = vec![("setV".to_string(), 0usize)];
    collect_slot_seeds(render, &hooks, &"props".to_string(), &labels, &writers, &infos)
        .into_iter()
        .map(|r| (r.path.display(), r.normalized.iter().map(|p| p.display()).collect(), r.sync, r.setter_escapes))
        .collect()
}

#[test]
fn a_prop_seeded_slot_without_a_sync_is_reported_unsynced() {
    let render = single_block_cfg(vec![]);
    assert_eq!(
        rows(&render, props_value(), vec![], vec![]),
        vec![("props.value".to_string(), vec!["props.value".to_string()], SeedSync::NoneSeen, false)]
    );
}

#[test]
fn an_initializer_reading_no_prop_has_no_row() {
    let render = single_block_cfg(vec![let_("local", Expr::Lit(Prim::Int(3)))]);
    assert!(rows(&render, Expr::Var("local".to_string()), vec![], vec![]).is_empty());
}

#[test]
fn an_effect_whose_deps_cover_the_seed_syncs_it() {
    let render = single_block_cfg(vec![let_("value", props_value())]);
    let w = vec![writer(WriterRegion::Effect(1), WriterPhase::Effect)];
    let covering = effect(DepsArg::List(DepsList::exact(vec![Expr::Var("value".to_string())])));
    let got = rows(&render, Expr::Var("value".to_string()), w.clone(), vec![covering]);
    assert_eq!(got.len(), 1);
    assert_eq!(got[0].0, "value");
    assert_eq!(got[0].1, vec!["props.value".to_string()]);
    assert_eq!(got[0].2, SeedSync::Synced);

    let other = effect(DepsArg::List(DepsList::exact(vec![field("props", "other")])));
    assert_eq!(rows(&render, Expr::Var("value".to_string()), w.clone(), vec![other])[0].2, SeedSync::NoneSeen);
    assert_eq!(rows(&render, Expr::Var("value".to_string()), w.clone(), vec![effect(DepsArg::Opaque)])[0].2, SeedSync::NoneSeen);
    assert_eq!(rows(&render, Expr::Var("value".to_string()), w, vec![effect(DepsArg::Absent)])[0].2, SeedSync::Synced);
}

#[test]
fn a_handler_or_unknown_phase_write_does_not_sync() {
    let render = single_block_cfg(vec![]);
    let w = vec![writer(WriterRegion::Effect(1), WriterPhase::Unknown), writer(WriterRegion::Handler(2), WriterPhase::Handler)];
    assert_eq!(rows(&render, props_value(), w, vec![effect(DepsArg::Absent)])[0].2, SeedSync::NoneSeen);
    let r = vec![writer(WriterRegion::Render, WriterPhase::Render)];
    assert_eq!(rows(&render, props_value(), r, vec![])[0].2, SeedSync::Synced);
}

#[test]
fn a_setter_handed_to_a_callee_escapes_but_a_direct_call_does_not() {
    let call = |callee: &str, args: Vec<Expr>| Expr::Call { fn_: Box::new(Expr::Var(callee.to_string())), args };
    let direct = single_block_cfg(vec![Stmt::ExprStmt(call("setV", vec![Expr::Lit(Prim::Int(1))]), None)]);
    assert!(!rows(&direct, props_value(), vec![], vec![])[0].3);
    let handed = single_block_cfg(vec![Stmt::ExprStmt(call("subscribe", vec![Expr::Var("setV".to_string())]), None)]);
    assert!(rows(&handed, props_value(), vec![], vec![])[0].3);
    let alias = single_block_cfg(vec![let_("setV", Expr::Var("setV".to_string()))]);
    assert!(!rows(&alias, props_value(), vec![], vec![])[0].3);
}

#[test]
fn seed_rows_are_ordered_by_displayed_path() {
    let render = single_block_cfg(vec![]);
    let init = Expr::BinOp { op: BinOp::Add, lhs: Box::new(field("props", "zeta")), rhs: Box::new(field("props", "alpha")) };
    let got: Vec<String> = rows(&render, init, vec![], vec![]).into_iter().map(|r| r.0).collect();
    assert_eq!(got, vec!["props.alpha".to_string(), "props.zeta".to_string()]);
}
