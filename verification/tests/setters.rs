use lib::cfg::{BasicBlock, Edge, EdgeKind, Terminator, CFG};
use lib::expr::{Expr, MarkerVal, Prim};
use lib::seeds::{dedup_norm, effect_triggered, NormPath, SeedPath};
use lib::free_vars::AccessPath;
use lib::setters::{
    class_phase, get_label, hook_val_labels, memo_val_labels, resolve_setter_aliases, setter_var_labels, state_val_labels,
    InlineRegion, InlineRegions, Reachability, SetterCallPhase, Updater, WalkClass, WriterPhase, WriterRegion,
};
use lib::stmt::Stmt;

fn let_(var: &str, rhs: Expr) -> Stmt {
    Stmt::Let { var: var.to_string(), rhs, span: None }
}

fn body(stmts: Vec<Stmt>) -> CFG {
    CFG { entry: 0, blocks: vec![BasicBlock { id: 0, stmts, term: Terminator::Return(Expr::Lit(Prim::Unit)) }], edges: vec![] }
}

fn region(start: usize, end: usize, name: &str, parent: Option<usize>) -> InlineRegion {
    InlineRegion { start, end, name: name.to_string(), from: "/lib.ts".to_string(), parent }
}

fn path(root: &str, segs: &[&str]) -> AccessPath {
    AccessPath { root: root.to_string(), segments: segs.iter().map(|s| s.to_string()).collect() }
}

#[test]
fn phases_follow_the_walk_class_and_region() {
    assert_eq!(class_phase(WalkClass::Sync, WriterRegion::Effect(2)), WriterPhase::Effect);
    assert_eq!(class_phase(WalkClass::Sync, WriterRegion::Render), WriterPhase::Render);
    assert_eq!(class_phase(WalkClass::Deferred, WriterRegion::Render), WriterPhase::Deferred);
    assert_eq!(class_phase(WalkClass::Cleanup, WriterRegion::Effect(0)), WriterPhase::Cleanup);
    assert_eq!(class_phase(WalkClass::Unknown, WriterRegion::Memo(1)), WriterPhase::Unknown);
    assert_eq!(SetterCallPhase::from_class(WalkClass::Sync), SetterCallPhase::Sync);
    assert_eq!(SetterCallPhase::from_class(WalkClass::Handler), SetterCallPhase::Handler);
    assert_eq!(SetterCallPhase::from_class(WalkClass::Deferred), SetterCallPhase::Other);
    assert_eq!(WriterRegion::Callback(3).word(), "callback");
    assert_eq!(WriterRegion::Handler(3).sync_phase(), WriterPhase::Handler);
    assert!(effect_triggered(WriterPhase::Deferred));
    assert!(!effect_triggered(WriterPhase::Render));
    assert!(!Updater::Unknown.is_functional());
}

#[test]
fn binding_labels_read_the_hook_values_a_body_binds() {
    let cfg = body(vec![
        let_("count", Expr::StateVal(0)),
        let_("setCount", Expr::StateSetter(0)),
        let_("total", Expr::MemoVal(1)),
        let_("onClick", Expr::CallbackVal(2)),
        let_("data", Expr::HookMarker(3, MarkerVal::Unknown)),
        let_("other", Expr::Lit(Prim::Int(1))),
    ]);
    let setters = setter_var_labels(&cfg);
    assert_eq!(get_label(&setters, &"setCount".to_string()), Some(0));
    assert_eq!(get_label(&setters, &"count".to_string()), None);
    let states = state_val_labels(&cfg);
    assert_eq!(get_label(&states, &"count".to_string()), Some(0));
    let memos = memo_val_labels(&cfg);
    assert_eq!(get_label(&memos, &"total".to_string()), Some(1));
    assert_eq!(get_label(&memos, &"onClick".to_string()), Some(2));
    let hooks = hook_val_labels(&cfg);
    assert_eq!(get_label(&hooks, &"data".to_string()), Some(3));
    assert_eq!(get_label(&hooks, &"other".to_string()), None);
}

#[test]
fn aliases_of_a_setter_carry_its_label_through_chains() {
    let cfg = body(vec![
        let_("setA", Expr::StateSetter(4)),
        let_("alias2", Expr::Var("alias1".to_string())),
        let_("alias1", Expr::Var("setA".to_string())),
        let_("unrelated", Expr::Var("nope".to_string())),
    ]);
    let base = setter_var_labels(&cfg);
    let all = resolve_setter_aliases(&cfg, &base);
    assert_eq!(get_label(&all, &"setA".to_string()), Some(4));
    assert_eq!(get_label(&all, &"alias1".to_string()), Some(4));
    assert_eq!(get_label(&all, &"alias2".to_string()), Some(4));
    assert_eq!(get_label(&all, &"unrelated".to_string()), None);
}

#[test]
fn the_wrapper_chain_lists_the_nested_regions_outermost_first() {
    let regions = InlineRegions {
        render: vec![region(10, 12, "useOuter", None), region(12, 15, "useInner", Some(0))],
        bodies: vec![(7, vec![region(3, 5, "useBody", None)])],
        render_poisoned: false,
    };
    assert_eq!(regions.chain(None, 13), vec!["useOuter".to_string(), "useInner".to_string()]);
    assert_eq!(regions.chain(None, 11), vec!["useOuter".to_string()]);
    assert!(regions.chain(None, 25).is_empty());
    assert_eq!(regions.chain(Some(7), 4), vec!["useBody".to_string()]);
    assert!(regions.chain(Some(8), 4).is_empty());
}

#[test]
fn reachability_needs_at_least_one_edge() {
    let cfg = CFG {
        entry: 0,
        blocks: vec![
            BasicBlock { id: 0, stmts: vec![], term: Terminator::Jump(1) },
            BasicBlock { id: 1, stmts: vec![], term: Terminator::Jump(0) },
            BasicBlock { id: 2, stmts: vec![], term: Terminator::Return(Expr::Lit(Prim::Unit)) },
        ],
        edges: vec![Edge { from: 0, to: 1, kind: EdgeKind::Unconditional }, Edge { from: 1, to: 0, kind: EdgeKind::Back }],
    };
    let r = Reachability::of(&cfg);
    assert!(r.reaches(0, 1));
    assert!(r.reaches(0, 0), "a loop reaches its own head");
    assert!(!r.reaches(2, 2), "no edge leaves block 2");
    assert!(!r.reaches(0, 2));
}

#[test]
fn normalized_paths_sort_and_drop_repeats() {
    let v = vec![
        NormPath { path: path("p", &["b"]), exact: true },
        NormPath { path: path("p", &["a"]), exact: false },
        NormPath { path: path("p", &["b"]), exact: true },
    ];
    let out = dedup_norm(v);
    let shown: Vec<(String, bool)> = out.iter().map(|n| (n.path.display(), n.exact)).collect();
    assert_eq!(shown, vec![("p.a".to_string(), false), ("p.b".to_string(), true)]);
    let seed = SeedPath { orig: path("x", &[]), normalized: out };
    assert_eq!(seed.paths(), vec![path("p", &["a"]), path("p", &["b"])]);
}
