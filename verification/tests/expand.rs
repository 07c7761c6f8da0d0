use lib::analysis_result::{InlineKind, InlineOrigin};
use lib::cfg::{BasicBlock, Terminator, CFG};
use lib::component::HookIR;
use lib::expand::expand_custom_hooks;
use lib::expr::{Expr, MarkerVal, Prim, SummaryValue};
use lib::hook_registry::HookRegistry;
use lib::hooks::{DepsArg, HookEntry};
use lib::stmt::Stmt;

fn custom(label: usize, name: &str, args: Vec<Expr>) -> HookEntry {
    HookEntry::Custom {
        label,
        name: name.to_string(),
        args,
        deps: DepsArg::Absent,
        binding: Some("v".to_string()),
        import_source: None,
        resolved_file: None,
        span: None,
    }
}

fn render_with_marker(label: usize) -> CFG {
    CFG {
        entry: 0,
        blocks: vec![BasicBlock {
            id: 0,
            stmts: vec![Stmt::Let { var: "v".to_string(), rhs: Expr::HookMarker(label, MarkerVal::Unknown), span: None }],
            term: Terminator::Return(Expr::Var("v".to_string())),
        }],
        edges: vec![],
    }
}

fn counter_hook(inner: Vec<HookEntry>) -> HookIR {
    HookIR {
        file: "/src/hooks.ts".to_string(),
        name: "useCounter".to_string(),
        params: vec!["start".to_string()],
        body_cfg: CFG {
            entry: 0,
            blocks: vec![BasicBlock {
                id: 0,
                stmts: vec![Stmt::Let { var: "n".to_string(), rhs: Expr::StateVal(0), span: None }],
                term: Terminator::Return(Expr::Var("n".to_string())),
            }],
            edges: vec![],
        },
        hooks: inner,
        hook_provenance: vec![],
    }
}

#[test]
fn a_registered_hook_is_replaced_by_its_relabelled_entries() {
    let state = HookEntry::State { label: 0, init: Expr::Var("start".to_string()), span: None };
    let registry = HookRegistry::from_hooks(vec![counter_hook(vec![state])]);
    let mut hooks = vec![custom(2, "useCounter", vec![Expr::Lit(Prim::Int(5))])];
    let mut cfg = render_with_marker(2);
    let mut origins: Vec<InlineOrigin> = Vec::new();
    let mut salt: u32 = 4;
    expand_custom_hooks(&mut hooks, &mut cfg, &registry, &vec![], &mut origins, &mut salt);

    assert_eq!(hooks.len(), 1);
    match &hooks[0] {
        HookEntry::State { label, init, .. } => {
            assert_eq!(*label, 3, "relabelled past the highest label of the table");
            assert!(matches!(init, Expr::Lit(Prim::Int(5))), "the argument is substituted into the init: {init:?}");
        },
        other => panic!("expected the imported state entry, got {other:?}"),
    }
    assert_eq!(origins, vec![InlineOrigin { name: "useCounter".to_string(), from: "/src/hooks.ts".to_string(), kind: InlineKind::Hook }]);
    assert_eq!(salt, 5);
    assert_eq!(cfg.blocks.len(), 3, "call block, one grafted block, one join block");
    let text = format!("{cfg:?}");
    assert!(text.contains("StateVal(3)"), "the spliced body reads the relabelled slot: {text}");
    assert!(!text.contains("HookMarker(2"), "the call's marker is gone: {text}");
}

#[test]
fn an_unknown_hook_with_a_summary_keeps_its_entry_and_retags_its_marker() {
    let registry = HookRegistry::from_hooks(vec![]);
    let mut hooks = vec![custom(0, "useAtom", vec![])];
    let mut cfg = render_with_marker(0);
    let mut origins: Vec<InlineOrigin> = Vec::new();
    let mut salt: u32 = 0;
    let summaries = vec![("useAtom".to_string(), None, SummaryValue::StableRef)];
    expand_custom_hooks(&mut hooks, &mut cfg, &registry, &summaries, &mut origins, &mut salt);
    assert_eq!(hooks.len(), 1);
    assert!(matches!(&hooks[0], HookEntry::Custom { name, .. } if name == "useAtom"));
    assert!(origins.is_empty());
    assert_eq!(salt, 0);
    match &cfg.blocks[0].stmts[0] {
        Stmt::Let { rhs: Expr::HookMarker(0, MarkerVal::Summary(SummaryValue::StableRef)), .. } => {},
        other => panic!("expected a retagged marker, got {other:?}"),
    }
}

#[test]
fn an_unknown_hook_without_a_summary_is_left_alone() {
    let registry = HookRegistry::from_hooks(vec![]);
    let mut hooks = vec![custom(0, "useAtom", vec![])];
    let mut cfg = render_with_marker(0);
    let before = format!("{cfg:?}");
    let mut origins: Vec<InlineOrigin> = Vec::new();
    let mut salt: u32 = 0;
    let summaries = vec![("useAtom".to_string(), Some("jotai".to_string()), SummaryValue::StableRef)];
    expand_custom_hooks(&mut hooks, &mut cfg, &registry, &summaries, &mut origins, &mut salt);
    assert_eq!(format!("{cfg:?}"), before, "the summary is for another import source");
    assert_eq!(hooks.len(), 1);
}

#[test]
fn a_self_recursive_hook_expands_once() {
    let inner = custom(0, "useCounter", vec![]);
    let registry = HookRegistry::from_hooks(vec![counter_hook(vec![inner])]);
    let mut hooks = vec![custom(0, "useCounter", vec![])];
    let mut cfg = render_with_marker(0);
    let mut origins: Vec<InlineOrigin> = Vec::new();
    let mut salt: u32 = 0;
    expand_custom_hooks(&mut hooks, &mut cfg, &registry, &vec![], &mut origins, &mut salt);
    assert_eq!(origins.len(), 1, "the inner call of the same hook stays opaque");
    assert_eq!(hooks.len(), 1);
    assert!(matches!(&hooks[0], HookEntry::Custom { label: 1, name, .. } if name == "useCounter"));
}
