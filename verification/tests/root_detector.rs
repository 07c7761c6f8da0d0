use lib::cfg::{BasicBlock, Terminator, CFG};
use lib::component::ComponentIR;
use lib::component_id::ComponentId;
use lib::component_registry::ComponentRegistry;
use lib::expr::{Expr, Prim};
use lib::root_detector::RootStrategy;

fn trivial_cfg() -> CFG {
    CFG { entry: 0, blocks: vec![BasicBlock { id: 0, stmts: vec![], term: Terminator::Return(Expr::Lit(Prim::Unit)) }], edges: vec![] }
}

fn component(name: &str) -> ComponentIR {
    ComponentIR {
        file: String::new(),
        name: name.to_string(),
        param: "props".to_string(),
        dom_props: vec![],
        render_cfg: trivial_cfg(),
        hooks: vec![],
        hook_provenance: vec![],
        module_consts: vec![],
    }
}

fn component_rendering_child(name: &str, child: &str) -> ComponentIR {
    let mut c = component(name);
    c.render_cfg = CFG {
        entry: 0,
        blocks: vec![BasicBlock {
            id: 0,
            stmts: vec![],
            term: Terminator::Return(Expr::CompApp { name: child.to_string(), props: Box::new(Expr::Lit(Prim::Null)), span: None }),
        }],
        edges: vec![],
    };
    c
}

fn registry(comps: Vec<ComponentIR>) -> ComponentRegistry {
    ComponentRegistry::from_components(comps)
}

fn names(reg: &ComponentRegistry, ids: &[ComponentId]) -> Vec<String> {
    let mut out: Vec<String> = ids.iter().filter_map(|id| reg.table().name(*id)).map(str::to_string).collect();
    out.sort();
    out
}

#[test]
fn heuristic_leaf_component_is_root() {
    let reg = registry(vec![component("App")]);
    let roots = RootStrategy::Heuristic.detect(&reg);
    assert_eq!(names(&reg, &roots), vec!["App".to_string()]);
}

#[test]
fn heuristic_child_not_root() {
    let reg = registry(vec![component_rendering_child("Parent", "Child"), component("Child")]);
    let roots = RootStrategy::Heuristic.detect(&reg);
    assert_eq!(names(&reg, &roots), vec!["Parent".to_string()]);
}

#[test]
fn heuristic_multiple_roots() {
    let reg = registry(vec![component_rendering_child("A", "B"), component("B"), component("C")]);
    let roots = RootStrategy::Heuristic.detect(&reg);
    assert_eq!(names(&reg, &roots), vec!["A".to_string(), "C".to_string()]);
}

#[test]
fn all_components_returns_everything() {
    let reg = registry(vec![component("X"), component("Y"), component("Z")]);
    let roots = RootStrategy::AllComponents.detect(&reg);
    assert_eq!(names(&reg, &roots), vec!["X".to_string(), "Y".to_string(), "Z".to_string()]);
}

#[test]
fn explicit_returns_named() {
    let reg = registry(vec![component("A"), component("B"), component("C")]);
    let roots = RootStrategy::Explicit(vec!["B".to_string()]).detect(&reg);
    assert_eq!(names(&reg, &roots), vec!["B".to_string()]);
    assert!(RootStrategy::Explicit(vec!["B".to_string()]).unmatched(&reg).is_empty());
}

#[test]
fn explicit_reports_a_name_that_matches_nothing() {
    let reg = registry(vec![component("A")]);
    let strategy = RootStrategy::Explicit(vec!["A".to_string(), "Nope".to_string()]);
    assert_eq!(strategy.unmatched(&reg), vec!["Nope".to_string()]);
    assert_eq!(names(&reg, &strategy.detect(&reg)), vec!["A".to_string()]);
}

#[test]
fn explicit_accepts_the_qualified_display_name() {
    let mut a = component("Widget");
    a.file = "a/Widget.tsx".to_string();
    let mut b = component("Widget");
    b.file = "b/Widget.tsx".to_string();
    let reg = registry(vec![a, b]);
    let key = ("a/Widget.tsx".to_string(), "Widget".to_string());
    let display = reg.table().display_name(reg.id(&key).unwrap()).unwrap();
    let strategy = RootStrategy::Explicit(vec![display]);
    assert!(strategy.unmatched(&reg).is_empty());
    assert_eq!(strategy.detect(&reg), vec![reg.id(&key).unwrap()]);
    assert_eq!(
        RootStrategy::Explicit(vec!["Widget@nowhere.tsx".to_string()]).unmatched(&reg),
        vec!["Widget@nowhere.tsx".to_string()],
        "a qualified name pointing at no file must not pass silently"
    );
}

#[test]
fn heuristic_no_components_returns_empty() {
    let reg = registry(vec![]);
    assert!(RootStrategy::Heuristic.detect(&reg).is_empty());
}

#[test]
fn a_component_rendered_inside_a_function_literal_is_no_root() {
    let inner = CFG {
        entry: 0,
        blocks: vec![BasicBlock {
            id: 0,
            stmts: vec![],
            term: Terminator::Return(Expr::CompApp { name: "Row".to_string(), props: Box::new(Expr::Lit(Prim::Null)), span: None }),
        }],
        edges: vec![],
    };
    let mut list = component("List");
    list.render_cfg = CFG {
        entry: 0,
        blocks: vec![BasicBlock {
            id: 0,
            stmts: vec![],
            term: Terminator::Return(Expr::FnLit { id: lib::types::ExprId(0), params: vec![], body_cfg: std::sync::Arc::new(inner) }),
        }],
        edges: vec![],
    };
    let reg = registry(vec![list, component("Row")]);
    assert_eq!(names(&reg, &RootStrategy::Heuristic.detect(&reg)), vec!["List".to_string()]);
    let both = RootStrategy::Explicit(vec!["Row".to_string(), "List".to_string(), "Row".to_string()]).detect(&reg);
    assert_eq!(both.len(), 2);
    assert!(both[0] < both[1]);
}
