use lib::cfg::{BasicBlock, Terminator, CFG};
use lib::component::{ComponentIR, HookIR};
use lib::expr::{Expr, Prim};
use lib::hooks::{DepsArg, HookEntry};
use lib::stmt::Stmt;
use lib::symbol_graph::{SymbolGraph, SymbolKind, SymbolNode};

fn cfg_calling(callees: &[&str]) -> CFG {
    let stmts = callees
        .iter()
        .map(|c| Stmt::ExprStmt(Expr::Call { fn_: Box::new(Expr::Var((*c).to_string())), args: vec![] }, None))
        .collect();
    CFG { entry: 0, blocks: vec![BasicBlock { id: 0, stmts, term: Terminator::Return(Expr::Lit(Prim::Unit)) }], edges: vec![] }
}

fn comp(name: &str, file: &str, callees: &[&str]) -> ComponentIR {
    ComponentIR {
        file: file.to_string(),
        name: name.to_string(),
        param: "props".to_string(),
        dom_props: vec![],
        render_cfg: cfg_calling(callees),
        hooks: vec![],
        hook_provenance: vec![],
        module_consts: vec![],
    }
}

fn hook(name: &str, file: &str, callees: &[&str]) -> HookIR {
    HookIR { file: file.to_string(), name: name.to_string(), params: vec![], body_cfg: cfg_calling(callees), hooks: vec![], hook_provenance: vec![] }
}

fn names(nodes: &[SymbolNode]) -> Vec<String> {
    nodes.iter().map(|n| n.name.clone()).collect()
}

#[test]
fn topo_sort_chain_emits_leaves_first() {
    let components = vec![comp("A", "/a.tsx", &["B"]), comp("B", "/a.tsx", &["C"]), comp("C", "/a.tsx", &[])];
    let graph = SymbolGraph::build(&components, &[]);
    let order = names(&graph.topo_sort());
    assert_eq!(order, vec!["C", "B", "A"]);
}

#[test]
fn topo_sort_cycle_does_not_crash() {
    let components = vec![comp("A", "/a.tsx", &["B"]), comp("B", "/a.tsx", &["A"])];
    let graph = SymbolGraph::build(&components, &[]);
    let names = names(&graph.topo_sort());
    assert_eq!(names.len(), 2);
    assert!(names.contains(&"A".to_string()));
    assert!(names.contains(&"B".to_string()));
}

#[test]
fn same_name_in_different_files_are_distinct_nodes() {
    let components = vec![comp("Page", "/users/page.tsx", &[]), comp("Page", "/posts/page.tsx", &[])];
    let graph = SymbolGraph::build(&components, &[]);
    assert_eq!(graph.nodes().len(), 2);
    assert!(graph.topo_sort().len() == 2);
}

#[test]
fn hook_with_resolved_file_edges_precisely() {
    let h_a = hook("useData", "/lib/a.ts", &[]);
    let h_b = hook("useData", "/lib/b.ts", &[]);
    let mut caller = comp("Page", "/page.tsx", &[]);
    caller.hooks = vec![HookEntry::Custom {
        label: 0,
        name: "useData".to_string(),
        args: vec![],
        deps: DepsArg::Absent,
        binding: None,
        import_source: None,
        resolved_file: Some("/lib/b.ts".to_string()),
        span: None,
    }];
    let graph = SymbolGraph::build(&[caller], &[h_a, h_b]);
    let caller_node = SymbolNode::new("/page.tsx".to_string(), "Page".to_string(), SymbolKind::Component);
    let callees = graph.callees_of(&caller_node);
    assert_eq!(callees.len(), 1);
    assert_eq!(callees[0].file, "/lib/b.ts".to_string());
}

#[test]
fn a_name_resolves_to_the_callers_own_file_first() {
    let components = vec![
        comp("Page", "/b.tsx", &["Item"]),
        comp("Item", "/a.tsx", &[]),
        comp("Item", "/b.tsx", &[]),
    ];
    let graph = SymbolGraph::build(&components, &[]);
    let caller = SymbolNode::new("/b.tsx".to_string(), "Page".to_string(), SymbolKind::Component);
    let callees = graph.callees_of(&caller);
    assert_eq!(callees.len(), 1);
    assert_eq!(callees[0].file, "/b.tsx".to_string());
    let other = SymbolNode::new("/c.tsx".to_string(), "Page".to_string(), SymbolKind::Component);
    assert!(graph.callees_of(&other).is_empty());
}

#[test]
fn callee_lists_are_sorted_and_deduplicated_and_skip_self_calls() {
    let components = vec![
        comp("App", "/app.tsx", &["Zed", "Alpha", "Zed", "App"]),
        comp("Zed", "/app.tsx", &[]),
        comp("Alpha", "/app.tsx", &[]),
    ];
    let graph = SymbolGraph::build(&components, &[]);
    let app = SymbolNode::new("/app.tsx".to_string(), "App".to_string(), SymbolKind::Component);
    assert_eq!(names(&graph.callees_of(&app)), vec!["Alpha", "Zed"]);
}

#[test]
fn a_diamond_sorts_callees_before_callers_and_cycle_remnants_ascend() {
    let components = vec![
        comp("Top", "/t.tsx", &["Left", "Right"]),
        comp("Left", "/t.tsx", &["Base"]),
        comp("Right", "/t.tsx", &["Base"]),
        comp("Base", "/t.tsx", &[]),
    ];
    let graph = SymbolGraph::build(&components, &[]);
    let order = names(&graph.topo_sort());
    let pos = |n: &str| order.iter().position(|x| x == n).unwrap();
    assert!(pos("Base") < pos("Left") && pos("Base") < pos("Right"));
    assert!(pos("Left") < pos("Top") && pos("Right") < pos("Top"));
    let cyclic = vec![comp("Y", "/c.tsx", &["X"]), comp("X", "/c.tsx", &["Y"]), comp("Leaf", "/c.tsx", &[])];
    let order = names(&SymbolGraph::build(&cyclic, &[]).topo_sort());
    assert_eq!(order, vec!["Leaf", "X", "Y"]);
}

#[test]
fn an_empty_batch_has_no_nodes() {
    let graph = SymbolGraph::build(&[], &[]);
    assert!(graph.nodes().is_empty());
    assert!(graph.topo_sort().is_empty());
    assert!(SymbolGraph::new().nodes().is_empty());
}
