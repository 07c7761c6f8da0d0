use lib::cfg::{BasicBlock, Edge, EdgeKind, Terminator, CFG};
use lib::cfg_builder::CfgBuilder;
use lib::expr::{Expr, Prim};
use lib::function_cfg::{CfgEdge, CfgEdgeLabel, CfgNode, CfgNodeKind, FunctionCfg};
use lib::worklist::WorklistEngine;

fn block(id: usize, term: Terminator) -> BasicBlock {
    BasicBlock { id, stmts: vec![], term }
}

fn edge(from: usize, to: usize, kind: EdgeKind) -> Edge {
    Edge { from, to, kind }
}

fn loop_with_await() -> CFG {
    // 0 → 1 ⇢(await) 2 → 1 (back), 1 → 3
    CFG {
        entry: 0,
        blocks: vec![
            block(0, Terminator::Jump(1)),
            block(1, Terminator::Branch { cond: Expr::Var("c".into()), then_: 2, else_: 3, span: None }),
            block(2, Terminator::Jump(1)),
            block(3, Terminator::Return(Expr::Lit(Prim::Unit))),
            block(4, Terminator::Unreachable),
        ],
        edges: vec![
            edge(0, 1, EdgeKind::Unconditional),
            edge(1, 2, EdgeKind::Await),
            edge(2, 1, EdgeKind::Back),
            edge(1, 3, EdgeKind::IfFalse),
        ],
    }
}

#[test]
fn successors_and_predecessors_read_the_edge_list() {
    let cfg = loop_with_await();
    assert_eq!(cfg.successors(1), vec![2, 3]);
    let mut preds = cfg.predecessors(1);
    preds.sort();
    assert_eq!(preds, vec![0, 2]);
    assert!(cfg.successors(4).is_empty());
}

#[test]
fn reachable_blocks_follow_edges_from_the_entry() {
    let cfg = loop_with_await();
    let r = cfg.reachable_blocks();
    for b in [0, 1, 2, 3] {
        assert!(r.contains(&b));
    }
    assert!(!r.contains(&4));
}

#[test]
fn post_await_blocks_include_the_loop_head_a_suspension_returns_to() {
    let cfg = loop_with_await();
    let r = cfg.post_await_blocks();
    assert!(r.contains(&2));
    assert!(r.contains(&1));
    assert!(r.contains(&3));
    assert!(!r.contains(&0));
    let plain = CFG { entry: 0, blocks: vec![block(0, Terminator::Return(Expr::Lit(Prim::Unit)))], edges: vec![] };
    assert!(plain.post_await_blocks().is_empty());
}

#[test]
fn validate_rejects_a_dangling_edge_and_a_missing_entry() {
    assert!(loop_with_await().validate().is_ok());
    let mut bad = loop_with_await();
    bad.edges.push(edge(3, 9, EdgeKind::Unconditional));
    assert!(bad.validate().is_err());
    let headless = CFG { entry: 7, blocks: vec![block(0, Terminator::Unreachable)], edges: vec![] };
    assert!(headless.validate().is_err());
}

#[test]
fn an_empty_function_is_entry_then_exit() {
    let mut b = CfgBuilder::new();
    let f = b.build_empty_function();
    assert_eq!(f.entry, 0);
    assert_eq!(f.exit, 1);
    assert_eq!(f.nodes.len(), 2);
    assert_eq!(f.nodes[0].kind, CfgNodeKind::Entry);
    assert_eq!(f.nodes[1].kind, CfgNodeKind::Exit);
    assert_eq!(f.edges.len(), 1);
    assert_eq!((f.edges[0].from, f.edges[0].to, f.edges[0].label), (0, 1, CfgEdgeLabel::Normal));
    assert_eq!(f.successors(0), vec![(1, CfgEdgeLabel::Normal)]);
    assert!(f.successors(1).is_empty());
}

#[test]
fn reverse_post_order_starts_at_the_entry_and_indexes_each_node() {
    let node = |id: u32| CfgNode { id, kind: if id == 0 { CfgNodeKind::Entry } else { CfgNodeKind::Exit }, ast_node_id: None };
    let e = |from: u32, to: u32| CfgEdge { from, to, label: CfgEdgeLabel::Normal };
    let f = FunctionCfg { entry: 0, exit: 3, nodes: vec![node(0), node(1), node(2), node(3)], edges: vec![e(0, 1), e(0, 2), e(1, 3), e(2, 3)] };
    let engine = WorklistEngine::new(());
    let (rpo, index) = engine.compute_rpo(&f);
    assert_eq!(rpo.len(), 4);
    assert_eq!(rpo[0], 0);
    assert_eq!(*rpo.last().unwrap(), 3);
    for (i, n) in rpo.iter().enumerate() {
        assert_eq!(index[n], i);
    }
}
