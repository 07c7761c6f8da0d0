use std::collections::HashSet;

use lib::cfg::{BasicBlock, Edge, EdgeKind, Terminator, CFG};
use lib::dominance::{compute_dominators, dominates, rpo};
use lib::expr::{Expr, Prim};

fn linear_cfg() -> CFG {
    // 0 → 1 → 2
    CFG {
        entry: 0,
        blocks: vec![
            BasicBlock { id: 0, stmts: vec![], term: Terminator::Jump(1) },
            BasicBlock { id: 1, stmts: vec![], term: Terminator::Jump(2) },
            BasicBlock { id: 2, stmts: vec![], term: Terminator::Return(Expr::Lit(Prim::Unit)) },
        ],
        edges: vec![
            Edge { from: 0, to: 1, kind: EdgeKind::Unconditional },
            Edge { from: 1, to: 2, kind: EdgeKind::Unconditional },
        ],
    }
}

fn diamond_cfg() -> CFG {
    // 0 → {1, 2}, 1 → 3, 2 → 3
    CFG {
        entry: 0,
        blocks: vec![
            BasicBlock {
                id: 0,
                stmts: vec![],
                term: Terminator::Branch { cond: Expr::Lit(Prim::Bool(true)), then_: 1, else_: 2, span: None },
            },
            BasicBlock { id: 1, stmts: vec![], term: Terminator::Jump(3) },
            BasicBlock { id: 2, stmts: vec![], term: Terminator::Jump(3) },
            BasicBlock { id: 3, stmts: vec![], term: Terminator::Return(Expr::Lit(Prim::Unit)) },
        ],
        edges: vec![
            Edge { from: 0, to: 1, kind: EdgeKind::IfTrue },
            Edge { from: 0, to: 2, kind: EdgeKind::IfFalse },
            Edge { from: 1, to: 3, kind: EdgeKind::Unconditional },
            Edge { from: 2, to: 3, kind: EdgeKind::Unconditional },
        ],
    }
}

#[test]
fn linear_dominator_chain() {
    let cfg = linear_cfg();
    let dom = compute_dominators(&cfg);
    assert_eq!(dom[&0], HashSet::from([0]));
    assert_eq!(dom[&1], HashSet::from([0, 1]));
    assert_eq!(dom[&2], HashSet::from([0, 1, 2]));
}

#[test]
fn entry_dominates_all() {
    let cfg = linear_cfg();
    assert!(dominates(&cfg, 0, 0));
    assert!(dominates(&cfg, 0, 1));
    assert!(dominates(&cfg, 0, 2));
}

#[test]
fn later_block_does_not_dominate_earlier() {
    let cfg = linear_cfg();
    assert!(!dominates(&cfg, 1, 0));
    assert!(!dominates(&cfg, 2, 0));
    assert!(!dominates(&cfg, 2, 1));
}

#[test]
fn diamond_entry_dominates_join() {
    let cfg = diamond_cfg();
    assert!(dominates(&cfg, 0, 3));
}

#[test]
fn diamond_branch_does_not_dominate_join() {
    let cfg = diamond_cfg();
    assert!(!dominates(&cfg, 1, 3));
    assert!(!dominates(&cfg, 2, 3));
}

#[test]
fn rpo_entry_is_first() {
    let cfg = linear_cfg();
    assert_eq!(rpo(&cfg)[0], 0);
}

#[test]
fn diamond_dominators_are_exact() {
    let cfg = diamond_cfg();
    let dom = compute_dominators(&cfg);
    assert_eq!(dom[&1], HashSet::from([0, 1]));
    assert_eq!(dom[&2], HashSet::from([0, 2]));
    assert_eq!(dom[&3], HashSet::from([0, 3]));
    assert_eq!(dom.len(), 4);
}

#[test]
fn an_unreached_block_keeps_every_block_as_dominator() {
    let mut cfg = linear_cfg();
    cfg.blocks.push(BasicBlock { id: 5, stmts: vec![], term: Terminator::Unreachable });
    let dom = compute_dominators(&cfg);
    assert_eq!(dom[&5], HashSet::from([0, 1, 2, 5]));
    assert!(dominates(&cfg, 2, 5));
}

#[test]
fn rpo_lists_each_reached_block_once() {
    let cfg = diamond_cfg();
    let order = rpo(&cfg);
    assert_eq!(order.len(), 4);
    assert_eq!(order[0], 0);
    assert_eq!(*order.last().unwrap(), 3);
}
