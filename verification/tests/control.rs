use lib::cfg::{BasicBlock, Edge, EdgeKind, Terminator, CFG};
use lib::control::controlling_branches;
use lib::expr::{Expr, Prim};

fn blk(id: usize, term: Terminator) -> BasicBlock {
    BasicBlock { id, stmts: vec![], term }
}

fn edge(from: usize, to: usize, kind: EdgeKind) -> Edge {
    Edge { from, to, kind }
}

#[test]
fn each_side_of_a_diamond_is_controlled_by_the_branch_and_the_join_is_not() {
    let cfg = CFG {
        entry: 0,
        blocks: vec![
            blk(0, Terminator::Branch { cond: Expr::Var("c".to_string()), then_: 1, else_: 2, span: None }),
            blk(1, Terminator::Jump(3)),
            blk(2, Terminator::Jump(3)),
            blk(3, Terminator::Return(Expr::Lit(Prim::Unit))),
        ],
        edges: vec![
            edge(0, 1, EdgeKind::IfTrue),
            edge(0, 2, EdgeKind::IfFalse),
            edge(1, 3, EdgeKind::Unconditional),
            edge(2, 3, EdgeKind::Unconditional),
        ],
    };
    let r = controlling_branches(&cfg);
    assert_eq!(r, vec![vec![], vec![0], vec![0], vec![]]);
}

#[test]
fn an_early_return_controls_everything_after_it() {
    let cfg = CFG {
        entry: 0,
        blocks: vec![
            blk(0, Terminator::Branch { cond: Expr::Var("c".to_string()), then_: 1, else_: 2, span: None }),
            blk(1, Terminator::Return(Expr::Lit(Prim::Unit))),
            blk(2, Terminator::Branch { cond: Expr::Var("d".to_string()), then_: 3, else_: 3, span: None }),
            blk(3, Terminator::Return(Expr::Lit(Prim::Unit))),
        ],
        edges: vec![
            edge(0, 1, EdgeKind::IfTrue),
            edge(0, 2, EdgeKind::IfFalse),
            edge(2, 3, EdgeKind::IfTrue),
            edge(2, 3, EdgeKind::IfFalse),
        ],
    };
    let r = controlling_branches(&cfg);
    assert_eq!(r, vec![vec![], vec![0], vec![0], vec![0]], "a branch whose sides meet controls nothing");
}

fn call(callee: &str, arg: &str) -> lib::stmt::Stmt {
    lib::stmt::Stmt::ExprStmt(
        Expr::Call { fn_: Box::new(Expr::Var(callee.to_string())), args: vec![Expr::Var(arg.to_string())] },
        None,
    )
}

fn early_return_handler(head: Vec<lib::stmt::Stmt>) -> CFG {
    CFG {
        entry: 0,
        blocks: vec![
            BasicBlock { id: 0, stmts: head, term: Terminator::Branch { cond: Expr::Var("e".to_string()), then_: 1, else_: 2, span: None } },
            blk(1, Terminator::Return(Expr::Lit(Prim::Unit))),
            BasicBlock { id: 2, stmts: vec![call("submit", "v")], term: Terminator::Return(Expr::Lit(Prim::Unit)) },
        ],
        edges: vec![edge(0, 1, EdgeKind::IfTrue), edge(0, 2, EdgeKind::IfFalse)],
    }
}

#[test]
fn what_a_handler_reaches_only_after_testing_its_event_is_gated() {
    let body = early_return_handler(vec![]);
    let mut r = lib::control::param_gated_vars(&vec!["e".to_string()], &body);
    r.sort();
    assert_eq!(r, vec!["submit".to_string(), "v".to_string()]);
}

#[test]
fn a_variable_also_read_before_the_test_is_not_gated() {
    let body = early_return_handler(vec![call("log", "v")]);
    let r = lib::control::param_gated_vars(&vec!["e".to_string()], &body);
    assert_eq!(r, vec!["submit".to_string()]);
}

#[test]
fn a_test_of_something_else_gates_nothing() {
    let body = early_return_handler(vec![]);
    let r = lib::control::param_gated_vars(&vec!["x".to_string()], &body);
    assert!(r.is_empty(), "{r:?}");
}
