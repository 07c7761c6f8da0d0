use lib::cfg::{BasicBlock, Terminator, CFG};
use lib::expr::{Expr, Prim};
use lib::hooks::{DepsArg, HookEntry};
use lib::may_written::may_written_slots;
use lib::stmt::Stmt;

fn body(stmts: Vec<Stmt>) -> CFG {
    CFG { entry: 0, blocks: vec![BasicBlock { id: 0, stmts, term: Terminator::Return(Expr::Lit(Prim::Unit)) }], edges: vec![] }
}

fn call(callee: &str) -> Stmt {
    Stmt::ExprStmt(Expr::Call { fn_: Box::new(Expr::Var(callee.to_string())), args: vec![] }, None)
}

#[test]
fn only_referenced_setters_mark_their_slot_writable() {
    let render = body(vec![]);
    let effect = HookEntry::Effect { label: 2, body_cfg: body(vec![call("setA")]), deps: DepsArg::Absent, span: None };
    let labels = vec![("setA".to_string(), 0), ("setB".to_string(), 1)];
    let r = may_written_slots(&render, &vec![effect], &labels);
    assert_eq!(r, vec![0]);
}

#[test]
fn an_alias_referenced_in_the_render_body_counts_once() {
    let render = body(vec![Stmt::Let { var: "f".to_string(), rhs: Expr::Var("update".to_string()), span: None }]);
    let labels = vec![("setA".to_string(), 0), ("update".to_string(), 0)];
    let r = may_written_slots(&render, &vec![], &labels);
    assert_eq!(r, vec![0]);
    let none = may_written_slots(&body(vec![]), &vec![], &labels);
    assert!(none.is_empty(), "a setter referenced nowhere never writes: {none:?}");
}

#[test]
fn a_custom_hook_argument_is_a_reference() {
    let custom = HookEntry::Custom {
        label: 3,
        name: "useDebounce".to_string(),
        args: vec![Expr::Var("setB".to_string())],
        deps: DepsArg::Absent,
        binding: None,
        import_source: None,
        resolved_file: None,
        span: None,
    };
    let labels = vec![("setA".to_string(), 0), ("setB".to_string(), 1)];
    assert_eq!(may_written_slots(&body(vec![]), &vec![custom], &labels), vec![1]);
}
