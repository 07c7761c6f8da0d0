use lib::cfg::{BasicBlock, Terminator, CFG};
use lib::component_id::ComponentId;
use lib::expr::{Expr, Prim};
use lib::hooks::{Arity, DepsArg, DepsList, HookEntry};
use lib::stmt::Stmt;
use lib::triggers::{collect_effect_triggers, EffectTrigger};

fn unit_cfg(stmts: Vec<Stmt>) -> CFG {
    CFG { entry: 0, blocks: vec![BasicBlock { id: 0, stmts, term: Terminator::Return(Expr::Lit(Prim::Unit)) }], edges: vec![] }
}

fn effect(label: usize, deps: Vec<Expr>) -> HookEntry {
    let n = deps.len();
    HookEntry::Effect {
        label,
        body_cfg: unit_cfg(vec![]),
        deps: DepsArg::List(DepsList { elems: deps, arity: Arity::Exact(n), spread_at: vec![] }),
        span: None,
    }
}

#[test]
fn a_state_value_dep_is_exact_and_a_versioned_one_may_rerun() {
    let c = ComponentId(0);
    let render = unit_cfg(vec![
        Stmt::Let { var: "count".to_string(), rhs: Expr::StateVal(0), span: None },
        Stmt::Let { var: "n".to_string(), rhs: Expr::Var("count".to_string()), span: None },
    ]);
    let hooks = vec![effect(5, vec![Expr::Var("n".to_string()), Expr::Var("opts".to_string()), Expr::StateVal(2)])];
    let versioned = vec![(5usize, 1usize, vec![(c, 3usize), (c, 4usize)])];
    let r = collect_effect_triggers(c, &render, &hooks, &versioned);
    assert_eq!(
        r,
        vec![
            EffectTrigger { hook: 5, dep: 0, slot: (c, 0), exact: true },
            EffectTrigger { hook: 5, dep: 1, slot: (c, 3), exact: false },
            EffectTrigger { hook: 5, dep: 1, slot: (c, 4), exact: false },
            EffectTrigger { hook: 5, dep: 2, slot: (c, 2), exact: true },
        ]
    );
}

#[test]
fn an_effect_without_a_deps_list_has_no_rows() {
    let c = ComponentId(1);
    let hooks = vec![HookEntry::Effect { label: 0, body_cfg: unit_cfg(vec![]), deps: DepsArg::Absent, span: None }];
    assert!(collect_effect_triggers(c, &unit_cfg(vec![]), &hooks, &vec![]).is_empty());
}
