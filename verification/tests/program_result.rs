use lib::component_id::ComponentId;
use lib::program_result::{CallSite, ComponentCallGraph};
use lib::registrations::Pairing;
use lib::triggers::{triggers_of, EffectTrigger};

fn site(callee: u32) -> CallSite {
    CallSite { callee: ComponentId(callee), location: None }
}

#[test]
fn call_sites_accumulate_per_caller() {
    let mut g = ComponentCallGraph::new();
    assert!(g.callees_of(ComponentId(0)).is_empty());
    g.add_edge(ComponentId(0), site(1));
    g.add_edge(ComponentId(0), site(2));
    g.add_edge(ComponentId(3), site(1));
    let callees: Vec<u32> = g.callees_of(ComponentId(0)).iter().map(|s| s.callee.0).collect();
    assert_eq!(callees, vec![1, 2]);
    assert_eq!(g.callees_of(ComponentId(3)).len(), 1);
    let mut callers: Vec<u32> = g.callers_of(ComponentId(1)).iter().map(|c| c.0).collect();
    callers.sort();
    assert_eq!(callers, vec![0, 3]);
    assert!(g.callers_of(ComponentId(0)).is_empty());
}

#[test]
fn a_caller_listed_twice_is_reported_once() {
    let mut g = ComponentCallGraph::new();
    g.add_edge(ComponentId(5), site(9));
    g.add_edge(ComponentId(5), site(9));
    assert_eq!(g.callers_of(ComponentId(9)), vec![ComponentId(5)]);
}

#[test]
fn only_a_proven_pairing_is_paired() {
    assert!(!Pairing::Paired.may_be_unpaired());
    assert!(Pairing::Unpaired.may_be_unpaired());
    assert!(Pairing::Unknown.may_be_unpaired());
}

#[test]
fn triggers_of_keeps_one_effects_rows_in_order() {
    let row = |hook: usize, dep: usize| EffectTrigger { hook, dep, slot: (ComponentId(0), 0), exact: true };
    let rows = vec![row(1, 0), row(2, 0), row(1, 1), row(3, 0)];
    let got: Vec<(usize, usize)> = triggers_of(&rows, 1).iter().map(|r| (r.hook, r.dep)).collect();
    assert_eq!(got, vec![(1, 0), (1, 1)]);
    assert!(triggers_of(&rows, 7).is_empty());
}
