use lib::render_deps::{join_env, source_touches, DVal, Deps, Relevance, Shape, Source};

fn deps(set: Vec<Source>, gated: Vec<Source>) -> Deps {
    Deps { top: false, set, gated }
}

fn members(ms: Vec<(&str, DVal)>) -> DVal {
    DVal { deps: Deps::empty(), shape: Shape::Members(ms.into_iter().map(|(k, v)| (k.to_string(), v)).collect()) }
}

fn slots(d: &Deps) -> Vec<String> {
    let mut v: Vec<String> = d.set.iter().map(|s| format!("{s:?}")).collect();
    v.sort();
    v
}

#[test]
fn a_union_keeps_every_source_and_ungates_what_either_side_reaches_directly() {
    let mut a = deps(vec![Source::Slot(1), Source::Prop("x".into())], vec![Source::Slot(1)]);
    let b = deps(vec![Source::Slot(1), Source::Ref(2)], vec![]);
    a.union_with(&b);
    assert!(!a.top);
    assert_eq!(slots(&a), vec!["Prop(\"x\")".to_string(), "Ref(2)".to_string(), "Slot(1)".to_string()]);
    assert!(a.gated.is_empty(), "slot 1 is reached ungated through `b`");
}

#[test]
fn a_source_gated_on_both_sides_stays_gated_and_top_absorbs() {
    let mut a = deps(vec![Source::Slot(1)], vec![Source::Slot(1)]);
    a.union_with(&deps(vec![Source::Slot(1)], vec![Source::Slot(1)]));
    assert_eq!(a.gated.len(), 1);
    let mut t = Deps::top();
    t.union_with(&Deps::one(Source::Slot(3)));
    assert!(t.top && t.set.is_empty() && t.gated.is_empty());
    let mut e = Deps::empty();
    assert!(e.is_empty());
    e.union_with(&Deps::one(Source::Hook(4)));
    assert!(!e.is_empty());
}

#[test]
fn whole_props_are_touched_by_any_prop() {
    let rel = Relevance::Sources(vec![Source::Prop("color".into())]);
    assert!(source_touches(&Source::AllProps, &rel));
    assert!(source_touches(&Source::Prop("color".into()), &rel));
    assert!(!source_touches(&Source::Prop("size".into()), &rel));
    assert!(!source_touches(&Source::Slot(0), &rel));
    assert!(source_touches(&Source::Prop("size".into()), &Relevance::All));
    assert!(!source_touches(&Source::Slot(0), &Relevance::All));
}

#[test]
fn gated_for_needs_a_hit_and_every_hit_gated() {
    let rel = Relevance::Sources(vec![Source::Slot(1)]);
    let d = deps(vec![Source::Slot(1), Source::Slot(2)], vec![Source::Slot(1)]);
    assert!(d.touches(&rel));
    assert!(d.gated_for(&rel));
    let open = deps(vec![Source::Slot(1)], vec![]);
    assert!(open.touches(&rel));
    assert!(!open.gated_for(&rel));
    let miss = deps(vec![Source::Slot(2)], vec![Source::Slot(2)]);
    assert!(!miss.touches(&rel));
    assert!(!miss.gated_for(&rel));
    assert!(Deps::top().touches(&rel));
    assert!(!Deps::top().gated_for(&rel));
    assert!(d.clone().ungated().gated.is_empty());
}

#[test]
fn dval_join_unites_deps_and_merges_members_by_name() {
    let a = members(vec![("a", DVal::of(Deps::one(Source::Slot(1)))), ("c", DVal::empty())]);
    let b = members(vec![("a", DVal::of(Deps::one(Source::Slot(2)))), ("b", DVal::of(Deps::one(Source::Ref(7))))]);
    let j = a.join(&b);
    match &j.shape {
        Shape::Members(m) => {
            let names: Vec<&str> = m.iter().map(|(k, _)| k.as_str()).collect();
            assert_eq!(names, vec!["a", "b", "c"]);
            assert_eq!(slots(&m[0].1.deps), vec!["Slot(1)".to_string(), "Slot(2)".to_string()]);
            assert_eq!(slots(&m[1].1.deps), vec!["Ref(7)".to_string()]);
        },
        other => panic!("expected members, got {other:?}"),
    }
    let props = DVal { deps: Deps::empty(), shape: Shape::Props };
    assert!(matches!(props.join(&DVal { deps: Deps::empty(), shape: Shape::Props }).shape, Shape::Props));
    assert!(matches!(props.join(&a).shape, Shape::Plain));
    assert!(a.same(&a.copy()));
    assert!(!a.same(&b));
}

#[test]
fn join_env_reports_whether_anything_changed() {
    let mut env = vec![("x".to_string(), DVal::of(Deps::one(Source::Slot(1))))];
    let same = vec![("x".to_string(), DVal::of(Deps::one(Source::Slot(1))))];
    assert!(!join_env(&mut env, &same));
    let more = vec![("x".to_string(), DVal::of(Deps::one(Source::Slot(2)))), ("y".to_string(), DVal::empty())];
    assert!(join_env(&mut env, &more));
    assert_eq!(env.len(), 2);
    assert_eq!(env[0].0, "x");
    assert_eq!(slots(&env[0].1.deps), vec!["Slot(1)".to_string(), "Slot(2)".to_string()]);
    assert_eq!(env[1].0, "y");
    assert!(!join_env(&mut env, &more));
}

#[test]
fn a_prop_is_touched_by_a_question_about_the_whole_props_object() {
    let rel = Relevance::Sources(vec![Source::AllProps]);
    assert!(source_touches(&Source::Prop("x".into()), &rel));
    assert!(deps(vec![Source::Prop("x".into())], vec![]).touches(&rel));
    assert!(!source_touches(&Source::Slot(3), &rel));
}
