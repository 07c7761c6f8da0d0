use lib::component_id::{ComponentId, ComponentTable};
use lib::expr::CompOrigin;

fn origin(file: &str, name: &str) -> CompOrigin {
    CompOrigin { file: file.to_string(), name: name.to_string() }
}

#[test]
fn interning_is_idempotent_and_two_files_are_two_ids() {
    let mut t = ComponentTable::new();
    let a = t.intern(origin("/a/W.tsx", "W"));
    let b = t.intern(origin("/b/W.tsx", "W"));
    assert_ne!(a, b);
    assert_eq!(t.intern(origin("/a/W.tsx", "W")), a, "same origin, same id");
    assert_eq!(t.len(), 2);
}

#[test]
fn the_display_suffix_appears_only_on_a_collision() {
    let mut t = ComponentTable::new();
    let solo = t.intern(origin("/a/Solo.tsx", "Solo"));
    assert_eq!(t.display_name(solo).as_deref(), Some("Solo"));
    let a = t.intern(origin("/a/W.tsx", "W"));
    let b = t.intern(origin("/b/W.tsx", "W"));
    assert_eq!(t.display_name(a).as_deref(), Some("W@/a/W.tsx"));
    assert_eq!(t.display_name(b).as_deref(), Some("W@/b/W.tsx"));
    assert_eq!(t.display_name(solo).as_deref(), Some("Solo"), "an unrelated collision leaves a unique name alone");
}

#[test]
fn interning_a_namesake_changes_an_existing_display_name_but_not_its_id() {
    let mut t = ComponentTable::new();
    let a = t.intern(origin("/a/W.tsx", "W"));
    assert_eq!(t.display_name(a).as_deref(), Some("W"));
    t.intern(origin("/b/W.tsx", "W"));
    assert_eq!(t.display_name(a).as_deref(), Some("W@/a/W.tsx"));
    assert_eq!(t.id_of(&origin("/a/W.tsx", "W")), Some(a), "id is stable");
}

#[test]
fn resolve_display_name_round_trips_both_forms() {
    let mut t = ComponentTable::new();
    let solo = t.intern(origin("/a/Solo.tsx", "Solo"));
    let a = t.intern(origin("/a/W.tsx", "W"));
    let b = t.intern(origin("/b/W.tsx", "W"));
    assert_eq!(t.resolve_display_name("Solo"), Some(solo));
    assert_eq!(t.resolve_display_name("W@/a/W.tsx"), Some(a));
    assert_eq!(t.resolve_display_name("W@/b/W.tsx"), Some(b));
    assert_eq!(t.resolve_display_name("W"), None, "ambiguous bare name");
    assert_eq!(t.resolve_display_name("Nope"), None);
}

#[test]
fn a_synthetic_id_belongs_to_no_table_until_registered() {
    let mut t = ComponentTable::new();
    t.intern(origin("/a/W.tsx", "W"));
    assert_eq!(t.origin(ComponentId::synthetic()), None);
    assert_eq!(t.display_name(ComponentId::synthetic()), None);
    t.register(ComponentId::synthetic(), origin("/solo.tsx", "Solo"));
    assert_eq!(t.display_name(ComponentId::synthetic()).as_deref(), Some("Solo"));
    assert!(t.ids().iter().any(|i| *i == ComponentId::synthetic()));
}

#[test]
fn interning_after_a_registered_id_does_not_collide_with_it() {
    let mut t = ComponentTable::new();
    t.register(ComponentId::synthetic(), origin("/solo.tsx", "Solo"));
    let a = t.intern(origin("/a/W.tsx", "W"));
    assert_ne!(a, ComponentId::synthetic());
    assert_eq!(t.len(), 2);
}

#[test]
fn ids_are_ascending_and_ids_named_picks_the_namesakes() {
    let mut t = ComponentTable::new();
    let w1 = t.intern(origin("/b/W.tsx", "W"));
    let x = t.intern(origin("/a/X.tsx", "X"));
    let w2 = t.intern(origin("/a/W.tsx", "W"));
    assert_eq!(t.ids(), vec![w1, x, w2]);
    assert_eq!(t.ids_named("W"), vec![w1, w2]);
    assert!(t.ids_named("Nope").is_empty());
    assert_eq!(t.name(x), Some("X"));
    assert_eq!(x.index(), 1);
    assert_eq!(ComponentId::from_index(7).index(), 7);
}
