use lib::module::{ModuleFacts, ModuleTable};

fn facts(directives: &[&str], imports: &[&str]) -> ModuleFacts {
    ModuleFacts {
        directives: directives.iter().map(|s| s.to_string()).collect(),
        imports: imports.iter().map(|s| s.to_string()).collect(),
    }
}

fn table() -> ModuleTable {
    // page → panel → button, and page → server-util.
    // Only `panel` declares "use client".
    let mut t = ModuleTable::new();
    t.insert("/app/page.tsx".to_string(), facts(&[], &["/ui/panel.tsx", "/lib/server-util.ts"]));
    t.insert("/ui/panel.tsx".to_string(), facts(&["use client"], &["/ui/button.tsx"]));
    t.insert("/ui/button.tsx".to_string(), facts(&[], &[]));
    t.insert("/lib/server-util.ts".to_string(), facts(&[], &[]));
    t
}

fn seeds(paths: &[&str]) -> Vec<String> {
    paths.iter().map(|s| s.to_string()).collect()
}

fn holds(v: &[String], p: &str) -> bool {
    v.iter().any(|x| x == p)
}

#[test]
fn declares_reads_the_file_s_own_prologue() {
    let t = table();
    assert!(t.declares("/ui/panel.tsx", "use client"));
    assert!(!t.declares("/ui/button.tsx", "use client"));
    assert!(!t.declares("/nope.tsx", "use client"));
}

#[test]
fn any_declares_gates_on_the_whole_program() {
    assert!(table().any_declares("use client"));
    assert!(!table().any_declares("use server"));
    assert!(!ModuleTable::new().any_declares("use client"));
}

#[test]
fn reachable_from_walks_forward_edges() {
    let t = table();
    let r = t.reachable_from(&seeds(&["/app/page.tsx"]), None);
    assert_eq!(r.len(), 4, "page + panel + button + server-util");
    assert_eq!(t.reachable_from(&seeds(&["/ui/button.tsx"]), None).len(), 1);
}

#[test]
fn a_boundary_stops_the_walk_and_excludes_the_boundary_itself() {
    let r = table().reachable_from(&seeds(&["/app/page.tsx"]), Some("use client"));
    assert!(holds(&r, "/app/page.tsx"));
    assert!(holds(&r, "/lib/server-util.ts"));
    assert!(!holds(&r, "/ui/panel.tsx"), "declares the boundary");
    assert!(!holds(&r, "/ui/button.tsx"), "behind the boundary: not reached through this walk");
}

#[test]
fn a_seed_that_is_itself_a_boundary_yields_nothing() {
    let r = table().reachable_from(&seeds(&["/ui/panel.tsx"]), Some("use client"));
    assert!(r.is_empty());
}

#[test]
fn walk_terminates_on_import_cycles() {
    let mut t = ModuleTable::new();
    t.insert("/a.tsx".to_string(), facts(&[], &["/b.tsx"]));
    t.insert("/b.tsx".to_string(), facts(&[], &["/a.tsx"]));
    assert_eq!(t.reachable_from(&seeds(&["/a.tsx"]), None).len(), 2);
}

#[test]
fn empty_table_answers_unknown_everywhere() {
    let t = ModuleTable::new();
    assert!(t.is_empty());
    assert!(!t.any_declares("use client"));
    assert!(t.facts("/a.tsx").is_none());
}

#[test]
fn a_second_insert_replaces_the_facts_of_a_path() {
    let mut t = table();
    t.insert("/ui/button.tsx".to_string(), facts(&["use client"], &[]));
    assert_eq!(t.len(), 4);
    assert!(t.declares("/ui/button.tsx", "use client"));
    assert!(t.facts("/ui/button.tsx").unwrap().has_directive("use client"));
    assert_eq!(t.paths().len(), 4);
}

#[test]
fn insert_grows_the_table_only_for_a_new_path() {
    let mut t = table();
    assert_eq!(t.len(), 4);
    t.insert("/ui/button.tsx".to_string(), facts(&["use client"], &[]));
    assert_eq!(t.len(), 4);
    assert!(t.declares("/ui/button.tsx", "use client"));
    t.insert("/ui/card.tsx".to_string(), facts(&[], &[]));
    assert_eq!(t.len(), 5);
}
