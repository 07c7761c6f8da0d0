use lib::cfg::{BasicBlock, Terminator, CFG};
use lib::component::ComponentIR;
use lib::component_registry::{ChildLookup, ComponentRegistry};
use lib::expr::{CompOrigin, Expr, Prim};

fn comp(file: &str, name: &str) -> ComponentIR {
    ComponentIR {
        file: file.to_string(),
        name: name.to_string(),
        param: "props".to_string(),
        dom_props: vec![],
        render_cfg: CFG { entry: 0, blocks: vec![BasicBlock { id: 0, stmts: vec![], term: Terminator::Return(Expr::Lit(Prim::Unit)) }], edges: vec![] },
        hooks: vec![],
        hook_provenance: vec![],
        module_consts: vec![],
    }
}

fn origin(file: &str, name: &str) -> CompOrigin {
    CompOrigin { file: file.to_string(), name: name.to_string() }
}

fn two_widgets() -> ComponentRegistry {
    ComponentRegistry::from_components(vec![comp("/a/Widget.tsx", "Widget"), comp("/b/Widget.tsx", "Widget")])
}

#[test]
fn a_unique_name_resolves_without_an_origin() {
    let reg = ComponentRegistry::from_components(vec![comp("/a/Widget.tsx", "Widget")]);
    assert_eq!(reg.resolve_child(&"Widget".to_string(), None), ChildLookup::Resolved(("/a/Widget.tsx".into(), "Widget".to_string())));
}

#[test]
fn a_name_no_file_defines_is_unknown() {
    let reg = two_widgets();
    assert_eq!(reg.resolve_child(&"Nope".to_string(), None), ChildLookup::Unknown);
}

#[test]
fn an_unsettled_collision_is_ambiguous_not_the_first_by_path() {
    let reg = two_widgets();
    assert_eq!(reg.resolve_child(&"Widget".to_string(), None), ChildLookup::Ambiguous);
}

#[test]
fn an_origin_picks_its_file_out_of_the_collision() {
    let reg = two_widgets();
    assert_eq!(
        reg.resolve_child(&"Widget".to_string(), Some(&origin("/b/Widget.tsx", "Widget"))),
        ChildLookup::Resolved(("/b/Widget.tsx".into(), "Widget".to_string()))
    );
}

#[test]
fn an_origin_resolves_an_alias_the_name_alone_cannot() {
    let reg = ComponentRegistry::from_components(vec![comp("/b/Widget.tsx", "Widget")]);
    assert_eq!(
        reg.resolve_child(&"W".to_string(), Some(&origin("/b/Widget.tsx", "Widget"))),
        ChildLookup::Resolved(("/b/Widget.tsx".into(), "Widget".to_string()))
    );
}

#[test]
fn an_origin_pointing_at_no_component_falls_back_to_the_name() {
    let reg = ComponentRegistry::from_components(vec![comp("/b/Widget.tsx", "Widget")]);
    assert_eq!(
        reg.resolve_child(&"Widget".to_string(), Some(&origin("/index.ts", "Widget"))),
        ChildLookup::Resolved(("/b/Widget.tsx".into(), "Widget".to_string()))
    );
}

#[test]
fn keys_are_sorted_ids_follow_key_order_and_lookups_agree() {
    let reg = ComponentRegistry::from_components(vec![comp("/z.tsx", "Z"), comp("/a.tsx", "B"), comp("/a.tsx", "A")]);
    assert_eq!(reg.len(), 3);
    assert!(!reg.is_empty());
    let files: Vec<(String, String)> = reg.all_components().iter().map(|c| (c.file.clone(), c.name.clone())).collect();
    assert_eq!(
        files,
        vec![("/a.tsx".to_string(), "A".to_string()), ("/a.tsx".to_string(), "B".to_string()), ("/z.tsx".to_string(), "Z".to_string())]
    );
    let key = ("/a.tsx".to_string(), "B".to_string());
    let id = reg.id(&key).unwrap();
    assert_eq!(id.index(), 1);
    assert_eq!(reg.key_of(id), Some(key.clone()));
    assert_eq!(reg.ir_of(id).unwrap().name, "B");
    assert_eq!(reg.get(&key).unwrap().file, "/a.tsx");
    assert!(reg.get(&("/nope.tsx".to_string(), "B".to_string())).is_none());
    assert_eq!(reg.table().name(id), Some("B"));
    assert_eq!(reg.all_names(), vec!["A".to_string(), "B".to_string(), "Z".to_string()]);
}

#[test]
fn the_last_component_under_a_key_is_kept() {
    let mut second = comp("/a.tsx", "A");
    second.param = "p2".to_string();
    let reg = ComponentRegistry::from_components(vec![comp("/a.tsx", "A"), second]);
    assert_eq!(reg.len(), 1);
    assert_eq!(reg.get(&("/a.tsx".to_string(), "A".to_string())).unwrap().param, "p2");
}

#[test]
fn find_all_by_name_orders_by_file() {
    let reg = ComponentRegistry::from_components(vec![comp("/c/W.tsx", "W"), comp("/a/W.tsx", "W"), comp("/b/X.tsx", "X")]);
    let found: Vec<String> = reg.find_all_by_name(&"W".to_string()).iter().map(|c| c.file.clone()).collect();
    assert_eq!(found, vec!["/a/W.tsx".to_string(), "/c/W.tsx".to_string()]);
    assert!(reg.find_all_by_name(&"Q".to_string()).is_empty());
    assert!(ComponentRegistry::new().is_empty());
}
