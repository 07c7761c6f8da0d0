use lib::cfg::{BasicBlock, Terminator, CFG};
use lib::component::{FunctionIR, HookIR};
use lib::expr::{Expr, Prim};
use lib::function_registry::FunctionRegistry;
use lib::hook_registry::HookRegistry;

fn trivial_cfg() -> CFG {
    CFG {
        entry: 0,
        blocks: vec![BasicBlock { id: 0, stmts: vec![], term: Terminator::Return(Expr::Lit(Prim::Unit)) }],
        edges: vec![],
    }
}

fn trivial_hook(name: &str) -> HookIR {
    HookIR {
        file: String::new(),
        name: name.to_string(),
        params: vec![],
        body_cfg: trivial_cfg(),
        hooks: vec![],
        hook_provenance: vec![],
    }
}

fn fn_ir(file: &str, name: &str) -> FunctionIR {
    FunctionIR { file: file.to_string(), name: name.to_string(), params: vec![], body_cfg: trivial_cfg() }
}

#[test]
fn from_hooks_and_get_by_name() {
    let reg = HookRegistry::from_hooks(vec![trivial_hook("useCounter")]);
    assert!(reg.get_by_name(&"useCounter".to_string()).is_some());
    assert!(reg.get_by_name(&"useUnknown".to_string()).is_none());
}

#[test]
fn from_hooks_get_with_full_key() {
    let reg = HookRegistry::from_hooks(vec![trivial_hook("useCounter")]);
    let key = (String::new(), "useCounter".to_string());
    assert!(reg.get(&key).is_some());
}

#[test]
fn empty_registry() {
    let reg = HookRegistry::new();
    assert!(reg.get_by_name(&"useX".to_string()).is_none());
}

#[test]
fn same_name_in_different_files_coexist() {
    let mut a = trivial_hook("useData");
    a.file = "/proj/a.ts".to_string();
    let mut b = trivial_hook("useData");
    b.file = "/proj/b.ts".to_string();
    let reg = HookRegistry::from_hooks(vec![a, b]);
    assert_eq!(reg.all_keys().len(), 2);
    assert_eq!(reg.all_names(), vec!["useData".to_string()]);
}

#[test]
fn same_name_in_two_files_coexists() {
    let reg = FunctionRegistry::from_functions(vec![fn_ir("/a.ts", "doIt"), fn_ir("/b.ts", "doIt")]);
    assert_eq!(reg.len(), 2);
    let by_name = reg.get_by_name(&"doIt".to_string()).unwrap();
    assert_eq!(by_name.file, "/a.ts".to_string());
}

#[test]
fn get_with_full_key_is_precise() {
    let reg = FunctionRegistry::from_functions(vec![fn_ir("/a.ts", "doIt"), fn_ir("/b.ts", "doIt")]);
    let key = ("/b.ts".to_string(), "doIt".to_string());
    assert_eq!(reg.get(&key).unwrap().file, "/b.ts".to_string());
}

#[test]
fn hook_keys_ascend_and_the_later_duplicate_wins() {
    let mut first = trivial_hook("useData");
    first.file = "/z.ts".to_string();
    first.params = vec!["old".to_string()];
    let mut second = trivial_hook("useData");
    second.file = "/z.ts".to_string();
    second.params = vec!["new".to_string()];
    let mut other = trivial_hook("useAlpha");
    other.file = "/a.ts".to_string();
    let reg = HookRegistry::from_hooks(vec![first, other, second]);
    assert_eq!(
        reg.all_keys(),
        vec![("/a.ts".to_string(), "useAlpha".to_string()), ("/z.ts".to_string(), "useData".to_string())]
    );
    let kept = reg.get(&("/z.ts".to_string(), "useData".to_string())).unwrap();
    assert_eq!(kept.params, vec!["new".to_string()]);
    assert_eq!(reg.all_names(), vec!["useAlpha".to_string(), "useData".to_string()]);
}

#[test]
fn resolve_prefers_the_callers_file_then_its_import_edge() {
    let reg = FunctionRegistry::from_functions_and_imports(
        vec![fn_ir("/a.ts", "putState"), fn_ir("/b.ts", "putState"), fn_ir("/c.ts", "helper")],
        vec![(("/b.ts".to_string(), "ps".to_string()), ("/a.ts".to_string(), "putState".to_string()))],
    );
    assert_eq!(reg.resolve("/b.ts", "putState").unwrap().file, "/b.ts".to_string());
    let via_alias = reg.resolve("/b.ts", "ps").unwrap();
    assert_eq!((via_alias.file.as_str(), via_alias.name.as_str()), ("/a.ts", "putState"));
    assert!(reg.resolve("/a.ts", "helper").is_none());
    assert!(reg.resolve("/d.ts", "ps").is_none());
    assert!(reg.contains(&("/c.ts".to_string(), "helper".to_string())));
    assert_eq!(reg.all_functions().len(), 3);
    assert!(!reg.is_empty());
    assert!(FunctionRegistry::new().is_empty());
}
