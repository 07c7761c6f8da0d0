//! The utility functions of a run, keyed by `(file, name)`, with the import
//! edges that let a call site find a definition in another file.
use vstd::prelude::*;

use crate::component::FunctionIR;
use crate::component_registry::KeyView;
use crate::registry::{item_key, last_keyed, KeyedRegistry, RegistryKey};
use crate::types::Symbol;

verus! {

/// A function's key: its file and its name.
pub type FunctionKey = (String, Symbol);

/// The functions of a list, each paired with its key.
pub open spec fn keyed_functions(fs: Seq<FunctionIR>) -> Seq<(RegistryKey, FunctionIR)> {
    fs.map_values(|f: FunctionIR| ((f.file, f.name), f))
}

/// A key as plain values.
pub open spec fn key_view(k: FunctionKey) -> KeyView {
    (k.0@, k.1@)
}

/// Lowered utility functions by `(file, name)`, and the resolved import
/// edges `(importing file, local name) → (defining file, exported name)`.
#[derive(Debug)]
pub struct FunctionRegistry {
    functions: KeyedRegistry<FunctionIR>,
    aliases: KeyedRegistry<FunctionKey>,
}

impl FunctionRegistry {
    /// The keys of the definitions, ascending.
    pub closed spec fn keys(&self) -> Seq<KeyView> {
        self.functions.keys()
    }

    /// The definitions, in key order.
    pub closed spec fn values(&self) -> Seq<FunctionIR> {
        self.functions.values()
    }

    /// The definition under key `k`, if any.
    pub closed spec fn lookup(&self, k: KeyView) -> Option<FunctionIR> {
        self.functions.lookup(k)
    }

    /// Where the import edge from `k` leads, if there is one.
    pub closed spec fn alias_of(&self, k: KeyView) -> Option<KeyView> {
        match self.aliases.lookup(k) {
            Some(t) => Some(key_view(t)),
            None => None,
        }
    }

    /// The definition a call of local name `k.1` in file `k.0` reaches: one
    /// in the caller's own file, else the one its import edge names.
    pub open spec fn resolved(&self, k: KeyView) -> Option<FunctionIR> {
        match self.lookup(k) {
            Some(f) => Some(f),
            None => match self.alias_of(k) {
                Some(t) => self.lookup(t),
                None => None,
            },
        }
    }

    /// Both key lists strictly ascend.
    pub closed spec fn wf(&self) -> bool {
        self.functions.wf() && self.aliases.wf()
    }

    /// An empty registry.
    pub fn new() -> (r: FunctionRegistry)
        ensures
            r.wf(),
            r.keys() == Seq::<KeyView>::empty(),
            forall|k: KeyView| #[trigger] r.lookup(k) is None && r.alias_of(k) is None,
    {
        let r = FunctionRegistry { functions: KeyedRegistry::new(), aliases: KeyedRegistry::new() };
        proof {
            assert forall|k: KeyView| #[trigger] r.lookup(k) is None && r.alias_of(k) is None by {
                assert(!r.functions.keys().contains(k));
                assert(!r.aliases.keys().contains(k));
            }
        }
        r
    }

    /// The registry of `functions`, with no import edges.
    pub fn from_functions(functions: Vec<FunctionIR>) -> (r: FunctionRegistry)
        ensures
            r.wf(),
            forall|k: KeyView| #[trigger] r.keys().contains(k) <==> exists|j: int|
                0 <= j < functions.len() && (functions@[j].file@, functions@[j].name@) == k,
            forall|k: KeyView| #[trigger] r.lookup(k) == last_keyed(keyed_functions(functions@), k),
            forall|k: KeyView| #[trigger] r.alias_of(k) is None,
    {
        let r = Self::from_functions_and_imports(functions, Vec::new());
        proof {
            assert forall|k: KeyView| #[trigger] r.alias_of(k) is None by {
                assert(last_keyed(Seq::<(RegistryKey, FunctionKey)>::empty(), k) is None);
            }
        }
        r
    }

    /// The registry of `functions` and of the import edges `imports`. Of two
    /// definitions, or two edges, with one key the later is kept.
    pub fn from_functions_and_imports(functions: Vec<FunctionIR>, imports: Vec<(FunctionKey, FunctionKey)>) -> (r: FunctionRegistry)
        ensures
            r.wf(),
            forall|k: KeyView| #[trigger] r.keys().contains(k) <==> exists|j: int|
                0 <= j < functions.len() && (functions@[j].file@, functions@[j].name@) == k,
            forall|k: KeyView| #[trigger] r.lookup(k) == last_keyed(keyed_functions(functions@), k),
            forall|k: KeyView| #[trigger] r.alias_of(k) == match last_keyed(imports@, k) {
                Some(t) => Some(key_view(t)),
                None => None::<KeyView>,
            },
    {
        let ghost f0 = functions@;
        let mut functions = functions;
        let mut items: Vec<(RegistryKey, FunctionIR)> = Vec::new();
        while functions.len() > 0
            invariant
                items@ + keyed_functions(functions@) == keyed_functions(f0),
            decreases functions.len(),
        {
            let ghost before = functions@;
            let f = functions.remove(0);
            let key: RegistryKey = (f.file.clone(), f.name.clone());
            items.push((key, f));
            assert(keyed_functions(before) =~= seq![((f.file, f.name), f)] + keyed_functions(functions@));
            assert(items@ + keyed_functions(functions@) =~= keyed_functions(f0));
        }
        assert(keyed_functions(functions@) =~= Seq::<(RegistryKey, FunctionIR)>::empty());
        assert(items@ =~= keyed_functions(f0));
        let ghost i0 = imports@;
        let r = FunctionRegistry { functions: KeyedRegistry::from_keyed(items), aliases: KeyedRegistry::from_keyed(imports) };
        proof {
            assert forall|k: KeyView| #[trigger] r.keys().contains(k) <==> exists|j: int|
                0 <= j < f0.len() && (f0[j].file@, f0[j].name@) == k by {
                if exists|j: int| 0 <= j < f0.len() && (f0[j].file@, f0[j].name@) == k {
                    let j = choose|j: int| 0 <= j < f0.len() && (f0[j].file@, f0[j].name@) == k;
                    assert(item_key(keyed_functions(f0)[j]) == k);
                }
                if r.keys().contains(k) {
                    let j = choose|j: int| 0 <= j < keyed_functions(f0).len() && item_key(keyed_functions(f0)[j]) == k;
                    assert((f0[j].file@, f0[j].name@) == k);
                }
            }
            assert forall|k: KeyView| #[trigger] r.alias_of(k) == match last_keyed(i0, k) {
                Some(t) => Some(key_view(t)),
                None => None::<KeyView>,
            } by {
                assert(r.aliases.lookup(k) == last_keyed(i0, k));
            }
        }
        r
    }

    /// The definition under `key`.
    pub fn get(&self, key: &FunctionKey) -> (r: Option<&FunctionIR>)
        requires
            self.wf(),
        ensures
            r is Some <==> self.keys().contains(key_view(*key)),
            r matches Some(f) ==> self.lookup(key_view(*key)) == Some(*f),
            r is None ==> self.lookup(key_view(*key)) is None,
    {
        self.functions.get(key)
    }

    /// The definition a call of `name` in `caller_file` reaches: the
    /// caller's own file first, else its import edge for that local name;
    /// never a guess by name across files.
    pub fn resolve(&self, caller_file: &str, name: &str) -> (r: Option<&FunctionIR>)
        requires
            self.wf(),
        ensures
            r is Some <==> self.resolved((caller_file@, name@)) is Some,
            r matches Some(f) ==> self.resolved((caller_file@, name@)) == Some(*f),
    {
        let key: FunctionKey = (caller_file.to_string(), name.to_string());
        match self.functions.get(&key) {
            Some(f) => Some(f),
            None => match self.aliases.get(&key) {
                Some(target) => self.functions.get(target),
                None => None,
            },
        }
    }

    /// The definition named `name` in the file whose path sorts first.
    pub fn get_by_name(&self, name: &Symbol) -> (r: Option<&FunctionIR>)
        ensures
            r is None <==> forall|i: int| 0 <= i < self.keys().len() ==> self.keys()[i].1 != name@,
            r matches Some(f) ==> exists|i: int|
                0 <= i < self.keys().len() && self.keys()[i].1 == name@ && *f == self.values()[i] && forall|j: int|
                    0 <= j < i ==> self.keys()[j].1 != name@,
    {
        let r = self.functions.get_by_name(name);
        assert(self.keys() == self.functions.keys() && self.values() == self.functions.values());
        r
    }

    /// `true` iff `key` has a definition.
    pub fn contains(&self, key: &FunctionKey) -> (r: bool)
        ensures
            r <==> self.keys().contains(key_view(*key)),
    {
        self.functions.contains(key)
    }

    /// Every definition, in key order.
    pub fn all_functions(&self) -> (r: Vec<&FunctionIR>)
        ensures
            r@.map_values(|f: &FunctionIR| *f) == self.values(),
    {
        self.functions.values_in_order()
    }

    /// The number of definitions.
    pub fn len(&self) -> (r: usize)
        ensures
            r == self.keys().len(),
    {
        self.functions.len()
    }

    /// `true` iff there is no definition.
    pub fn is_empty(&self) -> (r: bool)
        ensures
            r <==> self.keys().len() == 0,
    {
        self.functions.is_empty()
    }
}

} // verus!
