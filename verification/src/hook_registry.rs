//! The custom hooks of a run, keyed by `(file, name)`: two hooks named alike
//! in different files coexist.
use vstd::prelude::*;

use crate::component::HookIR;
use crate::component_registry::{name_views, KeyView};
use crate::registry::{item_key, last_keyed, KeyedRegistry, RegistryKey};
use crate::text::seq_lt;
use crate::types::Symbol;

verus! {

/// A hook's key: its file and its name.
pub type HookKey = (String, Symbol);

/// The hooks of a list, each paired with its key.
pub open spec fn keyed_hooks(hs: Seq<HookIR>) -> Seq<(RegistryKey, HookIR)> {
    hs.map_values(|h: HookIR| ((h.file, h.name), h))
}

/// Lowered custom hooks by `(file, name)`.
#[derive(Debug)]
pub struct HookRegistry {
    hooks: KeyedRegistry<HookIR>,
}

impl HookRegistry {
    /// The keys, ascending.
    pub closed spec fn keys(&self) -> Seq<KeyView> {
        self.hooks.keys()
    }

    /// The hook under key `k`, if any.
    pub closed spec fn lookup(&self, k: KeyView) -> Option<HookIR> {
        self.hooks.lookup(k)
    }

    /// The hooks, in key order.
    pub closed spec fn values(&self) -> Seq<HookIR> {
        self.hooks.values()
    }

    /// Keys strictly ascend.
    pub closed spec fn wf(&self) -> bool {
        self.hooks.wf()
    }

    /// The hook under the key at position `i` is the one at position `i`,
    /// and there are as many hooks as keys.
    pub proof fn lemma_lookup(&self, i: int)
        requires
            self.wf(),
            0 <= i < self.keys().len(),
        ensures
            self.lookup(self.keys()[i]) == Some(self.values()[i]),
            self.keys().len() == self.values().len(),
    {
        self.hooks.lemma_lookup(i);
        self.hooks.lemma_lens();
    }

    /// An empty registry.
    pub fn new() -> (r: HookRegistry)
        ensures
            r.wf(),
            r.keys() == Seq::<KeyView>::empty(),
    {
        HookRegistry { hooks: KeyedRegistry::new() }
    }

    /// The registry of `hooks`; of two hooks with one key the later is kept.
    pub fn from_hooks(hooks: Vec<HookIR>) -> (r: HookRegistry)
        ensures
            r.wf(),
            forall|k: KeyView| #[trigger] r.keys().contains(k) <==> exists|j: int| 0 <= j < hooks.len() && (hooks@[j].file@, hooks@[j].name@) == k,
            forall|i: int| 0 <= i < r.keys().len() ==> last_keyed(keyed_hooks(hooks@), r.keys()[i]) == Some(#[trigger] r.values()[i]),
            forall|i: int| 0 <= i < r.keys().len() ==> r.lookup(#[trigger] r.keys()[i]) == Some(r.values()[i]),
            forall|k: KeyView| #[trigger] r.lookup(k) == last_keyed(keyed_hooks(hooks@), k),
    {
        let ghost h0 = hooks@;
        let mut hooks = hooks;
        let mut items: Vec<(RegistryKey, HookIR)> = Vec::new();
        while hooks.len() > 0
            invariant
                items@ + keyed_hooks(hooks@) == keyed_hooks(h0),
            decreases hooks.len(),
        {
            let ghost before = hooks@;
            let h = hooks.remove(0);
            let key: RegistryKey = (h.file.clone(), h.name.clone());
            items.push((key, h));
            assert(keyed_hooks(before) =~= seq![((h.file, h.name), h)] + keyed_hooks(hooks@));
            assert(items@ + keyed_hooks(hooks@) =~= keyed_hooks(h0));
        }
        assert(keyed_hooks(hooks@) =~= Seq::<(RegistryKey, HookIR)>::empty());
        assert(items@ =~= keyed_hooks(h0));
        let reg = KeyedRegistry::from_keyed(items);
        let r = HookRegistry { hooks: reg };
        proof {
            assert forall|k: KeyView| #[trigger] r.keys().contains(k) <==> exists|j: int| 0 <= j < h0.len() && (h0[j].file@, h0[j].name@) == k by {
                if exists|j: int| 0 <= j < h0.len() && (h0[j].file@, h0[j].name@) == k {
                    let j = choose|j: int| 0 <= j < h0.len() && (h0[j].file@, h0[j].name@) == k;
                    assert(item_key(keyed_hooks(h0)[j]) == k);
                }
                if r.keys().contains(k) {
                    let j = choose|j: int| 0 <= j < keyed_hooks(h0).len() && item_key(keyed_hooks(h0)[j]) == k;
                    assert((h0[j].file@, h0[j].name@) == k);
                }
            }
            assert forall|i: int| 0 <= i < r.keys().len() implies r.lookup(#[trigger] r.keys()[i]) == Some(r.values()[i]) by {
                r.hooks.lemma_lookup(i);
            }
        }
        r
    }

    /// The hook under `key`.
    pub fn get(&self, key: &HookKey) -> (r: Option<&HookIR>)
        requires
            self.wf(),
        ensures
            r is Some <==> self.keys().contains((key.0@, key.1@)),
            r matches Some(h) ==> self.lookup((key.0@, key.1@)) == Some(*h),
            r is None ==> self.lookup((key.0@, key.1@)) is None,
    {
        self.hooks.get(key)
    }

    /// The hook named `name` in the file whose path sorts first.
    pub fn get_by_name(&self, name: &Symbol) -> (r: Option<&HookIR>)
        ensures
            r is None <==> forall|i: int| 0 <= i < self.keys().len() ==> self.keys()[i].1 != name@,
            r matches Some(h) ==> exists|i: int|
                0 <= i < self.keys().len() && self.keys()[i].1 == name@ && *h == self.values()[i] && forall|j: int|
                    0 <= j < i ==> self.keys()[j].1 != name@,
    {
        let r = self.hooks.get_by_name(name);
        assert(self.keys() == self.hooks.keys() && self.values() == self.hooks.values());
        r
    }

    /// Every key, ascending.
    pub fn all_keys(&self) -> (r: Vec<HookKey>)
        ensures
            r.len() == self.keys().len(),
            forall|i: int| 0 <= i < r.len() ==> (#[trigger] r@[i].0@, r@[i].1@) == self.keys()[i],
    {
        self.hooks.all_keys()
    }

    /// The distinct hook names, ascending.
    pub fn all_names(&self) -> (r: Vec<Symbol>)
        ensures
            forall|a: int, b: int| 0 <= a < b < r.len() ==> seq_lt(r@[a]@, r@[b]@),
            forall|y: Seq<char>| #[trigger] name_views(r@).contains(y) <==> exists|i: int| 0 <= i < self.keys().len() && self.keys()[i].1 == y,
    {
        let r = self.hooks.all_names();
        assert(self.keys() == self.hooks.keys());
        r
    }
}

} // verus!
