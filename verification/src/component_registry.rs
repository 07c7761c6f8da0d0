//! The components of a run, keyed by `(file, name)`, with the identity table
//! minted from them and the resolution of a JSX callee to the component it
//! instantiates.
use vstd::prelude::*;

use crate::component::ComponentIR;
use crate::component_id::{last_id_of, has_id, origin_of, ComponentId, ComponentTable, EntryView};
use crate::expr::CompOrigin;
use crate::text::{lemma_seq_lt_order, seq_lt, str_eq, str_lt};
use crate::types::Symbol;

verus! {

/// A component's key: the file that defines it and its name there.
pub type ComponentKey = (String, Symbol);

/// A key as plain values.
pub type KeyView = (Seq<char>, Seq<char>);

/// The answer [`ComponentRegistry::resolve_child`] gives about one JSX callee.
#[derive(Debug, PartialEq, Eq)]
pub enum ChildLookup {
    /// Exactly one component can be meant.
    Resolved(ComponentKey),
    /// No component of that name was lowered: an npm component, or a file
    /// the run did not cover.
    Unknown,
    /// Several files define the name and nothing at the call site settles
    /// which. The definition is in the run; only the reference to it cannot
    /// be resolved.
    Ambiguous,
}

/// The key of a component.
pub open spec fn comp_key(c: ComponentIR) -> KeyView {
    (c.file@, c.name@)
}

/// The order of keys: by file, then by name.
pub open spec fn key_lt(a: KeyView, b: KeyView) -> bool {
    seq_lt(a.0, b.0) || (a.0 == b.0 && seq_lt(a.1, b.1))
}

/// `key_lt` is a strict total order.
pub proof fn lemma_key_lt(a: KeyView, b: KeyView, c: KeyView)
    ensures
        !key_lt(a, a),
        key_lt(a, b) ==> !key_lt(b, a),
        key_lt(a, b) || key_lt(b, a) || a == b,
        key_lt(a, b) && key_lt(b, c) ==> key_lt(a, c),
{
    lemma_seq_lt_order(a.0, b.0, c.0);
    lemma_seq_lt_order(a.1, b.1, c.1);
    lemma_seq_lt_order(b.0, c.0, a.0);
    lemma_seq_lt_order(b.1, c.1, a.1);
    lemma_seq_lt_order(c.0, a.0, b.0);
    lemma_seq_lt_order(c.1, a.1, b.1);
    lemma_seq_lt_order(a.0, c.0, b.0);
    lemma_seq_lt_order(a.1, c.1, b.1);
}

/// `true` iff key `a` sorts strictly before key `b`.
pub(crate) fn key_lt_exec(a: &ComponentKey, b: &ComponentKey) -> (r: bool)
    ensures
        r == key_lt((a.0@, a.1@), (b.0@, b.1@)),
{
    if str_lt(a.0.as_str(), b.0.as_str()) {
        return true;
    }
    str_eq(a.0.as_str(), b.0.as_str()) && str_lt(a.1.as_str(), b.1.as_str())
}

/// The last of `comps` with key `k`.
pub open spec fn last_with(comps: Seq<ComponentIR>, k: KeyView) -> Option<ComponentIR>
    decreases comps.len(),
{
    if comps.len() == 0 {
        None
    } else if comp_key(comps.last()) == k {
        Some(comps.last())
    } else {
        last_with(comps.drop_last(), k)
    }
}

/// `last_with` is the component at the greatest position with that key.
proof fn lemma_last_with(comps: Seq<ComponentIR>, k: KeyView, j: int)
    requires
        0 <= j < comps.len(),
        comp_key(comps[j]) == k,
        forall|q: int| j < q < comps.len() ==> comp_key(#[trigger] comps[q]) != k,
    ensures
        last_with(comps, k) == Some(comps[j]),
    decreases comps.len(),
{
    if j < comps.len() - 1 {
        assert(comp_key(comps[comps.len() - 1]) != k);
        assert forall|q: int| j < q < comps.drop_last().len() implies comp_key(#[trigger] comps.drop_last()[q]) != k by {
            assert(comps.drop_last()[q] == comps[q]);
        }
        lemma_last_with(comps.drop_last(), k, j);
    }
}

/// The key views of a list of entries.
pub open spec fn entry_keys(es: Seq<(ComponentKey, ComponentIR)>) -> Seq<KeyView> {
    es.map_values(|e: (ComponentKey, ComponentIR)| (e.0.0@, e.0.1@))
}

/// The table entries interning `keys` in order mints.
pub open spec fn minted(keys: Seq<KeyView>) -> Seq<EntryView> {
    Seq::new(keys.len(), |i: int| (i as u32, keys[i]))
}

/// The components of a run by `(file, name)`, and the identity table minted
/// from them in key order.
#[derive(Debug)]
pub struct ComponentRegistry {
    entries: Vec<(ComponentKey, ComponentIR)>,
    table: ComponentTable,
}

impl ComponentRegistry {
    /// The keys, ascending.
    pub closed spec fn keys(&self) -> Seq<KeyView> {
        entry_keys(self.entries@)
    }

    /// The component under the key at position `i`.
    pub closed spec fn value_at(&self, i: int) -> ComponentIR {
        self.entries@[i].1
    }

    /// The identity table.
    pub closed spec fn spec_table(&self) -> ComponentTable {
        self.table
    }

    /// Keys ascend, each entry's component carries its key, and the table
    /// gives the key at position `i` the id `i`.
    pub closed spec fn wf(&self) -> bool {
        &&& forall|i: int, j: int| 0 <= i < j < self.entries.len() ==> key_lt(self.keys()[i], self.keys()[j])
        &&& forall|i: int| 0 <= i < self.entries.len() ==> comp_key(#[trigger] self.entries@[i].1) == self.keys()[i]
        &&& self.entries.len() < u32::MAX
        &&& self.table.wf()
        &&& self.table.view() == minted(self.keys())
        &&& self.table.next_id() == self.entries.len()
    }

    /// An empty registry.
    pub fn new() -> (r: ComponentRegistry)
        ensures
            r.wf(),
            r.keys() == Seq::<KeyView>::empty(),
    {
        let r = ComponentRegistry { entries: Vec::new(), table: ComponentTable::new() };
        assert(r.keys() =~= Seq::<KeyView>::empty());
        assert(minted(r.keys()) =~= Seq::<EntryView>::empty());
        r
    }
}

/// `v` is the component at some position `j >= m` of `comps` under key
/// `k`, and no later position has that key.
pub open spec fn latest(comps: Seq<ComponentIR>, m: int, v: ComponentIR, k: KeyView) -> bool {
    exists|j: int|
        m <= j < comps.len() && v == comps[j] && comp_key(comps[j]) == k && forall|q: int|
            j < q < comps.len() ==> comp_key(#[trigger] comps[q]) != k
}

/// An origin no entry has was never interned.
proof fn lemma_last_id_none(es: Seq<EntryView>, o: KeyView)
    requires
        forall|q: int| 0 <= q < es.len() ==> (#[trigger] es[q]).1 != o,
    ensures
        last_id_of(es, o) is None,
    decreases es.len(),
{
    if es.len() > 0 {
        assert(es[es.len() - 1].1 != o);
        assert forall|q: int| 0 <= q < es.drop_last().len() implies (#[trigger] es.drop_last()[q]).1 != o by {
            assert(es.drop_last()[q] == es[q]);
        }
        lemma_last_id_none(es.drop_last(), o);
    }
}

/// The id minted for the key at position `i` is `i`.
proof fn lemma_minted_id(keys: Seq<KeyView>, i: int)
    requires
        0 <= i < keys.len(),
        keys.len() < u32::MAX,
        forall|a: int, b: int| 0 <= a < b < keys.len() ==> keys[a] != keys[b],
    ensures
        last_id_of(minted(keys), keys[i]) == Some(i as u32),
        has_id(minted(keys), i as u32),
        origin_of(minted(keys), i as u32) == keys[i],
    decreases keys.len(),
{
    let es = minted(keys);
    assert(es[i].0 == i as u32);
    let q = choose|q: int| 0 <= q < es.len() && #[trigger] es[q].0 == i as u32;
    assert(q == i);
    if i < keys.len() - 1 {
        let k2 = keys.drop_last();
        assert(minted(k2) =~= es.drop_last());
        assert(es.last().1 == keys[keys.len() - 1]);
        lemma_minted_id(k2, i);
    } else {
        assert(es.last() == (i as u32, keys[i]));
    }
}

/// No id at or past `keys.len()` is minted for `keys`.
proof fn lemma_minted_fresh(keys: Seq<KeyView>, id: u32)
    requires
        keys.len() <= id,
        keys.len() < u32::MAX,
    ensures
        !has_id(minted(keys), id),
{
    if has_id(minted(keys), id) {
        let q = choose|q: int| 0 <= q < minted(keys).len() && #[trigger] minted(keys)[q].0 == id;
        assert(minted(keys)[q].0 == q as u32);
    }
}

impl ComponentRegistry {
    /// The registry of `comps`. Of several components under one key the
    /// last is kept; ids are minted in ascending key order.
    pub fn from_components(comps: Vec<ComponentIR>) -> (r: ComponentRegistry)
        requires
            comps.len() < u32::MAX,
        ensures
            r.wf(),
            forall|k: KeyView| #[trigger] r.keys().contains(k) <==> exists|j: int| 0 <= j < comps.len() && comp_key(comps@[j]) == k,
            forall|i: int| 0 <= i < r.keys().len() ==> last_with(comps@, r.keys()[i]) == Some(#[trigger] r.value_at(i)),
    {
        let ghost c0 = comps@;
        let ghost n = comps.len() as int;
        let mut comps = comps;
        let mut entries: Vec<(ComponentKey, ComponentIR)> = Vec::new();
        while comps.len() > 0
            invariant
                c0.len() == n,
                n < u32::MAX,
                comps@ == c0.subrange(0, comps.len() as int),
                entries.len() + comps.len() <= n,
                forall|i: int, j: int| 0 <= i < j < entries.len() ==> key_lt(entry_keys(entries@)[i], entry_keys(entries@)[j]),
                forall|i: int| 0 <= i < entries.len() ==> comp_key(#[trigger] entries@[i].1) == entry_keys(entries@)[i],
                forall|k: KeyView| #[trigger] entry_keys(entries@).contains(k) <==> exists|j: int|
                    comps.len() <= j < n && comp_key(c0[j]) == k,
                forall|i: int| 0 <= i < entries.len() ==> latest(c0, comps.len() as int, #[trigger] entries@[i].1, entry_keys(entries@)[i]),
            decreases comps.len(),
        {
            let ghost m = comps.len() - 1;
            let c = comps.pop().unwrap();
            assert(c == c0[m]);
            assert(comps@ =~= c0.subrange(0, m));
            let key: ComponentKey = (c.file.clone(), c.name.clone());
            let ghost kv = (key.0@, key.1@);
            assert(kv == comp_key(c));
            let ghost old_e = entries@;
            let ghost ok = entry_keys(old_e);
            let mut p: usize = 0;
            while p < entries.len() && key_lt_exec(&entries[p].0, &key)
                invariant
                    p <= entries.len(),
                    entries@ == old_e,
                    kv == (key.0@, key.1@),
                    forall|q: int| 0 <= q < p ==> key_lt(#[trigger] entry_keys(entries@)[q], kv),
                decreases entries.len() - p,
            {
                p = p + 1;
            }
            let present = p < entries.len() && str_eq(entries[p].0.0.as_str(), key.0.as_str()) && str_eq(
                entries[p].0.1.as_str(),
                key.1.as_str(),
            );
            if present {
                proof {
                    assert(ok[p as int] == kv);
                    assert forall|k: KeyView| #[trigger] entry_keys(entries@).contains(k) <==> exists|j: int|
                        m <= j < n && comp_key(c0[j]) == k by {
                        if k == kv {
                            assert(ok[p as int] == k);
                        }
                        if exists|j: int| m <= j < n && comp_key(c0[j]) == k {
                            let j = choose|j: int| m <= j < n && comp_key(c0[j]) == k;
                            if j > m {
                                assert(exists|j2: int| m + 1 <= j2 < n && comp_key(c0[j2]) == k);
                            }
                        }
                        if entry_keys(entries@).contains(k) {
                            assert(exists|j2: int| m + 1 <= j2 < n && comp_key(c0[j2]) == k);
                            let j2 = choose|j2: int| m + 1 <= j2 < n && comp_key(c0[j2]) == k;
                            assert(m <= j2 < n);
                        }
                    }
                    assert forall|i: int| 0 <= i < entries.len() implies latest(c0, m, #[trigger] entries@[i].1, entry_keys(entries@)[i]) by {
                        assert(latest(c0, m + 1, entries@[i].1, entry_keys(entries@)[i]));
                        let j = choose|j: int|
                            m + 1 <= j < c0.len() && entries@[i].1 == c0[j] && comp_key(c0[j]) == entry_keys(entries@)[i] && forall|q: int|
                                j < q < c0.len() ==> comp_key(#[trigger] c0[q]) != entry_keys(entries@)[i];
                        assert(m <= j);
                    }
                }
            } else {
                proof {
                    if p < entries.len() {
                        assert(ok[p as int] != kv);
                        lemma_key_lt(kv, ok[p as int], kv);
                    }
                    assert(!ok.contains(kv)) by {
                        if ok.contains(kv) {
                            let q = choose|q: int| 0 <= q < ok.len() && ok[q] == kv;
                            if q < p {
                                lemma_key_lt(kv, kv, kv);
                            } else if q > p {
                                lemma_key_lt(ok[p as int], kv, kv);
                            }
                        }
                    }
                }
                entries.insert(p, (key, c));
                proof {
                    let nk = entry_keys(entries@);
                    assert(nk =~= ok.insert(p as int, kv));
                    assert forall|a: int, b: int| 0 <= a < b < entries.len() implies key_lt(nk[a], nk[b]) by {
                        if b < p {
                        } else if b == p {
                        } else if a == p {
                            if b - 1 > p {
                                lemma_key_lt(kv, ok[p as int], ok[b - 1]);
                            }
                        } else if a < p {
                            lemma_key_lt(ok[a], kv, ok[b - 1]);
                            if b - 1 >= p {
                                lemma_key_lt(ok[a], ok[p as int], ok[b - 1]);
                            }
                        }
                    }
                    assert forall|i: int| 0 <= i < entries.len() implies comp_key(#[trigger] entries@[i].1) == nk[i] by {
                        if i < p {
                            assert(entries@[i] == old_e[i]);
                        } else if i > p {
                            assert(entries@[i] == old_e[i - 1]);
                        }
                    }
                    assert forall|k: KeyView| #[trigger] nk.contains(k) <==> exists|j: int| m <= j < n && comp_key(c0[j]) == k by {
                        if nk.contains(k) {
                            let q = choose|q: int| 0 <= q < nk.len() && nk[q] == k;
                            if q == p {
                                assert(comp_key(c0[m]) == k);
                            } else {
                                if q < p {
                                    assert(ok[q] == k);
                                } else {
                                    assert(ok[q - 1] == k);
                                }
                                assert(ok.contains(k));
                                let j = choose|j: int| m + 1 <= j < n && comp_key(c0[j]) == k;
                                assert(m <= j);
                            }
                        }
                        if exists|j: int| m <= j < n && comp_key(c0[j]) == k {
                            let j = choose|j: int| m <= j < n && comp_key(c0[j]) == k;
                            if j == m {
                                assert(nk[p as int] == k);
                            } else {
                                assert(exists|j2: int| m + 1 <= j2 < n && comp_key(c0[j2]) == k);
                                assert(ok.contains(k));
                                let q = choose|q: int| 0 <= q < ok.len() && ok[q] == k;
                                if q < p {
                                    assert(nk[q] == k);
                                } else {
                                    assert(nk[q + 1] == k);
                                }
                            }
                        }
                    }
                    assert forall|i: int| 0 <= i < entries.len() implies latest(c0, m, #[trigger] entries@[i].1, nk[i]) by {
                        if i == p {
                            assert forall|q: int| m < q < c0.len() implies comp_key(#[trigger] c0[q]) != kv by {
                                if comp_key(c0[q]) == kv {
                                    assert(exists|j2: int| m + 1 <= j2 < n && comp_key(c0[j2]) == kv);
                                }
                            }
                            assert(entries@[i].1 == c0[m]);
                        } else {
                            let oi = if i < p {
                                i
                            } else {
                                i - 1
                            };
                            assert(entries@[i] == old_e[oi]);
                            assert(nk[i] == ok[oi]);
                            assert(latest(c0, m + 1, old_e[oi].1, ok[oi]));
                            let j = choose|j: int|
                                m + 1 <= j < c0.len() && old_e[oi].1 == c0[j] && comp_key(c0[j]) == ok[oi] && forall|q: int|
                                    j < q < c0.len() ==> comp_key(#[trigger] c0[q]) != ok[oi];
                            assert(m <= j);
                        }
                    }
                }
            }
        }
        let ghost keys = entry_keys(entries@);
        let mut table = ComponentTable::new();
        let mut i: usize = 0;
        while i < entries.len()
            invariant
                keys == entry_keys(entries@),
                entries.len() < u32::MAX,
                forall|a: int, b: int| 0 <= a < b < entries.len() ==> key_lt(keys[a], keys[b]),
                i <= entries.len(),
                table.wf(),
                table.view() == minted(keys.subrange(0, i as int)),
                table.next_id() == i,
            decreases entries.len() - i,
        {
            let origin = CompOrigin { file: entries[i].0.0.clone(), name: entries[i].0.1.clone() };
            proof {
                let pre = keys.subrange(0, i as int);
                assert(origin.view() == keys[i as int]);
                assert forall|q: int| 0 <= q < minted(pre).len() implies (#[trigger] minted(pre)[q]).1 != origin.view() by {
                    lemma_key_lt(keys[q], keys[i as int], keys[q]);
                }
                lemma_last_id_none(minted(pre), origin.view());
                lemma_minted_fresh(pre, i as u32);
            }
            table.intern(origin);
            proof {
                assert(minted(keys.subrange(0, i + 1)) =~= minted(keys.subrange(0, i as int)).push((i as u32, keys[i as int])));
            }
            i = i + 1;
        }
        assert(keys.subrange(0, entries.len() as int) =~= keys);
        let r = ComponentRegistry { entries, table };
        proof {
            assert forall|k: KeyView| #[trigger] r.keys().contains(k) <==> exists|j: int| 0 <= j < c0.len() && comp_key(c0[j]) == k by {}
            assert forall|i: int| 0 <= i < r.keys().len() implies last_with(c0, r.keys()[i]) == Some(#[trigger] r.value_at(i)) by {
                assert(latest(c0, 0, r.entries@[i].1, keys[i]));
                let j = choose|j: int|
                    0 <= j < c0.len() && r.entries@[i].1 == c0[j] && comp_key(c0[j]) == keys[i] && forall|q: int|
                        j < q < c0.len() ==> comp_key(#[trigger] c0[q]) != keys[i];
                lemma_last_with(c0, keys[i], j);
            }
        }
        r
    }
}

/// How many keys carry the name `name`.
pub open spec fn count_named(keys: Seq<KeyView>, name: Seq<char>) -> nat
    decreases keys.len(),
{
    if keys.len() == 0 {
        0
    } else {
        count_named(keys.drop_last(), name) + if keys.last().1 == name {
            1nat
        } else {
            0nat
        }
    }
}

/// The components of `vals` named `name`, in order.
pub open spec fn named_comps(vals: Seq<ComponentIR>, name: Seq<char>) -> Seq<ComponentIR>
    decreases vals.len(),
{
    if vals.len() == 0 {
        Seq::empty()
    } else {
        let prev = named_comps(vals.drop_last(), name);
        if vals.last().name@ == name {
            prev.push(vals.last())
        } else {
            prev
        }
    }
}

/// A callee's origin that is the key of some component.
pub open spec fn origin_hit(keys: Seq<KeyView>, origin: Option<&CompOrigin>) -> bool {
    match origin {
        Some(o) => keys.contains(o@),
        None => false,
    }
}

/// A prefix counts no more than the whole.
proof fn lemma_count_prefix(keys: Seq<KeyView>, name: Seq<char>, i: int)
    requires
        0 <= i <= keys.len(),
    ensures
        count_named(keys.subrange(0, i), name) <= count_named(keys, name),
    decreases keys.len(),
{
    if i < keys.len() {
        assert(keys.drop_last().subrange(0, i) =~= keys.subrange(0, i));
        lemma_count_prefix(keys.drop_last(), name, i);
    } else {
        assert(keys.subrange(0, i) =~= keys);
    }
}

impl ComponentRegistry {
    /// The components, in key order.
    pub closed spec fn values(&self) -> Seq<ComponentIR> {
        self.entries@.map_values(|e: (ComponentKey, ComponentIR)| e.1)
    }

    /// The identity table this registry minted.
    pub fn table(&self) -> (r: &ComponentTable)
        ensures
            *r == self.spec_table(),
    {
        &self.table
    }

    /// The position of `key`, if it is a key.
    fn position(&self, key: &ComponentKey) -> (r: Option<usize>)
        requires
            self.wf(),
        ensures
            r matches Some(i) ==> i < self.keys().len() && self.keys()[i as int] == (key.0@, key.1@),
            r is None ==> !self.keys().contains((key.0@, key.1@)),
    {
        let mut i: usize = 0;
        while i < self.entries.len()
            invariant
                i <= self.entries.len(),
                forall|q: int| 0 <= q < i ==> self.keys()[q] != (key.0@, key.1@),
            decreases self.entries.len() - i,
        {
            if str_eq(self.entries[i].0.0.as_str(), key.0.as_str()) && str_eq(self.entries[i].0.1.as_str(), key.1.as_str()) {
                return Some(i);
            }
            i = i + 1;
        }
        None
    }

    /// The component under `key`.
    pub fn get(&self, key: &ComponentKey) -> (r: Option<&ComponentIR>)
        requires
            self.wf(),
        ensures
            r is Some <==> self.keys().contains((key.0@, key.1@)),
            r matches Some(c) ==> exists|i: int| 0 <= i < self.keys().len() && self.keys()[i] == (key.0@, key.1@) && *c == self.value_at(i),
    {
        match self.position(key) {
            Some(i) => {
                assert(self.value_at(i as int) == self.entries@[i as int].1);
                Some(&self.entries[i].1)
            },
            None => None,
        }
    }

    /// The id of `key`: its position in key order.
    pub fn id(&self, key: &ComponentKey) -> (r: Option<ComponentId>)
        requires
            self.wf(),
        ensures
            r is Some <==> self.keys().contains((key.0@, key.1@)),
            r matches Some(c) ==> c.0 < self.keys().len() && self.keys()[c.0 as int] == (key.0@, key.1@),
    {
        let o = CompOrigin { file: key.0.clone(), name: key.1.clone() };
        let r = self.table.id_of(&o);
        proof {
            let keys = self.keys();
            assert forall|a: int, b: int| 0 <= a < b < keys.len() implies keys[a] != keys[b] by {
                lemma_key_lt(keys[a], keys[b], keys[a]);
            }
            if keys.contains(o.view()) {
                let i = choose|i: int| 0 <= i < keys.len() && keys[i] == o.view();
                lemma_minted_id(keys, i);
            } else {
                assert forall|q: int| 0 <= q < minted(keys).len() implies (#[trigger] minted(keys)[q]).1 != o.view() by {
                    assert(minted(keys)[q].1 == keys[q]);
                }
                lemma_last_id_none(minted(keys), o.view());
            }
        }
        r
    }

    /// The key `id` names; `None` for an id no component has.
    pub fn key_of(&self, id: ComponentId) -> (r: Option<ComponentKey>)
        requires
            self.wf(),
        ensures
            r is Some <==> id.0 < self.keys().len(),
            r matches Some(k) ==> (k.0@, k.1@) == self.keys()[id.0 as int],
    {
        let o = self.table.origin(id);
        proof {
            let keys = self.keys();
            assert forall|a: int, b: int| 0 <= a < b < keys.len() implies keys[a] != keys[b] by {
                lemma_key_lt(keys[a], keys[b], keys[a]);
            }
            if id.0 < keys.len() {
                lemma_minted_id(keys, id.0 as int);
            } else {
                lemma_minted_fresh(keys, id.0);
            }
        }
        match o {
            Some(o) => Some((o.file.clone(), o.name.clone())),
            None => None,
        }
    }

    /// The component `id` names.
    pub fn ir_of(&self, id: ComponentId) -> (r: Option<&ComponentIR>)
        requires
            self.wf(),
        ensures
            r is Some <==> id.0 < self.keys().len(),
            r matches Some(c) ==> *c == self.value_at(id.0 as int),
    {
        let i = id.index();
        if (i as usize) < self.entries.len() {
            Some(&self.entries[i as usize].1)
        } else {
            None
        }
    }

    /// Which component a JSX callee written `name` instantiates. An origin
    /// the lowering resolved, when some component has it as key, settles it;
    /// otherwise the name does: one component of that name is meant, none
    /// is `Unknown`, several are `Ambiguous` rather than a guess.
    pub fn resolve_child(&self, name: &Symbol, origin: Option<&CompOrigin>) -> (r: ChildLookup)
        requires
            self.wf(),
        ensures
            origin_hit(self.keys(), origin) ==> (r matches ChildLookup::Resolved(k) && (k.0@, k.1@) == origin->0@),
            !origin_hit(self.keys(), origin) ==> {
                &&& r is Unknown <==> count_named(self.keys(), name@) == 0
                &&& r is Ambiguous <==> count_named(self.keys(), name@) >= 2
                &&& r matches ChildLookup::Resolved(k) ==> self.keys().contains((k.0@, k.1@)) && k.1@ == name@
                    && count_named(self.keys(), name@) == 1
            },
    {
        if let Some(o) = origin {
            let key: ComponentKey = (o.file.clone(), o.name.clone());
            if self.position(&key).is_some() {
                return ChildLookup::Resolved(key);
            }
        }
        let ghost keys = self.keys();
        let mut first: Option<usize> = None;
        let mut count: usize = 0;
        let mut i: usize = 0;
        while i < self.entries.len() && count < 2
            invariant
                keys == self.keys(),
                i <= self.entries.len(),
                count <= 2,
                count == count_named(keys.subrange(0, i as int), name@),
                count == 0 <==> first is None,
                first matches Some(f) ==> f < i && keys[f as int].1 == name@,
            decreases self.entries.len() - i,
        {
            assert(keys.subrange(0, i + 1).drop_last() =~= keys.subrange(0, i as int));
            if str_eq(self.entries[i].0.1.as_str(), name.as_str()) {
                if first.is_none() {
                    first = Some(i);
                }
                count = count + 1;
            }
            i = i + 1;
        }
        proof {
            if count < 2 {
                assert(keys.subrange(0, i as int) =~= keys);
            } else {
                lemma_count_prefix(keys, name@, i as int);
            }
        }
        match first {
            Some(f) => {
                if count == 1 {
                    ChildLookup::Resolved((self.entries[f].0.0.clone(), self.entries[f].0.1.clone()))
                } else {
                    ChildLookup::Ambiguous
                }
            },
            None => ChildLookup::Unknown,
        }
    }
}

/// The views of a list of names.
pub open spec fn name_views(v: Seq<Symbol>) -> Seq<Seq<char>> {
    v.map_values(|x: Symbol| x@)
}

/// Add `x` to the ascending list `v` unless it is there.
pub(crate) fn insert_name(v: &mut Vec<Symbol>, x: &Symbol)
    requires
        forall|a: int, b: int| 0 <= a < b < old(v).len() ==> seq_lt(old(v)@[a]@, old(v)@[b]@),
    ensures
        forall|a: int, b: int| 0 <= a < b < final(v).len() ==> seq_lt(final(v)@[a]@, final(v)@[b]@),
        forall|y: Seq<char>| #[trigger] name_views(final(v)@).contains(y) <==> name_views(old(v)@).contains(y) || y == x@,
{
    let mut p: usize = 0;
    while p < v.len() && str_lt(v[p].as_str(), x.as_str())
        invariant
            p <= v.len(),
            forall|q: int| 0 <= q < p ==> seq_lt(#[trigger] v@[q]@, x@),
        decreases v.len() - p,
    {
        p = p + 1;
    }
    let ghost old_v = v@;
    if p < v.len() && str_eq(v[p].as_str(), x.as_str()) {
        proof {
            assert forall|y: Seq<char>| #[trigger] name_views(v@).contains(y) <==> name_views(old_v).contains(y) || y == x@ by {
                if y == x@ {
                    assert(name_views(v@)[p as int] == y);
                }
            }
        }
        return;
    }
    proof {
        if p < v.len() {
            lemma_seq_lt_order(x@, v@[p as int]@, x@);
        }
    }
    v.insert(p, x.clone());
    proof {
        assert forall|a: int, b: int| 0 <= a < b < v.len() implies seq_lt(v@[a]@, v@[b]@) by {
            if b < p {
                assert(v@[a] == old_v[a] && v@[b] == old_v[b]);
            } else if b == p {
                assert(v@[a] == old_v[a]);
            } else if a == p {
                assert(v@[b] == old_v[b - 1]);
                if b - 1 > p {
                    lemma_seq_lt_order(x@, old_v[p as int]@, old_v[b - 1]@);
                }
            } else if a < p {
                assert(v@[a] == old_v[a] && v@[b] == old_v[b - 1]);
                lemma_seq_lt_order(old_v[a]@, x@, old_v[b - 1]@);
                if b - 1 >= p {
                    lemma_seq_lt_order(old_v[a]@, old_v[p as int]@, old_v[b - 1]@);
                }
            } else {
                assert(v@[a] == old_v[a - 1] && v@[b] == old_v[b - 1]);
            }
        }
        assert forall|y: Seq<char>| #[trigger] name_views(v@).contains(y) <==> name_views(old_v).contains(y) || y == x@ by {
            if name_views(v@).contains(y) {
                let a = choose|a: int| 0 <= a < v.len() && name_views(v@)[a] == y;
                if a < p {
                    assert(name_views(old_v)[a] == y);
                } else if a > p {
                    assert(name_views(old_v)[a - 1] == y);
                }
            }
            if y == x@ {
                assert(name_views(v@)[p as int] == y);
            }
            if name_views(old_v).contains(y) {
                let a = choose|a: int| 0 <= a < old_v.len() && name_views(old_v)[a] == y;
                if a < p {
                    assert(name_views(v@)[a] == y);
                } else {
                    assert(name_views(v@)[a + 1] == y);
                }
            }
        }
    }
}

impl ComponentRegistry {
    /// All components written `name`, across every file, ordered by file.
    pub fn find_all_by_name(&self, name: &Symbol) -> (r: Vec<&ComponentIR>)
        requires
            self.wf(),
        ensures
            r@.map_values(|c: &ComponentIR| *c) == named_comps(self.values(), name@),
    {
        let mut r: Vec<&ComponentIR> = Vec::new();
        let mut i: usize = 0;
        while i < self.entries.len()
            invariant
                i <= self.entries.len(),
                r@.map_values(|c: &ComponentIR| *c) == named_comps(self.values().subrange(0, i as int), name@),
            decreases self.entries.len() - i,
        {
            let ghost before = r@;
            assert(self.values().subrange(0, i + 1).drop_last() =~= self.values().subrange(0, i as int));
            if str_eq(self.entries[i].1.name.as_str(), name.as_str()) {
                r.push(&self.entries[i].1);
                assert(r@.map_values(|c: &ComponentIR| *c) =~= before.map_values(|c: &ComponentIR| *c).push(
                    self.entries@[i as int].1,
                ));
            }
            i = i + 1;
        }
        assert(self.values().subrange(0, self.entries.len() as int) =~= self.values());
        r
    }

    /// Every component, in key order.
    pub fn all_components(&self) -> (r: Vec<&ComponentIR>)
        ensures
            r@.map_values(|c: &ComponentIR| *c) == self.values(),
    {
        let mut r: Vec<&ComponentIR> = Vec::new();
        let mut i: usize = 0;
        while i < self.entries.len()
            invariant
                i <= self.entries.len(),
                r@.map_values(|c: &ComponentIR| *c) == self.values().subrange(0, i as int),
            decreases self.entries.len() - i,
        {
            let ghost before = r@;
            r.push(&self.entries[i].1);
            assert(self.values()[i as int] == self.entries@[i as int].1);
            assert(r@.map_values(|c: &ComponentIR| *c) =~= before.map_values(|c: &ComponentIR| *c).push(self.values()[i as int]));
            assert(self.values().subrange(0, i + 1) =~= self.values().subrange(0, i as int).push(self.values()[i as int]));
            i = i + 1;
        }
        assert(self.values().subrange(0, self.entries.len() as int) =~= self.values());
        r
    }

    /// The distinct component names, ascending.
    pub fn all_names(&self) -> (r: Vec<Symbol>)
        ensures
            forall|a: int, b: int| 0 <= a < b < r.len() ==> seq_lt(r@[a]@, r@[b]@),
            forall|y: Seq<char>| #[trigger] name_views(r@).contains(y) <==> exists|i: int| 0 <= i < self.keys().len() && self.keys()[i].1 == y,
    {
        let mut r: Vec<Symbol> = Vec::new();
        let mut i: usize = 0;
        while i < self.entries.len()
            invariant
                i <= self.entries.len(),
                forall|a: int, b: int| 0 <= a < b < r.len() ==> seq_lt(r@[a]@, r@[b]@),
                forall|y: Seq<char>| #[trigger] name_views(r@).contains(y) <==> exists|q: int| 0 <= q < i && self.keys()[q].1 == y,
            decreases self.entries.len() - i,
        {
            insert_name(&mut r, &self.entries[i].0.1);
            proof {
                assert forall|y: Seq<char>| #[trigger] name_views(r@).contains(y) <==> exists|q: int| 0 <= q < i + 1 && self.keys()[q].1 == y by {
                    assert(self.keys()[i as int].1 == self.entries@[i as int].0.1@);
                    if exists|q: int| 0 <= q < i + 1 && self.keys()[q].1 == y {
                        let q = choose|q: int| 0 <= q < i + 1 && self.keys()[q].1 == y;
                        if q < i {
                            assert(exists|q2: int| 0 <= q2 < i && self.keys()[q2].1 == y);
                        }
                    }
                }
            }
            i = i + 1;
        }
        r
    }

    /// The number of components.
    pub fn len(&self) -> (r: usize)
        ensures
            r == self.keys().len(),
    {
        self.entries.len()
    }

    /// `true` iff there is no component.
    pub fn is_empty(&self) -> (r: bool)
        ensures
            r <==> self.keys().len() == 0,
    {
        self.entries.len() == 0
    }
}

impl ComponentRegistry {
    /// What the table holds: the key at position `i` under id `i`, and
    /// nothing else; the component at position `i` carries that key.
    pub proof fn lemma_table(&self)
        requires
            self.wf(),
        ensures
            self.spec_table().wf(),
            self.values().len() == self.keys().len(),
            self.keys().len() < u32::MAX,
            forall|id: u32| #[trigger] has_id(self.spec_table().view(), id) <==> id < self.keys().len(),
            forall|i: int| 0 <= i < self.keys().len() ==> origin_of(self.spec_table().view(), i as u32) == #[trigger] self.keys()[i],
            forall|i: int| 0 <= i < self.keys().len() ==> comp_key(#[trigger] self.values()[i]) == self.keys()[i],
    {
        let keys = self.keys();
        assert forall|a: int, b: int| 0 <= a < b < keys.len() implies keys[a] != keys[b] by {
            lemma_key_lt(keys[a], keys[b], keys[a]);
        }
        assert forall|id: u32| #[trigger] has_id(self.spec_table().view(), id) <==> id < keys.len() by {
            if id < keys.len() {
                lemma_minted_id(keys, id as int);
            } else {
                lemma_minted_fresh(keys, id);
            }
        }
        assert forall|i: int| 0 <= i < keys.len() implies origin_of(self.spec_table().view(), i as u32) == #[trigger] keys[i] by {
            lemma_minted_id(keys, i);
        }
        assert forall|i: int| 0 <= i < keys.len() implies comp_key(#[trigger] self.values()[i]) == keys[i] by {
            assert(self.values()[i] == self.entries@[i].1);
        }
    }
}

} // verus!
