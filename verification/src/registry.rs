//! A registry of lowered definitions keyed by `(file, name)`: two files may
//! define the same name without one overwriting the other.
use vstd::prelude::*;

use crate::component_registry::{insert_name, key_lt, key_lt_exec, lemma_key_lt, name_views, KeyView};
use crate::text::{seq_lt, str_eq};
use crate::types::Symbol;

verus! {

/// A definition's key: the file that defines it and its name there.
pub type RegistryKey = (String, Symbol);

/// The key of one keyed item, as plain values.
pub open spec fn item_key<T>(e: (RegistryKey, T)) -> KeyView {
    (e.0.0@, e.0.1@)
}

/// The keys of a list of keyed items.
pub open spec fn item_keys<T>(es: Seq<(RegistryKey, T)>) -> Seq<KeyView> {
    es.map_values(|e: (RegistryKey, T)| item_key(e))
}

/// The value of the last of `items` under key `k`.
pub open spec fn last_keyed<T>(items: Seq<(RegistryKey, T)>, k: KeyView) -> Option<T>
    decreases items.len(),
{
    if items.len() == 0 {
        None
    } else if item_key(items.last()) == k {
        Some(items.last().1)
    } else {
        last_keyed(items.drop_last(), k)
    }
}

/// `v` is the value at some position `j >= m` of `items` under key `k`, and
/// no later position has that key.
pub open spec fn latest_keyed<T>(items: Seq<(RegistryKey, T)>, m: int, v: T, k: KeyView) -> bool {
    exists|j: int|
        m <= j < items.len() && items[j].1 == v && item_key(items[j]) == k && forall|q: int|
            j < q < items.len() ==> item_key(#[trigger] items[q]) != k
}

/// `last_keyed` is the value at the greatest position with that key.
proof fn lemma_last_keyed<T>(items: Seq<(RegistryKey, T)>, k: KeyView, j: int)
    requires
        0 <= j < items.len(),
        item_key(items[j]) == k,
        forall|q: int| j < q < items.len() ==> item_key(#[trigger] items[q]) != k,
    ensures
        last_keyed(items, k) == Some(items[j].1),
    decreases items.len(),
{
    if j < items.len() - 1 {
        assert(item_key(items[items.len() - 1]) != k);
        assert forall|q: int| j < q < items.drop_last().len() implies item_key(#[trigger] items.drop_last()[q]) != k by {
            assert(items.drop_last()[q] == items[q]);
        }
        lemma_last_keyed(items.drop_last(), k, j);
    }
}

/// With no item under `k` there is no last one.
proof fn lemma_last_keyed_none<T>(items: Seq<(RegistryKey, T)>, k: KeyView)
    requires
        forall|j: int| 0 <= j < items.len() ==> item_key(#[trigger] items[j]) != k,
    ensures
        last_keyed(items, k) is None,
    decreases items.len(),
{
    if items.len() > 0 {
        assert(item_key(items[items.len() - 1]) != k);
        assert forall|j: int| 0 <= j < items.drop_last().len() implies item_key(#[trigger] items.drop_last()[j]) != k by {
            assert(items.drop_last()[j] == items[j]);
        }
        lemma_last_keyed_none(items.drop_last(), k);
    }
}

/// Definitions by `(file, name)`, kept in ascending key order.
#[derive(Debug)]
pub struct KeyedRegistry<T> {
    entries: Vec<(RegistryKey, T)>,
}

impl<T> KeyedRegistry<T> {
    /// The keys, ascending.
    pub closed spec fn keys(&self) -> Seq<KeyView> {
        item_keys(self.entries@)
    }

    /// The values, in key order.
    pub closed spec fn values(&self) -> Seq<T> {
        self.entries@.map_values(|e: (RegistryKey, T)| e.1)
    }

    /// Keys strictly ascend.
    pub closed spec fn wf(&self) -> bool {
        forall|i: int, j: int| 0 <= i < j < self.entries.len() ==> key_lt(self.keys()[i], self.keys()[j])
    }

    /// The value under key `k`, if any.
    pub open spec fn lookup(&self, k: KeyView) -> Option<T> {
        if self.keys().contains(k) {
            Some(self.values()[self.keys().index_of(k)])
        } else {
            None
        }
    }

    /// There are as many values as keys.
    pub proof fn lemma_lens(&self)
        ensures
            self.keys().len() == self.values().len(),
    {
    }

    /// The value under the key at position `i` is the one at position `i`.
    pub proof fn lemma_lookup(&self, i: int)
        requires
            self.wf(),
            0 <= i < self.keys().len(),
        ensures
            self.lookup(self.keys()[i]) == Some(self.values()[i]),
    {
        let k = self.keys()[i];
        assert(self.keys().contains(k));
        let c = self.keys().index_of(k);
        if c != i {
            if c < i {
                lemma_key_lt(self.keys()[c], self.keys()[i], self.keys()[c]);
            } else {
                lemma_key_lt(self.keys()[i], self.keys()[c], self.keys()[i]);
            }
        }
        assert(c == i);
        assert(self.values()[i] == self.entries@[i].1);
    }

    /// Each key comes once, and there is one value per key.
    pub proof fn lemma_wf(&self)
        requires
            self.wf(),
        ensures
            self.values().len() == self.keys().len(),
            forall|i: int, j: int| 0 <= i < j < self.keys().len() ==> self.keys()[i] != self.keys()[j],
    {
        assert forall|i: int, j: int| 0 <= i < j < self.keys().len() implies self.keys()[i] != self.keys()[j] by {
            lemma_key_lt(self.keys()[i], self.keys()[j], self.keys()[i]);
        }
    }

    /// An empty registry.
    pub fn new() -> (r: KeyedRegistry<T>)
        ensures
            r.wf(),
            r.keys() == Seq::<KeyView>::empty(),
    {
        let r = KeyedRegistry { entries: Vec::new() };
        assert(r.keys() =~= Seq::<KeyView>::empty());
        r
    }

    /// The registry of `items`. Of several items under one key the last is
    /// kept.
    pub fn from_keyed(items: Vec<(RegistryKey, T)>) -> (r: KeyedRegistry<T>)
        ensures
            r.wf(),
            r.values().len() == r.keys().len(),
            forall|k: KeyView| #[trigger] r.keys().contains(k) <==> exists|j: int| 0 <= j < items.len() && item_key(items@[j]) == k,
            forall|i: int| 0 <= i < r.keys().len() ==> last_keyed(items@, r.keys()[i]) == Some(#[trigger] r.values()[i]),
            forall|k: KeyView| #[trigger] r.lookup(k) == last_keyed(items@, k),
    {
        let ghost c0 = items@;
        let ghost n = items.len() as int;
        let mut items = items;
        let mut entries: Vec<(RegistryKey, T)> = Vec::new();
        while items.len() > 0
            invariant
                c0.len() == n,
                items@ == c0.subrange(0, items.len() as int),
                entries.len() + items.len() <= n,
                forall|i: int, j: int| 0 <= i < j < entries.len() ==> key_lt(item_keys(entries@)[i], item_keys(entries@)[j]),
                forall|k: KeyView| #[trigger] item_keys(entries@).contains(k) <==> exists|j: int|
                    items.len() <= j < n && item_key(c0[j]) == k,
                forall|i: int| 0 <= i < entries.len() ==> latest_keyed(c0, items.len() as int, #[trigger] entries@[i].1, item_keys(entries@)[i]),
            decreases items.len(),
        {
            let ghost m = items.len() - 1;
            let item = items.pop().unwrap();
            assert(item == c0[m]);
            assert(items@ =~= c0.subrange(0, m));
            let ghost kv = item_key(item);
            let ghost old_e = entries@;
            let ghost ok = item_keys(old_e);
            let mut p: usize = 0;
            while p < entries.len() && key_lt_exec(&entries[p].0, &item.0)
                invariant
                    p <= entries.len(),
                    entries@ == old_e,
                    ok == item_keys(old_e),
                    kv == (item.0.0@, item.0.1@),
                    forall|q: int| 0 <= q < p ==> key_lt(#[trigger] ok[q], kv),
                decreases entries.len() - p,
            {
                assert(ok[p as int] == (entries@[p as int].0.0@, entries@[p as int].0.1@));
                p = p + 1;
            }
            let present = p < entries.len() && str_eq(entries[p].0.0.as_str(), item.0.0.as_str()) && str_eq(
                entries[p].0.1.as_str(),
                item.0.1.as_str(),
            );
            if present {
                proof {
                    assert(ok[p as int] == kv);
                    assert forall|k: KeyView| #[trigger] item_keys(entries@).contains(k) <==> exists|j: int|
                        m <= j < n && item_key(c0[j]) == k by {
                        if k == kv {
                            assert(ok[p as int] == k);
                        }
                        if exists|j: int| m <= j < n && item_key(c0[j]) == k {
                            let j = choose|j: int| m <= j < n && item_key(c0[j]) == k;
                            if j > m {
                                assert(exists|j2: int| m + 1 <= j2 < n && item_key(c0[j2]) == k);
                            }
                        }
                        if item_keys(entries@).contains(k) {
                            assert(exists|j2: int| m + 1 <= j2 < n && item_key(c0[j2]) == k);
                            let j2 = choose|j2: int| m + 1 <= j2 < n && item_key(c0[j2]) == k;
                            assert(m <= j2 < n);
                        }
                    }
                    assert forall|i: int| 0 <= i < entries.len() implies latest_keyed(c0, m, #[trigger] entries@[i].1, item_keys(entries@)[i]) by {
                        assert(latest_keyed(c0, m + 1, entries@[i].1, item_keys(entries@)[i]));
                        let j = choose|j: int|
                            m + 1 <= j < c0.len() && entries@[i].1 == c0[j].1 && item_key(c0[j]) == item_keys(entries@)[i] && forall|q: int|
                                j < q < c0.len() ==> item_key(#[trigger] c0[q]) != item_keys(entries@)[i];
                        assert(m <= j);
                    }
                }
            } else {
                proof {
                    if p < entries.len() {
                        assert(ok[p as int] != kv);
                        lemma_key_lt(kv, ok[p as int], kv);
                    }
                    assert(!ok.contains(kv)) by {
                        if ok.contains(kv) {
                            let q = choose|q: int| 0 <= q < ok.len() && ok[q] == kv;
                            if q < p {
                                lemma_key_lt(kv, kv, kv);
                            } else if q > p {
                                lemma_key_lt(ok[p as int], kv, kv);
                            }
                        }
                    }
                }
                entries.insert(p, item);
                proof {
                    let nk = item_keys(entries@);
                    assert(nk =~= ok.insert(p as int, kv));
                    assert forall|a: int, b: int| 0 <= a < b < entries.len() implies key_lt(nk[a], nk[b]) by {
                        if b < p {
                        } else if b == p {
                        } else if a == p {
                            if b - 1 > p {
                                lemma_key_lt(kv, ok[p as int], ok[b - 1]);
                            }
                        } else if a < p {
                            lemma_key_lt(ok[a], kv, ok[b - 1]);
                            if b - 1 >= p {
                                lemma_key_lt(ok[a], ok[p as int], ok[b - 1]);
                            }
                        }
                    }
                    assert forall|k: KeyView| #[trigger] nk.contains(k) <==> exists|j: int| m <= j < n && item_key(c0[j]) == k by {
                        if nk.contains(k) {
                            let q = choose|q: int| 0 <= q < nk.len() && nk[q] == k;
                            if q == p {
                                assert(item_key(c0[m]) == k);
                            } else {
                                if q < p {
                                    assert(ok[q] == k);
                                } else {
                                    assert(ok[q - 1] == k);
                                }
                                assert(ok.contains(k));
                                let j = choose|j: int| m + 1 <= j < n && item_key(c0[j]) == k;
                                assert(m <= j);
                            }
                        }
                        if exists|j: int| m <= j < n && item_key(c0[j]) == k {
                            let j = choose|j: int| m <= j < n && item_key(c0[j]) == k;
                            if j == m {
                                assert(nk[p as int] == k);
                            } else {
                                assert(exists|j2: int| m + 1 <= j2 < n && item_key(c0[j2]) == k);
                                assert(ok.contains(k));
                                let q = choose|q: int| 0 <= q < ok.len() && ok[q] == k;
                                if q < p {
                                    assert(nk[q] == k);
                                } else {
                                    assert(nk[q + 1] == k);
                                }
                            }
                        }
                    }
                    assert forall|i: int| 0 <= i < entries.len() implies latest_keyed(c0, m, #[trigger] entries@[i].1, nk[i]) by {
                        if i == p {
                            assert forall|q: int| m < q < c0.len() implies item_key(#[trigger] c0[q]) != kv by {
                                if item_key(c0[q]) == kv {
                                    assert(exists|j2: int| m + 1 <= j2 < n && item_key(c0[j2]) == kv);
                                }
                            }
                            assert(entries@[i] == c0[m]);
                        } else {
                            let oi = if i < p {
                                i
                            } else {
                                i - 1
                            };
                            assert(entries@[i] == old_e[oi]);
                            assert(nk[i] == ok[oi]);
                            assert(latest_keyed(c0, m + 1, old_e[oi].1, ok[oi]));
                            let j = choose|j: int|
                                m + 1 <= j < c0.len() && old_e[oi].1 == c0[j].1 && item_key(c0[j]) == ok[oi] && forall|q: int|
                                    j < q < c0.len() ==> item_key(#[trigger] c0[q]) != ok[oi];
                            assert(m <= j);
                        }
                    }
                }
            }
        }
        let r = KeyedRegistry { entries };
        proof {
            let keys = r.keys();
            assert forall|k: KeyView| #[trigger] r.keys().contains(k) <==> exists|j: int| 0 <= j < c0.len() && item_key(c0[j]) == k by {}
            assert forall|i: int| 0 <= i < r.keys().len() implies last_keyed(c0, r.keys()[i]) == Some(#[trigger] r.values()[i]) by {
                assert(latest_keyed(c0, 0, r.entries@[i].1, keys[i]));
                let j = choose|j: int|
                    0 <= j < c0.len() && r.entries@[i].1 == c0[j].1 && item_key(c0[j]) == keys[i] && forall|q: int|
                        j < q < c0.len() ==> item_key(#[trigger] c0[q]) != keys[i];
                lemma_last_keyed(c0, keys[i], j);
            }
            assert forall|k: KeyView| #[trigger] r.lookup(k) == last_keyed(c0, k) by {
                if r.keys().contains(k) {
                    let i = choose|i: int| 0 <= i < r.keys().len() && r.keys()[i] == k;
                    r.lemma_lookup(i);
                } else {
                    assert forall|j: int| 0 <= j < c0.len() implies item_key(#[trigger] c0[j]) != k by {}
                    lemma_last_keyed_none(c0, k);
                }
            }
        }
        r
    }
}

impl<T> KeyedRegistry<T> {
    /// The position of `key`, if it is a key.
    fn position(&self, key: &RegistryKey) -> (r: Option<usize>)
        ensures
            r matches Some(i) ==> i < self.keys().len() && self.keys()[i as int] == (key.0@, key.1@),
            r is None ==> !self.keys().contains((key.0@, key.1@)),
    {
        let mut i: usize = 0;
        while i < self.entries.len()
            invariant
                i <= self.entries.len(),
                forall|q: int| 0 <= q < i ==> self.keys()[q] != (key.0@, key.1@),
            decreases self.entries.len() - i,
        {
            if str_eq(self.entries[i].0.0.as_str(), key.0.as_str()) && str_eq(self.entries[i].0.1.as_str(), key.1.as_str()) {
                return Some(i);
            }
            i = i + 1;
        }
        None
    }

    /// The value under `key`.
    pub fn get(&self, key: &RegistryKey) -> (r: Option<&T>)
        requires
            self.wf(),
        ensures
            r is Some <==> self.keys().contains((key.0@, key.1@)),
            r matches Some(v) ==> exists|i: int| 0 <= i < self.keys().len() && self.keys()[i] == (key.0@, key.1@) && *v == self.values()[i],
            r matches Some(v) ==> self.lookup((key.0@, key.1@)) == Some(*v),
            r is None ==> self.lookup((key.0@, key.1@)) is None,
    {
        match self.position(key) {
            Some(i) => {
                assert(self.values()[i as int] == self.entries@[i as int].1);
                proof {
                    self.lemma_lookup(i as int);
                }
                Some(&self.entries[i].1)
            },
            None => None,
        }
    }

    /// `true` iff `key` is a key.
    pub fn contains(&self, key: &RegistryKey) -> (r: bool)
        ensures
            r <==> self.keys().contains((key.0@, key.1@)),
    {
        self.position(key).is_some()
    }

    /// The value of the first key, in key order, whose name is `name`: of
    /// several files defining the name, the one whose path sorts first.
    pub fn get_by_name(&self, name: &Symbol) -> (r: Option<&T>)
        ensures
            r is None <==> forall|i: int| 0 <= i < self.keys().len() ==> self.keys()[i].1 != name@,
            r matches Some(v) ==> exists|i: int|
                0 <= i < self.keys().len() && self.keys()[i].1 == name@ && *v == self.values()[i] && forall|j: int|
                    0 <= j < i ==> self.keys()[j].1 != name@,
    {
        let mut i: usize = 0;
        while i < self.entries.len()
            invariant
                i <= self.entries.len(),
                forall|q: int| 0 <= q < i ==> self.keys()[q].1 != name@,
            decreases self.entries.len() - i,
        {
            if str_eq(self.entries[i].0.1.as_str(), name.as_str()) {
                assert(self.values()[i as int] == self.entries@[i as int].1);
                assert(self.keys()[i as int].1 == name@);
                return Some(&self.entries[i].1);
            }
            i = i + 1;
        }
        None
    }

    /// Every value, in key order.
    pub fn values_in_order(&self) -> (r: Vec<&T>)
        ensures
            r@.map_values(|v: &T| *v) == self.values(),
    {
        let mut r: Vec<&T> = Vec::new();
        let mut i: usize = 0;
        while i < self.entries.len()
            invariant
                i <= self.entries.len(),
                r@.map_values(|v: &T| *v) == self.values().subrange(0, i as int),
            decreases self.entries.len() - i,
        {
            let ghost before = r@;
            r.push(&self.entries[i].1);
            assert(self.values()[i as int] == self.entries@[i as int].1);
            assert(r@.map_values(|v: &T| *v) =~= before.map_values(|v: &T| *v).push(self.values()[i as int]));
            assert(self.values().subrange(0, i + 1) =~= self.values().subrange(0, i as int).push(self.values()[i as int]));
            i = i + 1;
        }
        assert(self.values().subrange(0, self.entries.len() as int) =~= self.values());
        r
    }

    /// Every key, ascending.
    pub fn all_keys(&self) -> (r: Vec<RegistryKey>)
        ensures
            item_keys(r@.map_values(|k: RegistryKey| (k, ()))) == self.keys(),
            r.len() == self.keys().len(),
            forall|i: int| 0 <= i < r.len() ==> (#[trigger] r@[i].0@, r@[i].1@) == self.keys()[i],
    {
        let mut r: Vec<RegistryKey> = Vec::new();
        let mut i: usize = 0;
        while i < self.entries.len()
            invariant
                i <= self.entries.len(),
                r.len() == i,
                forall|q: int| 0 <= q < i ==> (#[trigger] r@[q].0@, r@[q].1@) == self.keys()[q],
            decreases self.entries.len() - i,
        {
            let k: RegistryKey = (self.entries[i].0.0.clone(), self.entries[i].0.1.clone());
            r.push(k);
            i = i + 1;
        }
        assert(item_keys(r@.map_values(|k: RegistryKey| (k, ()))) =~= self.keys());
        r
    }

    /// The distinct names, ascending.
    pub fn all_names(&self) -> (r: Vec<Symbol>)
        ensures
            forall|a: int, b: int| 0 <= a < b < r.len() ==> seq_lt(r@[a]@, r@[b]@),
            forall|y: Seq<char>| #[trigger] name_views(r@).contains(y) <==> exists|i: int| 0 <= i < self.keys().len() && self.keys()[i].1 == y,
    {
        let mut r: Vec<Symbol> = Vec::new();
        let mut i: usize = 0;
        while i < self.entries.len()
            invariant
                i <= self.entries.len(),
                forall|a: int, b: int| 0 <= a < b < r.len() ==> seq_lt(r@[a]@, r@[b]@),
                forall|y: Seq<char>| #[trigger] name_views(r@).contains(y) <==> exists|q: int| 0 <= q < i && self.keys()[q].1 == y,
            decreases self.entries.len() - i,
        {
            insert_name(&mut r, &self.entries[i].0.1);
            proof {
                assert forall|y: Seq<char>| #[trigger] name_views(r@).contains(y) <==> exists|q: int| 0 <= q < i + 1 && self.keys()[q].1 == y by {
                    assert(self.keys()[i as int].1 == self.entries@[i as int].0.1@);
                    if exists|q: int| 0 <= q < i + 1 && self.keys()[q].1 == y {
                        let q = choose|q: int| 0 <= q < i + 1 && self.keys()[q].1 == y;
                        if q < i {
                            assert(exists|q2: int| 0 <= q2 < i && self.keys()[q2].1 == y);
                        }
                    }
                }
            }
            i = i + 1;
        }
        r
    }

    /// The number of keys.
    pub fn len(&self) -> (r: usize)
        ensures
            r == self.keys().len(),
    {
        self.entries.len()
    }

    /// `true` iff there is no key.
    pub fn is_empty(&self) -> (r: bool)
        ensures
            r <==> self.keys().len() == 0,
    {
        self.entries.len() == 0
    }
}

} // verus!
