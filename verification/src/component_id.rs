//! Component identity: one representation, interned once.
//!
//! A component is a `(file, name)` pair — [`CompOrigin`] — and the analysis
//! refers to it by [`ComponentId`], an index into the [`ComponentTable`] that
//! interned it. The display name (`Widget` or `Widget@/a/Widget.tsx`) is
//! minted only at render, from this table, and nothing compares it.
use vstd::prelude::*;
use vstd::string::StrSliceExecFns;

use crate::expr::CompOrigin;
use crate::text::{find_char, str_eq};

verus! {

broadcast use vstd::string::group_string_axioms;

/// A component's identity, interned in a [`ComponentTable`].
#[derive(Debug, Clone, Copy, PartialEq, Eq, Structural, Hash, PartialOrd, Ord)]
pub struct ComponentId(pub u32);

impl ComponentId {
    /// The id every component of a hand-built IR shares.
    pub fn synthetic() -> (r: ComponentId)
        ensures
            r.0 == u32::MAX,
    {
        ComponentId(u32::MAX)
    }

    /// A raw id, for a fixture that needs several distinct components
    /// without building a table.
    pub fn from_index(i: u32) -> (r: ComponentId)
        ensures
            r.0 == i,
    {
        ComponentId(i)
    }

    /// The raw index, for a renderer that needs a stable ordering key.
    pub fn index(self) -> (r: u32)
        ensures
            r == self.0,
    {
        self.0
    }
}

/// An entry of the table as plain values: `(id, (file, name))`.
pub type EntryView = (u32, (Seq<char>, Seq<char>));

/// `true` iff some entry carries `id`.
pub open spec fn has_id(es: Seq<EntryView>, id: u32) -> bool {
    exists|i: int| 0 <= i < es.len() && #[trigger] es[i].0 == id
}

/// The origin an id names: the entry that carries it.
pub open spec fn origin_of(es: Seq<EntryView>, id: u32) -> (Seq<char>, Seq<char>) {
    es[choose|i: int| 0 <= i < es.len() && #[trigger] es[i].0 == id].1
}

/// The id interned last for `o`, if any entry has that origin.
pub open spec fn last_id_of(es: Seq<EntryView>, o: (Seq<char>, Seq<char>)) -> Option<u32>
    decreases es.len(),
{
    if es.len() == 0 {
        None
    } else if es.last().1 == o {
        Some(es.last().0)
    } else {
        last_id_of(es.drop_last(), o)
    }
}

/// How many entries are written `name`, in any file.
pub open spec fn name_count(es: Seq<EntryView>, name: Seq<char>) -> nat
    decreases es.len(),
{
    if es.len() == 0 {
        0
    } else {
        name_count(es.drop_last(), name) + if es.last().1.1 == name {
            1nat
        } else {
            0nat
        }
    }
}

/// The name a report shows: the bare name when only one file defines it,
/// `name@file` when several do.
pub open spec fn display_of(es: Seq<EntryView>, id: u32) -> Seq<char> {
    let o = origin_of(es, id);
    if name_count(es, o.1) <= 1 {
        o.1
    } else {
        o.1 + seq!['@'] + o.0
    }
}

/// Ids written `name`, ascending.
pub open spec fn ids_named_spec(es: Seq<EntryView>, name: Seq<char>) -> Set<u32> {
    Set::new(|id: u32| has_id(es, id) && origin_of(es, id).1 == name)
}

/// Position of the first `'@'` in `s`, if any.
pub open spec fn first_at(s: Seq<char>) -> Option<int> {
    if exists|i: int| 0 <= i < s.len() && s[i] == '@' {
        Some(choose|i: int| 0 <= i < s.len() && s[i] == '@' && forall|k: int| 0 <= k < i ==> s[k] != '@')
    } else {
        None
    }
}

/// What [`ComponentTable::resolve_display_name`] answers for `d`.
pub open spec fn resolve_spec(es: Seq<EntryView>, d: Seq<char>) -> Option<u32> {
    match first_at(d) {
        Some(i) => last_id_of(es, (d.subrange(i + 1, d.len() as int), d.subrange(0, i))),
        None => if ids_named_spec(es, d).len() == 1 {
            Some(ids_named_spec(es, d).choose())
        } else {
            None
        },
    }
}

/// The raw indices of a list of ids.
pub open spec fn raw_ids(s: Seq<ComponentId>) -> Seq<u32> {
    s.map_values(|c: ComponentId| c.0)
}

/// `true` iff `s` is strictly ascending.
pub open spec fn ascending_ids(s: Seq<u32>) -> bool {
    forall|i: int, j: int| 0 <= i < j < s.len() ==> s[i] < s[j]
}

/// No two entries carry the same id.
pub open spec fn distinct_ids(es: Seq<EntryView>) -> bool {
    forall|i: int, j: int| 0 <= i < j < es.len() ==> es[i].0 != es[j].0
}

/// No two entries carry the same origin, as interning alone leaves a table.
pub open spec fn unique_origins(es: Seq<EntryView>) -> bool {
    forall|i: int, j: int| 0 <= i < j < es.len() ==> es[i].1 != es[j].1
}

/// No component name holds an `'@'`.
pub open spec fn plain_names(es: Seq<EntryView>) -> bool {
    forall|i: int, k: int| 0 <= i < es.len() && 0 <= k < es[i].1.1.len() ==> #[trigger] es[i].1.1[k] != '@'
}

/// What [`last_id_of`] answers is an entry of that origin; no answer means
/// no entry has it.
pub proof fn lemma_last_id_of_entry(es: Seq<EntryView>, o: (Seq<char>, Seq<char>))
    ensures
        last_id_of(es, o) matches Some(x) ==> exists|i: int| 0 <= i < es.len() && #[trigger] es[i].0 == x && es[i].1 == o,
        last_id_of(es, o) is None ==> forall|i: int| 0 <= i < es.len() ==> #[trigger] es[i].1 != o,
    decreases es.len(),
{
    if es.len() > 0 {
        lemma_last_id_of_entry(es.drop_last(), o);
        if es.last().1 == o {
            assert(es[es.len() - 1].0 == es.last().0);
        } else {
            if last_id_of(es, o) is Some {
                let i = choose|i: int| 0 <= i < es.drop_last().len() && #[trigger] es.drop_last()[i].0 == last_id_of(es, o)->0
                    && es.drop_last()[i].1 == o;
                assert(es[i] == es.drop_last()[i]);
            } else {
                assert forall|i: int| 0 <= i < es.len() implies #[trigger] es[i].1 != o by {
                    if i < es.len() - 1 {
                        assert(es[i] == es.drop_last()[i]);
                    }
                }
            }
        }
    }
}

/// With ids and origins each unique, the id looked up for an origin and the
/// origin looked up for an id agree.
pub proof fn lemma_id_origin_agree(es: Seq<EntryView>, o: (Seq<char>, Seq<char>), id: u32)
    requires
        distinct_ids(es),
        unique_origins(es),
    ensures
        last_id_of(es, o) == Some(id) <==> (has_id(es, id) && origin_of(es, id) == o),
{
    lemma_last_id_of_entry(es, o);
    if last_id_of(es, o) == Some(id) {
        let i = choose|i: int| 0 <= i < es.len() && #[trigger] es[i].0 == id && es[i].1 == o;
        let k = choose|k: int| 0 <= k < es.len() && #[trigger] es[k].0 == id;
        assert(k == i);
    }
    if has_id(es, id) && origin_of(es, id) == o {
        let k = choose|k: int| 0 <= k < es.len() && #[trigger] es[k].0 == id;
        assert(es[k].1 == o);
        let x = last_id_of(es, o)->0;
        let i = choose|i: int| 0 <= i < es.len() && #[trigger] es[i].0 == x && es[i].1 == o;
        assert(i == k);
    }
}

proof fn lemma_name_count_pos(es: Seq<EntryView>, i: int, name: Seq<char>)
    requires
        0 <= i < es.len(),
        es[i].1.1 == name,
    ensures
        name_count(es, name) >= 1,
    decreases es.len(),
{
    if i < es.len() - 1 {
        lemma_name_count_pos(es.drop_last(), i, name);
        assert(es.drop_last()[i] == es[i]);
    }
}

proof fn lemma_name_count_two(es: Seq<EntryView>, i: int, j: int, name: Seq<char>)
    requires
        0 <= i < j < es.len(),
        es[i].1.1 == name,
        es[j].1.1 == name,
    ensures
        name_count(es, name) >= 2,
    decreases es.len(),
{
    assert(es.drop_last()[i] == es[i]);
    if j == es.len() - 1 {
        lemma_name_count_pos(es.drop_last(), i, name);
    } else {
        assert(es.drop_last()[j] == es[j]);
        lemma_name_count_two(es.drop_last(), i, j, name);
    }
}

/// Resolving the name a report shows for an id gives the id back, where ids
/// and origins are each unique and no name holds an `'@'`.
pub proof fn lemma_display_round_trip(es: Seq<EntryView>, id: u32)
    requires
        distinct_ids(es),
        unique_origins(es),
        plain_names(es),
        has_id(es, id),
    ensures
        resolve_spec(es, display_of(es, id)) == Some(id),
{
    let k = choose|k: int| 0 <= k < es.len() && #[trigger] es[k].0 == id;
    let o = origin_of(es, id);
    assert(o == es[k].1);
    let name = o.1;
    let d = display_of(es, id);
    if name_count(es, name) <= 1 {
        assert(d == name);
        assert(first_at(d) is None) by {
            if exists|i: int| 0 <= i < d.len() && d[i] == '@' {
                let i = choose|i: int| 0 <= i < d.len() && d[i] == '@';
                assert(es[k].1.1[i] != '@');
            }
        }
        let sset = ids_named_spec(es, name);
        assert(sset.contains(id));
        assert forall|x: u32| sset.contains(x) implies x == id by {
            let m = choose|m: int| 0 <= m < es.len() && #[trigger] es[m].0 == x;
            assert(origin_of(es, x) == es[m].1);
            if m < k {
                lemma_name_count_two(es, m, k, name);
            } else if k < m {
                lemma_name_count_two(es, k, m, name);
            }
        }
        assert(sset =~= set![id]);
        assert(set![id].choose() == id) by {
            let x = set![id].choose();
            assert(set![id].contains(x));
        }
    } else {
        assert(d == name + seq!['@'] + o.0);
        let n = name.len() as int;
        assert(d[n] == '@');
        assert forall|q: int| 0 <= q < n implies d[q] != '@' by {
            assert(d[q] == es[k].1.1[q]);
        }
        assert(first_at(d) == Some(n)) by {
            let j = choose|j: int| 0 <= j < d.len() && d[j] == '@' && forall|q: int| 0 <= q < j ==> d[q] != '@';
            if j > n {
                assert(d[n] != '@');
            }
        }
        assert(d.subrange(n + 1, d.len() as int) =~= o.0);
        assert(d.subrange(0, n) =~= name);
        lemma_id_origin_agree(es, (o.0, name), id);
    }
}

/// Interning table `ComponentId ↔ (file, name)`.
///
/// Entries keep their registration order. An id is registered at most once;
/// an origin registered under several ids resolves to the last of them, as a
/// map from origin to id overwritten on each registration would.
#[derive(Debug)]
pub struct ComponentTable {
    entries: Vec<(ComponentId, CompOrigin)>,
    next: u32,
}

impl ComponentTable {
    /// The entries as plain values, in registration order.
    pub closed spec fn view(&self) -> Seq<EntryView> {
        self.entries@.map_values(|e: (ComponentId, CompOrigin)| (e.0.0, e.1.view()))
    }

    /// The next id [`ComponentTable::intern`] mints.
    pub closed spec fn next_id(&self) -> u32 {
        self.next
    }

    /// No id is registered twice.
    pub closed spec fn wf(&self) -> bool {
        forall|i: int, j: int|
            0 <= i < j < self.entries@.len() ==> self.entries@[i].0 != self.entries@[j].0
    }

    /// An empty table.
    pub fn new() -> (t: ComponentTable)
        ensures
            t.wf(),
            t.view() == Seq::<EntryView>::empty(),
            t.next_id() == 0,
    {
        let t = ComponentTable { entries: Vec::new(), next: 0 };
        assert(t.view() =~= Seq::<EntryView>::empty());
        t
    }

    /// Position of the entry carrying `id`, if any.
    fn position_of_id(&self, id: ComponentId) -> (r: Option<usize>)
        ensures
            r is None <==> !has_id(self.view(), id.0),
            r matches Some(i) ==> i < self.view().len() && self.view()[i as int].0 == id.0,
    {
        let mut i: usize = 0;
        while i < self.entries.len()
            invariant
                0 <= i <= self.entries@.len(),
                forall|k: int| 0 <= k < i ==> self.view()[k].0 != id.0,
            decreases self.entries@.len() - i,
        {
            if self.entries[i].0 == id {
                assert(self.view()[i as int].0 == id.0);
                return Some(i);
            }
            i = i + 1;
        }
        proof {
            if has_id(self.view(), id.0) {
                let k = choose|k: int| 0 <= k < self.view().len() && #[trigger] self.view()[k].0 == id.0;
            }
        }
        None
    }

    /// A well-formed table registers each id once.
    pub proof fn lemma_ids_distinct(&self)
        requires
            self.wf(),
        ensures
            distinct_ids(self.view()),
    {
        assert forall|i: int, j: int| 0 <= i < j < self.view().len() implies self.view()[i].0 != self.view()[j].0 by {
            assert(self.entries@[i].0 != self.entries@[j].0);
        }
    }

    proof fn lemma_origin_at(&self, i: int)
        requires
            self.wf(),
            0 <= i < self.view().len(),
        ensures
            has_id(self.view(), self.view()[i].0),
            origin_of(self.view(), self.view()[i].0) == self.view()[i].1,
    {
        let es = self.view();
        let id = es[i].0;
        let k = choose|k: int| 0 <= k < es.len() && #[trigger] es[k].0 == id;
        assert(self.entries@[k].0 == self.entries@[i].0);
    }

    /// Record `origin` under an id that already exists; a no-op when the id
    /// is already registered.
    pub fn register(&mut self, id: ComponentId, origin: CompOrigin)
        requires
            old(self).wf(),
        ensures
            final(self).wf(),
            final(self).next_id() == old(self).next_id(),
            has_id(old(self).view(), id.0) ==> final(self).view() == old(self).view(),
            !has_id(old(self).view(), id.0) ==> final(self).view() == old(self).view().push(
                (id.0, origin.view()),
            ),
    {
        if self.position_of_id(id).is_some() {
            return;
        }
        let ghost old_view = self.view();
        self.entries.push((id, origin));
        proof {
            assert(self.view() =~= old_view.push((id.0, origin.view())));
            assert forall|i: int, j: int|
                0 <= i < j < self.entries@.len() implies self.entries@[i].0 != self.entries@[j].0 by {
                if j == self.entries@.len() - 1 {
                    assert(old_view[i].0 == self.entries@[i].0.0);
                }
            }
        }
    }

    /// The id `origin` was interned under, if it was: the last registration
    /// of that origin.
    pub fn id_of(&self, origin: &CompOrigin) -> (r: Option<ComponentId>)
        ensures
            r matches Some(c) ==> last_id_of(self.view(), origin.view()) == Some(c.0),
            r is None ==> last_id_of(self.view(), origin.view()) is None,
    {
        let mut i: usize = self.entries.len();
        assert(self.view().subrange(0, i as int) =~= self.view());
        while i > 0
            invariant
                0 <= i <= self.entries@.len(),
                last_id_of(self.view(), origin.view()) == last_id_of(self.view().subrange(0, i as int), origin.view()),
            decreases i,
        {
            let e = &self.entries[i - 1];
            assert(self.view().subrange(0, i as int).drop_last() =~= self.view().subrange(0, i - 1));
            if e.1.file == origin.file && e.1.name == origin.name {
                return Some(e.0);
            }
            i = i - 1;
        }
        None
    }

    /// Intern `origin`, returning the existing id when already present.
    pub fn intern(&mut self, origin: CompOrigin) -> (id: ComponentId)
        requires
            old(self).wf(),
            last_id_of(old(self).view(), origin.view()) is None ==> old(self).next_id() < u32::MAX,
        ensures
            final(self).wf(),
            last_id_of(old(self).view(), origin.view()) matches Some(x) ==> {
                &&& id.0 == x
                &&& final(self).view() == old(self).view()
                &&& final(self).next_id() == old(self).next_id()
            },
            unique_origins(old(self).view()) ==> unique_origins(final(self).view()),
            last_id_of(old(self).view(), origin.view()) is None ==> {
                &&& id.0 == old(self).next_id()
                &&& final(self).next_id() == old(self).next_id() + 1
                &&& has_id(old(self).view(), id.0) ==> final(self).view() == old(self).view()
                &&& !has_id(old(self).view(), id.0) ==> final(self).view() == old(self).view().push(
                    (id.0, origin.view()),
                )
            },
    {
        match self.id_of(&origin) {
            Some(id) => id,
            None => {
                proof {
                    lemma_last_id_of_entry(self.view(), origin.view());
                }
                let ghost v0 = self.view();
                let ghost ov = origin.view();
                let id = ComponentId(self.next);
                self.next = self.next + 1;
                self.register(id, origin);
                proof {
                    if unique_origins(v0) && self.view() != v0 {
                        assert forall|i: int, j: int| 0 <= i < j < self.view().len() implies self.view()[i].1
                            != self.view()[j].1 by {
                            if j == v0.len() {
                                assert(self.view()[i] == v0[i]);
                                assert(v0[i].1 != ov);
                            }
                        }
                    }
                }
                id
            },
        }
    }

    /// The `(file, name)` pair `id` names; `None` for an id this table never
    /// saw.
    pub fn origin(&self, id: ComponentId) -> (r: Option<&CompOrigin>)
        requires
            self.wf(),
        ensures
            r is Some <==> has_id(self.view(), id.0),
            r matches Some(o) ==> o.view() == origin_of(self.view(), id.0),
    {
        match self.position_of_id(id) {
            Some(i) => {
                proof {
                    self.lemma_origin_at(i as int);
                }
                Some(&self.entries[i].1)
            },
            None => None,
        }
    }

    /// The name the component is written under in its own file, without the
    /// collision suffix.
    pub fn name(&self, id: ComponentId) -> (r: Option<&str>)
        requires
            self.wf(),
        ensures
            r is Some <==> has_id(self.view(), id.0),
            r matches Some(n) ==> n@ == origin_of(self.view(), id.0).1,
    {
        match self.origin(id) {
            Some(o) => Some(o.name.as_str()),
            None => None,
        }
    }

    /// Every id this table holds, in ascending order.
    pub fn ids(&self) -> (r: Vec<ComponentId>)
        requires
            self.wf(),
        ensures
            ascending_ids(raw_ids(r@)),
            r@.len() == self.view().len(),
            forall|id: u32| #[trigger] raw_ids(r@).contains(id) <==> has_id(self.view(), id),
    {
        // Insertion sort of the registered ids.
        let mut r: Vec<ComponentId> = Vec::new();
        let mut i: usize = 0;
        while i < self.entries.len()
            invariant
                self.wf(),
                0 <= i <= self.entries@.len(),
                r@.len() == i,
                ascending_ids(raw_ids(r@)),
                forall|id: u32|
                    #[trigger] raw_ids(r@).contains(id) <==> exists|k: int|
                        0 <= k < i && #[trigger] self.view()[k].0 == id,
            decreases self.entries@.len() - i,
        {
            let id = self.entries[i].0;
            let ghost before = raw_ids(r@);
            // Find the insertion point.
            let mut pos: usize = 0;
            while pos < r.len() && r[pos].0 < id.0
                invariant
                    0 <= pos <= r@.len(),
                    forall|k: int| 0 <= k < pos ==> r@[k].0 < id.0,
                decreases r@.len() - pos,
            {
                pos = pos + 1;
            }
            proof {
                assert(!before.contains(id.0)) by {
                    if before.contains(id.0) {
                        let k0 = choose|k0: int| 0 <= k0 < before.len() && before[k0] == id.0;
                        let k = choose|k: int| 0 <= k < i && #[trigger] self.view()[k].0 == before[k0];
                        assert(self.entries@[k].0 == self.entries@[i as int].0);
                    }
                }
                if pos < r@.len() {
                    assert(r@[pos as int].0 >= id.0);
                    assert(before[pos as int] != id.0);
                }
            }
            r.insert(pos, id);
            proof {
                let after = raw_ids(r@);
                assert(after =~= before.subrange(0, pos as int).push(id.0) + before.subrange(pos as int, before.len() as int));
                assert forall|a: int, b: int| 0 <= a < b < after.len() implies after[a] < after[b] by {
                    if b < pos {
                        assert(after[a] == before[a] && after[b] == before[b]);
                    } else if b == pos {
                        assert(after[a] == before[a]);
                    } else if a == pos {
                        assert(after[b] == before[b - 1]);
                        assert(before[pos as int] >= id.0 || pos == before.len());
                        if b - 1 > pos {
                            assert(before[pos as int] < before[b - 1]);
                        }
                    } else if a < pos {
                        assert(after[a] == before[a]);
                        assert(after[b] == before[b - 1]);
                    } else {
                        assert(after[a] == before[a - 1] && after[b] == before[b - 1]);
                    }
                }
                assert forall|x: u32| after.contains(x) <==> exists|k: int|
                    0 <= k < i + 1 && #[trigger] self.view()[k].0 == x by {
                    if after.contains(x) {
                        let t = choose|t: int| 0 <= t < after.len() && after[t] == x;
                        if t < pos {
                            assert(before[t] == x);
                            assert(before.contains(x));
                        } else if t > pos {
                            assert(before[t - 1] == x);
                            assert(before.contains(x));
                        } else {
                            assert(self.view()[i as int].0 == x);
                        }
                    }
                    if exists|k: int| 0 <= k < i + 1 && #[trigger] self.view()[k].0 == x {
                        let k = choose|k: int| 0 <= k < i + 1 && #[trigger] self.view()[k].0 == x;
                        if k < i {
                            assert(before.contains(x));
                            let t = choose|t: int| 0 <= t < before.len() && before[t] == x;
                            if t < pos {
                                assert(after[t] == x);
                            } else {
                                assert(after[t + 1] == x);
                            }
                        } else {
                            assert(after[pos as int] == x);
                        }
                    }
                }
            }
            i = i + 1;
        }
        proof {
            assert forall|id: u32| #[trigger] raw_ids(r@).contains(id) <==> has_id(self.view(), id) by {
                if has_id(self.view(), id) {
                    let k = choose|k: int| 0 <= k < self.view().len() && #[trigger] self.view()[k].0 == id;
                }
            }
        }
        r
    }

    /// Number of registered components.
    pub fn len(&self) -> (r: usize)
        ensures
            r == self.view().len(),
    {
        self.entries.len()
    }

    /// `true` iff no component is registered.
    pub fn is_empty(&self) -> (r: bool)
        ensures
            r <==> self.view().len() == 0,
    {
        self.entries.len() == 0
    }

    /// How many entries are written `name`.
    fn count_named(&self, name: &String) -> (r: usize)
        ensures
            r == name_count(self.view(), name@),
    {
        let mut c: usize = 0;
        let mut i: usize = 0;
        while i < self.entries.len()
            invariant
                0 <= i <= self.entries@.len(),
                c == name_count(self.view().subrange(0, i as int), name@),
                c <= i,
            decreases self.entries@.len() - i,
        {
            assert(self.view().subrange(0, i + 1).drop_last() =~= self.view().subrange(0, i as int));
            if self.entries[i].1.name == *name {
                c = c + 1;
            }
            i = i + 1;
        }
        assert(self.view().subrange(0, self.entries@.len() as int) =~= self.view());
        c
    }

    /// The name to show for `id`: the bare name when only one file defines
    /// it, `name@file` when several do.
    pub fn display_name(&self, id: ComponentId) -> (r: Option<String>)
        requires
            self.wf(),
        ensures
            r is Some <==> has_id(self.view(), id.0),
            r matches Some(s) ==> s@ == display_of(self.view(), id.0),
    {
        match self.origin(id) {
            None => None,
            Some(o) => {
                let count = self.count_named(&o.name);
                if count <= 1 {
                    Some(o.name.clone())
                } else {
                    let mut s = o.name.clone();
                    s.append("@");
                    s.append(o.file.as_str());
                    proof {
                        reveal_strlit("@");
                        assert(s@ =~= o.name@ + seq!['@'] + o.file@);
                    }
                    Some(s)
                }
            },
        }
    }

    /// Every component written `name`, in any file, in ascending id order.
    pub fn ids_named(&self, name: &str) -> (r: Vec<ComponentId>)
        requires
            self.wf(),
        ensures
            ascending_ids(raw_ids(r@)),
            forall|id: u32|
                #[trigger] raw_ids(r@).contains(id) <==> ids_named_spec(self.view(), name@).contains(id),
    {
        let all = self.ids();
        let mut r: Vec<ComponentId> = Vec::new();
        let mut i: usize = 0;
        while i < all.len()
            invariant
                self.wf(),
                0 <= i <= all@.len(),
                ascending_ids(raw_ids(all@)),
                forall|id: u32| #[trigger] raw_ids(all@).contains(id) <==> has_id(self.view(), id),
                ascending_ids(raw_ids(r@)),
                r@.len() > 0 ==> r@.last().0 < all@[i as int].0 || i == all@.len(),
                forall|k: int| 0 <= k < r@.len() ==> exists|t: int| 0 <= t < i && all@[t] == #[trigger] r@[k],
                forall|id: u32|
                    #[trigger] raw_ids(r@).contains(id) <==> (exists|t: int|
                        0 <= t < i && #[trigger] all@[t].0 == id) && origin_of(self.view(), id).1 == name@,
            decreases all@.len() - i,
        {
            let id = all[i];
            proof {
                assert(raw_ids(all@)[i as int] == id.0);
                assert(raw_ids(all@).contains(id.0));
                assert(has_id(self.view(), id.0));
            }
            let n = self.name(id).unwrap();
            let ghost before = r@;
            if str_eq(n, name) {
                r.push(id);
            }
            proof {
                let rv = raw_ids(r@);
                let bv = raw_ids(before);
                let av = raw_ids(all@);
                if r@.len() > before.len() {
                    assert(rv =~= bv.push(id.0));
                    assert forall|a: int, b: int| 0 <= a < b < rv.len() implies rv[a] < rv[b] by {
                        if b == before.len() {
                            assert(rv[a] == bv[a]);
                            let t = choose|t: int| 0 <= t < i && all@[t] == before[a];
                            assert(av[t] == bv[a]);
                            assert(av[t] < av[i as int]);
                        } else {
                            assert(rv[a] == bv[a] && rv[b] == bv[b]);
                        }
                    }
                } else {
                    assert(rv =~= bv);
                }
                assert forall|id2: u32|
                    rv.contains(id2) <==> (exists|t: int|
                        0 <= t < i + 1 && #[trigger] all@[t].0 == id2) && origin_of(self.view(), id2).1 == name@ by {
                    if rv.contains(id2) {
                        let k = choose|k: int| 0 <= k < rv.len() && rv[k] == id2;
                        if k < before.len() {
                            assert(bv[k] == id2);
                            assert(bv.contains(id2));
                        }
                    }
                    if (exists|t: int| 0 <= t < i + 1 && #[trigger] all@[t].0 == id2) && origin_of(self.view(), id2).1 == name@ {
                        let t = choose|t: int| 0 <= t < i + 1 && #[trigger] all@[t].0 == id2;
                        if t < i {
                            assert(bv.contains(id2));
                            let k = choose|k: int| 0 <= k < bv.len() && bv[k] == id2;
                            assert(rv[k] == id2);
                        } else {
                            assert(rv[rv.len() - 1] == id2);
                        }
                    }
                }
                assert forall|k: int| 0 <= k < r@.len() implies exists|t: int| 0 <= t < i + 1 && all@[t] == #[trigger] r@[k] by {
                    if k < before.len() {
                        let t = choose|t: int| 0 <= t < i && all@[t] == before[k];
                    } else {
                        assert(all@[i as int] == r@[k]);
                    }
                }
                if i + 1 < all@.len() && r@.len() > 0 {
                    let lk = r@.len() - 1;
                    let t = choose|t: int| 0 <= t < i + 1 && all@[t] == r@[lk];
                    assert(raw_ids(all@)[t] < raw_ids(all@)[i + 1]);
                }
            }
            i = i + 1;
        }
        proof {
            assert forall|id: u32|
                raw_ids(r@).contains(id) <==> ids_named_spec(self.view(), name@).contains(id) by {
                if has_id(self.view(), id) && origin_of(self.view(), id).1 == name@ {
                    assert(raw_ids(all@).contains(id));
                    let t = choose|t: int| 0 <= t < all@.len() && raw_ids(all@)[t] == id;
                    assert(all@[t].0 == id);
                    assert(raw_ids(r@).contains(id));
                }
                if raw_ids(r@).contains(id) {
                    let t = choose|t: int| 0 <= t < all@.len() && #[trigger] all@[t].0 == id;
                    assert(raw_ids(all@)[t] == id);
                    assert(raw_ids(all@).contains(id));
                    assert(has_id(self.view(), id));
                }
            }
        }
        r
    }

    /// Inverse of [`ComponentTable::display_name`]: parses `"Page"` or
    /// `"Page@/path/p.tsx"` back to the id it names. A bare name several
    /// files define is ambiguous and answers `None`.
    pub fn resolve_display_name(&self, display: &str) -> (r: Option<ComponentId>)
        requires
            self.wf(),
        ensures
            r matches Some(c) ==> resolve_spec(self.view(), display@) == Some(c.0),
            r is None ==> resolve_spec(self.view(), display@) is None,
    {
        match find_char(display, '@') {
            Some(i) => {
                let n = display.unicode_len();
                let name = display.substring_char(0, i).to_string();
                let path = display.substring_char(i + 1, n).to_string();
                proof {
                    assert(first_at(display@) == Some(i as int)) by {
                        let j = choose|j: int|
                            0 <= j < display@.len() && display@[j] == '@' && forall|k: int|
                                0 <= k < j ==> display@[k] != '@';
                        if j < i {
                        } else if j > i {
                            assert(display@[i as int] == '@');
                        }
                    }
                }
                self.id_of(&CompOrigin { file: path, name })
            },
            None => {
                let hits = self.ids_named(display);
                proof {
                    assert(first_at(display@) is None);
                    let hv = raw_ids(hits@);
                    let sset = ids_named_spec(self.view(), display@);
                    assert(sset =~= hv.to_set());
                    hv.unique_seq_to_set();
                }
                if hits.len() == 1 {
                    proof {
                        let hv = raw_ids(hits@);
                        let sset = ids_named_spec(self.view(), display@);
                        assert(sset.contains(hv[0]));
                        assert(sset =~= set![hv[0]]);
                        assert(set![hv[0]].choose() == hv[0]) by {
                            let x = set![hv[0]].choose();
                            assert(set![hv[0]].contains(x));
                        }
                    }
                    Some(hits[0])
                } else {
                    None
                }
            },
        }
    }
}

} // verus!
