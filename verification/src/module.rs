//! Per-file module facts: the directive prologue and the resolved import
//! edges.
//!
//! The table is deliberately uninterpreted: it records directive strings
//! verbatim and edges as resolved paths. [`ModuleTable::reachable_from`] is
//! the one shared mechanism, because "the directive marks a boundary and
//! everything imported below it inherits it" is how every React Server
//! Component directive works.
use vstd::prelude::*;

use crate::text::str_eq;

verus! {

broadcast use vstd::string::group_string_axioms;

/// A module's facts as plain values: `(directives, imports)`.
pub type FactsView = (Seq<Seq<char>>, Seq<Seq<char>>);

/// The characters of each string of a list.
pub open spec fn strs(v: Seq<String>) -> Seq<Seq<char>> {
    v.map_values(|s: String| s@)
}

/// What one lowered file declares about itself.
#[derive(Debug, Clone, PartialEq, Eq)]
pub struct ModuleFacts {
    /// Directive prologue strings, in source order, unquoted.
    pub directives: Vec<String>,
    /// Files this module imports, deduped, in first-seen order.
    pub imports: Vec<String>,
}

impl ModuleFacts {
    pub open spec fn view(&self) -> FactsView {
        (strs(self.directives@), strs(self.imports@))
    }

    /// `true` iff the prologue holds `directive`.
    pub fn has_directive(&self, directive: &str) -> (r: bool)
        ensures
            r <==> self.view().0.contains(directive@),
    {
        let mut i: usize = 0;
        while i < self.directives.len()
            invariant
                0 <= i <= self.directives@.len(),
                forall|k: int| 0 <= k < i ==> self.directives@[k]@ != directive@,
            decreases self.directives@.len() - i,
        {
            if str_eq(self.directives[i].as_str(), directive) {
                assert(self.view().0[i as int] == directive@);
                return true;
            }
            i = i + 1;
        }
        proof {
            if self.view().0.contains(directive@) {
                let k = choose|k: int| 0 <= k < self.view().0.len() && self.view().0[k] == directive@;
                assert(self.directives@[k]@ == directive@);
            }
        }
        false
    }
}

/// The facts recorded for `p`, if any.
pub open spec fn facts_of(es: Seq<(Seq<char>, FactsView)>, p: Seq<char>) -> Option<FactsView>
    decreases es.len(),
{
    if es.len() == 0 {
        None
    } else if es.last().0 == p {
        Some(es.last().1)
    } else {
        facts_of(es.drop_last(), p)
    }
}

/// `p` was lowered and declares the directive `d`.
pub open spec fn declares_spec(es: Seq<(Seq<char>, FactsView)>, p: Seq<char>, d: Seq<char>) -> bool {
    facts_of(es, p) matches Some(f) && f.0.contains(d)
}

/// A walk may not enter `p`: it declares the boundary directive.
pub open spec fn blocked(es: Seq<(Seq<char>, FactsView)>, boundary: Option<Seq<char>>, p: Seq<char>) -> bool {
    boundary matches Some(d) && declares_spec(es, p, d)
}

/// `a` imports `b`.
pub open spec fn imports_edge(es: Seq<(Seq<char>, FactsView)>, a: Seq<char>, b: Seq<char>) -> bool {
    facts_of(es, a) matches Some(f) && f.1.contains(b)
}

/// `q` is a walk along import edges through unblocked modules.
pub open spec fn is_import_walk(
    es: Seq<(Seq<char>, FactsView)>,
    boundary: Option<Seq<char>>,
    q: Seq<Seq<char>>,
) -> bool {
    &&& q.len() >= 1
    &&& forall|i: int| 0 <= i < q.len() ==> !blocked(es, boundary, #[trigger] q[i])
    &&& forall|i: int| 0 <= i < q.len() - 1 ==> imports_edge(es, #[trigger] q[i], q[i + 1])
}

/// `p` is reached from some seed by an import walk that never enters a
/// module declaring the boundary.
pub open spec fn reached_spec(
    es: Seq<(Seq<char>, FactsView)>,
    seeds: Seq<Seq<char>>,
    boundary: Option<Seq<char>>,
    p: Seq<char>,
) -> bool {
    exists|q: Seq<Seq<char>>|
        #[trigger] is_import_walk(es, boundary, q) && seeds.contains(q[0]) && q.last() == p
}

/// The view of an optional string.
pub open spec fn opt_view(o: Option<&str>) -> Option<Seq<char>> {
    match o {
        Some(d) => Some(d@),
        None => None,
    }
}

/// No two strings of the list are equal.
pub open spec fn no_dup_strs(s: Seq<Seq<char>>) -> bool {
    forall|a: int, b: int| 0 <= a < b < s.len() ==> s[a] != s[b]
}

/// Every import edge target of every recorded module, concatenated.
pub open spec fn all_imports(es: Seq<(Seq<char>, FactsView)>) -> Seq<Seq<char>>
    decreases es.len(),
{
    if es.len() == 0 {
        Seq::empty()
    } else {
        all_imports(es.drop_last()) + es.last().1.1
    }
}

/// Number of positions of `u` whose value is not in `s`.
pub open spec fn count_missing<T>(u: Seq<T>, s: Set<T>) -> nat
    decreases u.len(),
{
    if u.len() == 0 {
        0
    } else {
        count_missing(u.drop_last(), s) + if s.contains(u.last()) {
            0nat
        } else {
            1nat
        }
    }
}

pub(crate) proof fn lemma_count_missing_insert<T>(u: Seq<T>, s: Set<T>, x: T)
    ensures
        count_missing(u, s.insert(x)) <= count_missing(u, s),
        u.contains(x) && !s.contains(x) ==> count_missing(u, s.insert(x)) < count_missing(u, s),
    decreases u.len(),
{
    if u.len() > 0 {
        lemma_count_missing_insert(u.drop_last(), s, x);
        if u.contains(x) && !s.contains(x) && u.last() != x {
            let j = choose|j: int| 0 <= j < u.len() && u[j] == x;
            assert(u.drop_last()[j] == x);
        }
    }
}

pub(crate) proof fn lemma_count_missing_mono<T>(u: Seq<T>, s1: Set<T>, s2: Set<T>)
    requires
        s1.subset_of(s2),
    ensures
        count_missing(u, s2) <= count_missing(u, s1),
    decreases u.len(),
{
    if u.len() > 0 {
        lemma_count_missing_mono(u.drop_last(), s1, s2);
    }
}

/// The imports of a recorded module are among [`all_imports`].
proof fn lemma_imports_in_all(es: Seq<(Seq<char>, FactsView)>, a: Seq<char>)
    ensures
        facts_of(es, a) matches Some(f) ==> forall|b: Seq<char>| f.1.contains(b) ==> all_imports(es).contains(b),
    decreases es.len(),
{
    if es.len() > 0 {
        lemma_imports_in_all(es.drop_last(), a);
        let prev = all_imports(es.drop_last());
        let last = es.last().1.1;
        assert(all_imports(es) == prev + last);
        if facts_of(es, a) is Some {
            let f = facts_of(es, a).unwrap();
            assert forall|b: Seq<char>| f.1.contains(b) implies all_imports(es).contains(b) by {
                if es.last().0 == a {
                    let j = choose|j: int| 0 <= j < last.len() && last[j] == b;
                    assert((prev + last)[prev.len() + j] == b);
                } else {
                    let j = choose|j: int| 0 <= j < prev.len() && prev[j] == b;
                    assert((prev + last)[j] == b);
                }
            }
        }
    }
}

/// A set closed under unblocked import edges that holds the unblocked seeds
/// holds every node of a walk from a seed.
proof fn lemma_walk_in_closed(
    es: Seq<(Seq<char>, FactsView)>,
    sd: Seq<Seq<char>>,
    bd: Option<Seq<char>>,
    seen: Seq<Seq<char>>,
    q: Seq<Seq<char>>,
    i: int,
)
    requires
        is_import_walk(es, bd, q),
        sd.contains(q[0]),
        0 <= i < q.len(),
        forall|k: int| 0 <= k < sd.len() && !blocked(es, bd, #[trigger] sd[k]) ==> seen.contains(sd[k]),
        forall|x: Seq<char>, y: Seq<char>|
            seen.contains(x) && #[trigger] imports_edge(es, x, y) && !blocked(es, bd, y) ==> seen.contains(y),
    ensures
        seen.contains(q[i]),
    decreases i,
{
    if i == 0 {
        let k = choose|k: int| 0 <= k < sd.len() && sd[k] == q[0];
        assert(!blocked(es, bd, q[0]));
    } else {
        lemma_walk_in_closed(es, sd, bd, seen, q, i - 1);
        assert(imports_edge(es, q[i - 1], q[i]));
        assert(!blocked(es, bd, q[i]));
    }
}

/// `true` iff some string of `v` equals `s`.
fn contains_str(v: &Vec<String>, s: &String) -> (r: bool)
    ensures
        r <==> strs(v@).contains(s@),
{
    let mut i: usize = 0;
    while i < v.len()
        invariant
            0 <= i <= v@.len(),
            forall|k: int| 0 <= k < i ==> v@[k]@ != s@,
        decreases v@.len() - i,
    {
        if v[i] == *s {
            assert(strs(v@)[i as int] == s@);
            return true;
        }
        i = i + 1;
    }
    proof {
        if strs(v@).contains(s@) {
            let k = choose|k: int| 0 <= k < strs(v@).len() && strs(v@)[k] == s@;
            assert(v@[k]@ == s@);
        }
    }
    false
}

/// `path → ModuleFacts` for every successfully lowered file. Empty when the
/// IR was built by hand: every query then answers "unknown".
#[derive(Debug, Clone)]
pub struct ModuleTable {
    files: Vec<(String, ModuleFacts)>,
}

impl ModuleTable {
    /// The table as plain values, one entry per path.
    pub closed spec fn view(&self) -> Seq<(Seq<char>, FactsView)> {
        self.files@.map_values(|e: (String, ModuleFacts)| (e.0@, e.1.view()))
    }

    /// No path has two entries.
    pub closed spec fn wf(&self) -> bool {
        forall|i: int, j: int| 0 <= i < j < self.files@.len() ==> self.files@[i].0@ != self.files@[j].0@
    }

    /// An empty table.
    pub fn new() -> (t: ModuleTable)
        ensures
            t.wf(),
            t.view().len() == 0,
    {
        ModuleTable { files: Vec::new() }
    }

    /// Position of the entry for `path`, if any.
    fn position(&self, path: &str) -> (r: Option<usize>)
        requires
            self.wf(),
        ensures
            r is None ==> facts_of(self.view(), path@) is None,
            r matches Some(i) ==> i < self.files@.len() && self.files@[i as int].0@ == path@
                && facts_of(self.view(), path@) == Some(self.files@[i as int].1.view()),
    {
        let mut i: usize = self.files.len();
        assert(self.view().subrange(0, i as int) =~= self.view());
        while i > 0
            invariant
                self.wf(),
                0 <= i <= self.files@.len(),
                facts_of(self.view(), path@) == facts_of(self.view().subrange(0, i as int), path@),
                forall|k: int| i <= k < self.files@.len() ==> self.files@[k].0@ != path@,
            decreases i,
        {
            assert(self.view().subrange(0, i as int).drop_last() =~= self.view().subrange(0, i - 1));
            if str_eq(self.files[i - 1].0.as_str(), path) {
                return Some(i - 1);
            }
            i = i - 1;
        }
        None
    }

    /// Record `facts` for `path`, replacing what was recorded before.
    pub fn insert(&mut self, path: String, facts: ModuleFacts)
        requires
            old(self).wf(),
        ensures
            final(self).wf(),
            facts_of(final(self).view(), path@) == Some(facts.view()),
            forall|p: Seq<char>| p != path@ ==> facts_of(final(self).view(), p) == facts_of(old(self).view(), p),
            final(self).view().len() == old(self).view().len() + if facts_of(old(self).view(), path@) is None {
                1int
            } else {
                0int
            },
    {
        match self.position(path.as_str()) {
            Some(i) => {
                let ghost v0 = self.view();
                let mut files: Vec<(String, ModuleFacts)> = Vec::new();
                let mut k: usize = 0;
                let n = self.files.len();
                // Rebuild the entries with the one at `i` replaced.
                while k < n
                    invariant
                        n == self.files@.len(),
                        0 <= k <= n,
                        i < n,
                        files@.len() == k,
                        forall|t: int| 0 <= t < k && t != i ==> files@[t].0@ == self.files@[t].0@
                            && files@[t].1.view() == self.files@[t].1.view(),
                        k > i ==> files@[i as int].0@ == path@ && files@[i as int].1.view() == facts.view(),
                    decreases n - k,
                {
                    if k == i {
                        files.push((path.clone(), facts.clone_facts()));
                    } else {
                        let e = &self.files[k];
                        files.push((e.0.clone(), e.1.clone_facts()));
                    }
                    k = k + 1;
                }
                self.files = files;
                proof {
                    lemma_replace_entry(v0, self.view(), i as int, path@, facts.view());
                }
            },
            None => {
                let ghost v0 = self.view();
                self.files.push((path, facts));
                proof {
                    assert(self.view() =~= v0.push((path@, facts.view())));
                    assert(self.view().drop_last() =~= v0);
                    assert forall|p: Seq<char>| p != path@ implies facts_of(self.view(), p) == facts_of(v0, p) by {}
                    assert forall|a: int, b: int| 0 <= a < b < self.files@.len() implies self.files@[a].0@
                        != self.files@[b].0@ by {
                        if b == self.files@.len() - 1 && self.files@[a].0@ == path@ {
                            lemma_facts_of_some(v0, a);
                        }
                    }
                }
            },
        }
    }

    /// The facts recorded for `path`, if it was lowered.
    pub fn facts(&self, path: &str) -> (r: Option<&ModuleFacts>)
        requires
            self.wf(),
        ensures
            r matches Some(f) ==> facts_of(self.view(), path@) == Some(f.view()),
            r is None ==> facts_of(self.view(), path@) is None,
    {
        match self.position(path) {
            Some(i) => Some(&self.files[i].1),
            None => None,
        }
    }

    pub fn is_empty(&self) -> (r: bool)
        ensures
            r <==> self.view().len() == 0,
    {
        self.files.len() == 0
    }

    pub fn len(&self) -> (r: usize)
        ensures
            r == self.view().len(),
    {
        self.files.len()
    }

    /// Every lowered path, in insertion order.
    pub fn paths(&self) -> (r: Vec<String>)
        ensures
            strs(r@) == self.view().map_values(|e: (Seq<char>, FactsView)| e.0),
    {
        let mut r: Vec<String> = Vec::new();
        let mut i: usize = 0;
        while i < self.files.len()
            invariant
                0 <= i <= self.files@.len(),
                r@.len() == i,
                forall|j: int| 0 <= j < i ==> (#[trigger] r@[j])@ == self.files@[j].0@,
            decreases self.files@.len() - i,
        {
            r.push(self.files[i].0.clone());
            i = i + 1;
        }
        assert(strs(r@) =~= self.view().map_values(|e: (Seq<char>, FactsView)| e.0));
        r
    }

    /// `true` iff `path` was lowered and declares `directive` itself.
    pub fn declares(&self, path: &str, directive: &str) -> (r: bool)
        requires
            self.wf(),
        ensures
            r <==> declares_spec(self.view(), path@, directive@),
    {
        match self.facts(path) {
            Some(f) => f.has_directive(directive),
            None => false,
        }
    }

    /// No path has two entries in a well-formed table.
    pub proof fn lemma_paths_distinct(&self)
        requires
            self.wf(),
        ensures
            forall|i: int, j: int| 0 <= i < j < self.view().len() ==> self.view()[i].0 != self.view()[j].0,
            forall|i: int| 0 <= i < self.view().len() ==> facts_of(self.view(), #[trigger] self.view()[i].0) == Some(self.view()[i].1),
    {
        assert forall|i: int| 0 <= i < self.view().len() implies facts_of(self.view(), #[trigger] self.view()[i].0) == Some(self.view()[i].1) by {
            lemma_facts_of_distinct(self.view(), i);
        }
    }

    /// `true` iff any lowered module declares `directive`.
    pub fn any_declares(&self, directive: &str) -> (r: bool)
        ensures
            r <==> exists|i: int| 0 <= i < self.view().len() && (#[trigger] self.view()[i]).1.0.contains(directive@),
            self.wf() ==> (r <==> exists|i: int|
                0 <= i < self.view().len() && declares_spec(self.view(), #[trigger] self.view()[i].0, directive@)),
    {
        proof {
            if self.wf() {
                self.lemma_paths_distinct();
            }
        }
        let mut i: usize = 0;
        while i < self.files.len()
            invariant
                0 <= i <= self.files@.len(),
                forall|k: int| 0 <= k < i ==> !(#[trigger] self.view()[k]).1.0.contains(directive@),
            decreases self.files@.len() - i,
        {
            if self.files[i].1.has_directive(directive) {
                assert(self.view()[i as int].1.0.contains(directive@));
                proof {
                    if self.wf() {
                        self.lemma_paths_distinct();
                        assert(facts_of(self.view(), self.view()[i as int].0) == Some(self.view()[i as int].1));
                        assert(declares_spec(self.view(), self.view()[i as int].0, directive@));
                    }
                }
                return true;
            }
            i = i + 1;
        }
        proof {
            if self.wf() {
                self.lemma_paths_distinct();
            }
        }
        false
    }

    /// `true` iff a walk may not enter `path`: it declares `boundary`.
    fn is_blocked(&self, path: &str, boundary: Option<&str>) -> (r: bool)
        requires
            self.wf(),
        ensures
            r <==> blocked(self.view(), opt_view(boundary), path@),
    {
        match boundary {
            Some(d) => self.declares(path, d),
            None => false,
        }
    }

    /// Push every unblocked, not yet seen import of `path` onto `seen` and
    /// `stack`.
    fn push_imports(
        &self,
        path: &String,
        facts: &ModuleFacts,
        boundary: Option<&str>,
        seen: &mut Vec<String>,
        stack: &mut Vec<String>,
        Ghost(sd): Ghost<Seq<Seq<char>>>,
    )
        requires
            self.wf(),
            facts_of(self.view(), path@) == Some(facts.view()),
            reached_spec(self.view(), sd, opt_view(boundary), path@),
            no_dup_strs(strs(old(seen)@)),
            forall|p: Seq<char>|
                #[trigger] strs(old(seen)@).contains(p) ==> reached_spec(self.view(), sd, opt_view(boundary), p),
            forall|p: Seq<char>|
                #[trigger] strs(old(seen)@).contains(p) ==> (sd + all_imports(self.view())).contains(p),
        ensures
            no_dup_strs(strs(final(seen)@)),
            forall|p: Seq<char>|
                #[trigger] strs(final(seen)@).contains(p) ==> reached_spec(self.view(), sd, opt_view(boundary), p),
            forall|p: Seq<char>|
                #[trigger] strs(final(seen)@).contains(p) ==> (sd + all_imports(self.view())).contains(p),
            forall|p: Seq<char>| strs(old(seen)@).contains(p) ==> #[trigger] strs(final(seen)@).contains(p),
            strs(final(stack)@).len() >= strs(old(stack)@).len(),
            strs(final(stack)@).subrange(0, old(stack)@.len() as int) == strs(old(stack)@),
            forall|p: Seq<char>|
                #[trigger] strs(final(seen)@).contains(p) && !strs(old(seen)@).contains(p) ==> strs(final(stack)@).contains(p),
            forall|p: Seq<char>|
                #[trigger] strs(final(stack)@).contains(p) ==> strs(old(stack)@).contains(p) || strs(final(seen)@).contains(p),
            count_missing(sd + all_imports(self.view()), strs(final(seen)@).to_set())
                <= count_missing(sd + all_imports(self.view()), strs(old(seen)@).to_set()),
            final(stack)@.len() > old(stack)@.len() ==> count_missing(sd + all_imports(self.view()), strs(final(seen)@).to_set())
                < count_missing(sd + all_imports(self.view()), strs(old(seen)@).to_set()),
            forall|y: Seq<char>|
                #[trigger] imports_edge(self.view(), path@, y) && !blocked(self.view(), opt_view(boundary), y)
                    ==> strs(final(seen)@).contains(y),
    {
        let ghost es = self.view();
        let ghost bd = opt_view(boundary);
        let ghost u = sd + all_imports(es);
        let ghost seen_before = strs(seen@);
        let ghost stack_before = strs(stack@);
        proof {
            lemma_imports_in_all(es, path@);
        }
        let mut k: usize = 0;
        while k < facts.imports.len()
            invariant
                self.wf(),
                es == self.view(),
                bd == opt_view(boundary),
                u == sd + all_imports(es),
                facts_of(es, path@) == Some(facts.view()),
                reached_spec(es, sd, bd, path@),
                forall|b: Seq<char>| facts.view().1.contains(b) ==> all_imports(es).contains(b),
                0 <= k <= facts.imports@.len(),
                no_dup_strs(strs(seen@)),
                forall|p: Seq<char>| #[trigger] strs(seen@).contains(p) ==> reached_spec(es, sd, bd, p),
                forall|p: Seq<char>| #[trigger] strs(seen@).contains(p) ==> u.contains(p),
                forall|p: Seq<char>| seen_before.contains(p) ==> #[trigger] strs(seen@).contains(p),
                strs(stack@).len() >= stack_before.len(),
                strs(stack@).subrange(0, stack_before.len() as int) == stack_before,
                forall|p: Seq<char>|
                    #[trigger] strs(seen@).contains(p) && !seen_before.contains(p) ==> strs(stack@).contains(p),
                forall|p: Seq<char>|
                    #[trigger] strs(stack@).contains(p) ==> stack_before.contains(p) || strs(seen@).contains(p),
                count_missing(u, strs(seen@).to_set()) <= count_missing(u, seen_before.to_set()),
                stack@.len() > stack_before.len() ==> count_missing(u, strs(seen@).to_set())
                    < count_missing(u, seen_before.to_set()),
                forall|j: int|
                    0 <= j < k && !blocked(es, bd, #[trigger] facts.view().1[j]) ==> strs(seen@).contains(
                        facts.view().1[j],
                    ),
            decreases facts.imports@.len() - k,
        {
            let dep = &facts.imports[k];
            proof {
                assert(facts.view().1[k as int] == dep@);
                assert(facts.view().1.contains(dep@));
            }
            if !self.is_blocked(dep.as_str(), boundary) && !contains_str(seen, dep) {
                let ghost seen0 = strs(seen@);
                let ghost st0 = strs(stack@);
                proof {
                    let q = choose|q: Seq<Seq<char>>|
                        #[trigger] is_import_walk(es, bd, q) && sd.contains(q[0]) && q.last() == path@;
                    let q2 = q.push(dep@);
                    assert(imports_edge(es, path@, dep@));
                    assert forall|t: int| 0 <= t < q2.len() implies !blocked(es, bd, #[trigger] q2[t]) by {
                        if t < q.len() {
                            assert(q2[t] == q[t]);
                        }
                    }
                    assert forall|t: int| 0 <= t < q2.len() - 1 implies imports_edge(
                        es,
                        #[trigger] q2[t],
                        q2[t + 1],
                    ) by {
                        if t < q.len() - 1 {
                            assert(q2[t] == q[t] && q2[t + 1] == q[t + 1]);
                        } else {
                            assert(q2[t] == path@);
                        }
                    }
                    assert(is_import_walk(es, bd, q2));
                    assert(q2[0] == q[0]);
                    assert(reached_spec(es, sd, bd, dep@));
                    assert(all_imports(es).contains(dep@));
                    let t = choose|t: int| 0 <= t < all_imports(es).len() && all_imports(es)[t] == dep@;
                    assert(u[sd.len() + t] == dep@);
                    assert(u.contains(dep@));
                    lemma_count_missing_insert(u, seen0.to_set(), dep@);
                    seen0.lemma_push_to_set_commute(dep@);
                }
                seen.push(dep.clone());
                stack.push(dep.clone());
                proof {
                    assert(strs(seen@) =~= seen0.push(dep@));
                    assert(strs(stack@) =~= st0.push(dep@));
                    assert(strs(stack@).subrange(0, stack_before.len() as int) =~= st0.subrange(
                        0,
                        stack_before.len() as int,
                    ));
                    assert forall|x: int, y: int| 0 <= x < y < strs(seen@).len() implies strs(seen@)[x]
                        != strs(seen@)[y] by {
                        if y == strs(seen@).len() - 1 {
                            assert(seen0.contains(strs(seen@)[x]));
                        }
                    }
                    assert forall|p: Seq<char>| #[trigger] strs(seen@).contains(p) implies u.contains(p)
                        && reached_spec(es, sd, bd, p) by {
                        if p != dep@ {
                            let j = choose|j: int| 0 <= j < strs(seen@).len() && strs(seen@)[j] == p;
                            assert(seen0[j] == p);
                            assert(seen0.contains(p));
                        }
                    }
                    assert forall|p: Seq<char>| seen_before.contains(p) implies #[trigger] strs(seen@).contains(p) by {
                        assert(seen0.contains(p));
                        let j = choose|j: int| 0 <= j < seen0.len() && seen0[j] == p;
                        assert(strs(seen@)[j] == p);
                    }
                    assert forall|p: Seq<char>|
                        #[trigger] strs(seen@).contains(p) && !seen_before.contains(p) implies strs(stack@).contains(p) by {
                        if p == dep@ {
                            assert(strs(stack@)[strs(stack@).len() - 1] == dep@);
                        } else {
                            let j = choose|j: int| 0 <= j < strs(seen@).len() && strs(seen@)[j] == p;
                            assert(seen0[j] == p);
                            assert(seen0.contains(p));
                            assert(st0.contains(p));
                            let j2 = choose|j2: int| 0 <= j2 < st0.len() && st0[j2] == p;
                            assert(strs(stack@)[j2] == p);
                        }
                    }
                    assert forall|p: Seq<char>|
                        #[trigger] strs(stack@).contains(p) implies stack_before.contains(p) || strs(seen@).contains(p) by {
                        if p == dep@ {
                            assert(strs(seen@)[strs(seen@).len() - 1] == dep@);
                        } else {
                            let j = choose|j: int| 0 <= j < strs(stack@).len() && strs(stack@)[j] == p;
                            assert(st0[j] == p);
                            assert(st0.contains(p));
                            if !stack_before.contains(p) {
                                assert(seen0.contains(p));
                                let j2 = choose|j2: int| 0 <= j2 < seen0.len() && seen0[j2] == p;
                                assert(strs(seen@)[j2] == p);
                            }
                        }
                    }
                    assert forall|j: int|
                        0 <= j < k + 1 && !blocked(es, bd, #[trigger] facts.view().1[j]) implies strs(seen@).contains(
                            facts.view().1[j],
                        ) by {
                        if j < k {
                            let w = facts.view().1[j];
                            assert(seen0.contains(w));
                            let j2 = choose|j2: int| 0 <= j2 < seen0.len() && seen0[j2] == w;
                            assert(strs(seen@)[j2] == w);
                        } else {
                            assert(strs(seen@)[strs(seen@).len() - 1] == dep@);
                        }
                    }
                }
            }
            k = k + 1;
        }
        proof {
            assert forall|y: Seq<char>|
                #[trigger] imports_edge(es, path@, y) && !blocked(es, bd, y) implies strs(seen@).contains(y) by {
                assert(facts.view().1.contains(y));
                let j = choose|j: int| 0 <= j < facts.view().1.len() && facts.view().1[j] == y;
            }
        }
    }

    /// Every module reachable from `seeds` through import edges, seeds
    /// included, stopping at (and excluding) any module that declares
    /// `boundary`. `None` gives a plain forward reachability walk.
    pub fn reachable_from(&self, seeds: &Vec<String>, boundary: Option<&str>) -> (r: Vec<String>)
        requires
            self.wf(),
        ensures
            no_dup_strs(strs(r@)),
            forall|p: Seq<char>|
                #[trigger] strs(r@).contains(p) <==> reached_spec(self.view(), strs(seeds@), opt_view(boundary), p),
    {
        let ghost es = self.view();
        let ghost bd = opt_view(boundary);
        let ghost sd = strs(seeds@);
        let ghost u: Seq<Seq<char>> = sd + all_imports(es);
        let mut seen: Vec<String> = Vec::new();
        let mut stack: Vec<String> = Vec::new();
        let mut i: usize = 0;
        while i < seeds.len()
            invariant
                self.wf(),
                es == self.view(),
                bd == opt_view(boundary),
                sd == strs(seeds@),
                u == sd + all_imports(es),
                0 <= i <= seeds@.len(),
                no_dup_strs(strs(seen@)),
                strs(stack@) == strs(seen@),
                forall|p: Seq<char>| #[trigger] strs(seen@).contains(p) ==> u.contains(p),
                forall|p: Seq<char>| #[trigger] strs(seen@).contains(p) ==> reached_spec(es, sd, bd, p),
                forall|k: int|
                    0 <= k < i && !blocked(es, bd, #[trigger] sd[k]) ==> strs(seen@).contains(sd[k]),
            decreases seeds@.len() - i,
        {
            let s = &seeds[i];
            proof {
                assert(sd[i as int] == s@);
            }
            if !self.is_blocked(s.as_str(), boundary) && !contains_str(&seen, s) {
                let ghost seen0 = strs(seen@);
                proof {
                    let q = seq![s@];
                    assert(is_import_walk(es, bd, q));
                    assert(sd.contains(q[0]));
                    assert(reached_spec(es, sd, bd, s@));
                    assert(u[i as int] == s@);
                    assert(u.contains(s@));
                }
                seen.push(s.clone());
                stack.push(s.clone());
                proof {
                    assert(strs(seen@) =~= seen0.push(s@));
                    assert(strs(stack@) =~= seen0.push(s@));
                    assert forall|p: Seq<char>| #[trigger] strs(seen@).contains(p) implies u.contains(p)
                        && reached_spec(es, sd, bd, p) by {
                        if p != s@ {
                            let j = choose|j: int| 0 <= j < strs(seen@).len() && strs(seen@)[j] == p;
                            assert(seen0[j] == p);
                            assert(seen0.contains(p));
                        }
                    }
                    assert forall|x: int, y: int| 0 <= x < y < strs(seen@).len() implies strs(seen@)[x]
                        != strs(seen@)[y] by {
                        if y == strs(seen@).len() - 1 {
                            assert(seen0.contains(strs(seen@)[x]));
                        }
                    }
                    assert forall|k: int|
                        0 <= k < i + 1 && !blocked(es, bd, #[trigger] sd[k]) implies strs(seen@).contains(sd[k]) by {
                        if k < i {
                            assert(seen0.contains(sd[k]));
                            let j = choose|j: int| 0 <= j < seen0.len() && seen0[j] == sd[k];
                            assert(strs(seen@)[j] == sd[k]);
                        } else {
                            assert(strs(seen@)[strs(seen@).len() - 1] == s@);
                        }
                    }
                }
            }
            i = i + 1;
        }
        while stack.len() > 0
            invariant
                self.wf(),
                es == self.view(),
                bd == opt_view(boundary),
                sd == strs(seeds@),
                u == sd + all_imports(es),
                no_dup_strs(strs(seen@)),
                forall|p: Seq<char>| #[trigger] strs(stack@).contains(p) ==> strs(seen@).contains(p),
                forall|p: Seq<char>| #[trigger] strs(seen@).contains(p) ==> u.contains(p),
                forall|p: Seq<char>| #[trigger] strs(seen@).contains(p) ==> reached_spec(es, sd, bd, p),
                forall|k: int|
                    0 <= k < sd.len() && !blocked(es, bd, #[trigger] sd[k]) ==> strs(seen@).contains(sd[k]),
                forall|x: Seq<char>, y: Seq<char>|
                    strs(seen@).contains(x) && !strs(stack@).contains(x) && #[trigger] imports_edge(es, x, y)
                        && !blocked(es, bd, y) ==> strs(seen@).contains(y),
            decreases count_missing(u, strs(seen@).to_set()), stack@.len(),
        {
            let ghost stack0 = strs(stack@);
            let ghost seen0 = strs(seen@);
            let path = stack.pop().unwrap();
            let ghost stack1 = strs(stack@);
            proof {
                assert(stack0 =~= strs(stack@).push(path@));
                assert(stack0[stack0.len() - 1] == path@);
                assert(stack0.contains(path@));
                assert forall|p: Seq<char>| stack1.contains(p) implies stack0.contains(p) by {
                    let j = choose|j: int| 0 <= j < stack1.len() && stack1[j] == p;
                    assert(stack0[j] == p);
                }
            }
            match self.facts(path.as_str()) {
                None => {},
                Some(facts) => {
                    self.push_imports(&path, facts, boundary, &mut seen, &mut stack, Ghost(sd));
                },
            }
            proof {
                assert forall|p: Seq<char>| #[trigger] strs(stack@).contains(p) implies strs(seen@).contains(p) by {
                    if stack1.contains(p) {
                        assert(stack0.contains(p));
                        assert(seen0.contains(p));
                    }
                }
                assert forall|x: Seq<char>, y: Seq<char>|
                    strs(seen@).contains(x) && !strs(stack@).contains(x) && #[trigger] imports_edge(es, x, y)
                        && !blocked(es, bd, y) implies strs(seen@).contains(y) by {
                    if x != path@ {
                        if seen0.contains(x) {
                            if stack0.contains(x) {
                                let j = choose|j: int| 0 <= j < stack0.len() && stack0[j] == x;
                                assert(j < stack0.len() - 1);
                                assert(strs(stack@)[j] == x);
                            }
                        }
                    }
                }
            }
        }
        proof {
            assert forall|p: Seq<char>| reached_spec(es, sd, bd, p) implies #[trigger] strs(seen@).contains(p) by {
                let q = choose|q: Seq<Seq<char>>|
                    #[trigger] is_import_walk(es, bd, q) && sd.contains(q[0]) && q.last() == p;
                lemma_walk_in_closed(es, sd, bd, strs(seen@), q, q.len() - 1);
            }
        }
        seen
    }
}

impl ModuleFacts {
    /// A copy of the facts.
    pub fn clone_facts(&self) -> (r: ModuleFacts)
        ensures
            r.view() == self.view(),
    {
        ModuleFacts { directives: clone_strings(&self.directives), imports: clone_strings(&self.imports) }
    }
}

/// A copy of a list of strings.
pub fn clone_strings(v: &Vec<String>) -> (r: Vec<String>)
    ensures
        strs(r@) == strs(v@),
{
    let mut r: Vec<String> = Vec::new();
    let mut i: usize = 0;
    while i < v.len()
        invariant
            0 <= i <= v@.len(),
            r@.len() == i,
            forall|j: int| 0 <= j < i ==> (#[trigger] r@[j])@ == v@[j]@,
        decreases v@.len() - i,
    {
        r.push(v[i].clone());
        i = i + 1;
    }
    assert(strs(r@) =~= strs(v@));
    r
}

proof fn lemma_facts_of_some(es: Seq<(Seq<char>, FactsView)>, i: int)
    requires
        0 <= i < es.len(),
    ensures
        facts_of(es, es[i].0) is Some,
    decreases es.len(),
{
    if es.last().0 != es[i].0 {
        assert(i < es.len() - 1);
        lemma_facts_of_some(es.drop_last(), i);
        assert(es.drop_last()[i] == es[i]);
    }
}

/// With no path twice, the facts of an entry's path are that entry's.
proof fn lemma_facts_of_distinct(es: Seq<(Seq<char>, FactsView)>, i: int)
    requires
        0 <= i < es.len(),
        forall|a: int, b: int| 0 <= a < b < es.len() ==> es[a].0 != es[b].0,
    ensures
        facts_of(es, es[i].0) == Some(es[i].1),
    decreases es.len(),
{
    if i < es.len() - 1 {
        assert(es.last().0 != es[i].0);
        lemma_facts_of_distinct(es.drop_last(), i);
        assert(es.drop_last()[i] == es[i]);
    }
}

proof fn lemma_replace_entry(
    v0: Seq<(Seq<char>, FactsView)>,
    v1: Seq<(Seq<char>, FactsView)>,
    i: int,
    key: Seq<char>,
    f: FactsView,
)
    requires
        v0.len() == v1.len(),
        0 <= i < v0.len(),
        v0[i].0 == key,
        v1[i] == (key, f),
        forall|t: int| 0 <= t < v0.len() && t != i ==> v1[t] == v0[t],
        forall|a: int, b: int| 0 <= a < b < v0.len() ==> v0[a].0 != v0[b].0,
    ensures
        facts_of(v1, key) == Some(f),
        forall|p: Seq<char>| p != key ==> facts_of(v1, p) == facts_of(v0, p),
        forall|a: int, b: int| 0 <= a < b < v1.len() ==> v1[a].0 != v1[b].0,
    decreases v0.len(),
{
    assert forall|a: int, b: int| 0 <= a < b < v1.len() implies v1[a].0 != v1[b].0 by {
        assert(v1[a].0 == v0[a].0 && v1[b].0 == v0[b].0);
    }
    if i < v0.len() - 1 {
        assert(v1.last() == v0.last());
        assert(v0.last().0 != key);
        lemma_replace_entry(v0.drop_last(), v1.drop_last(), i, key, f);
        assert forall|p: Seq<char>| p != key implies facts_of(v1, p) == facts_of(v0, p) by {
            if v0.last().0 != p {
                assert(facts_of(v1.drop_last(), p) == facts_of(v0.drop_last(), p));
            }
        }
    } else {
        assert(v1.drop_last() =~= v0.drop_last());
        assert forall|p: Seq<char>| p != key implies facts_of(v1, p) == facts_of(v0, p) by {
            assert(facts_of(v1, p) == facts_of(v1.drop_last(), p));
        }
    }
}

} // verus!
