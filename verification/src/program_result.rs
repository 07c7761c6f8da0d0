//! Program-level results: the component call graph and analysis statistics.
use vstd::prelude::*;

use crate::component_id::ComponentId;
use crate::source_range::SourceRange;
use crate::types::Symbol;

verus! {

/// One instantiation of a child component inside a parent.
#[derive(Debug, Clone, Copy, PartialEq, Eq, Structural)]
pub struct CallSite {
    pub callee: ComponentId,
    pub location: Option<SourceRange>,
}

/// The call sites recorded for `caller`, in recording order; empty when it
/// has none.
pub open spec fn sites_of(es: Seq<(ComponentId, Seq<CallSite>)>, caller: ComponentId) -> Seq<CallSite>
    decreases es.len(),
{
    if es.len() == 0 {
        Seq::empty()
    } else if es.last().0 == caller {
        es.last().1
    } else {
        sites_of(es.drop_last(), caller)
    }
}

/// `caller` has a call site whose callee is `comp`.
pub open spec fn calls(es: Seq<(ComponentId, Seq<CallSite>)>, caller: ComponentId, comp: ComponentId) -> bool {
    exists|k: int| 0 <= k < sites_of(es, caller).len() && #[trigger] sites_of(es, caller)[k].callee == comp
}

/// Directed call graph: caller → list of call sites.
#[derive(Debug)]
pub struct ComponentCallGraph {
    edges: Vec<(ComponentId, Vec<CallSite>)>,
}

impl ComponentCallGraph {
    /// `(caller, call sites)` per caller, in first-recorded order.
    pub closed spec fn view(&self) -> Seq<(ComponentId, Seq<CallSite>)> {
        self.edges@.map_values(|e: (ComponentId, Vec<CallSite>)| (e.0, e.1@))
    }

    /// No caller has two entries.
    pub closed spec fn wf(&self) -> bool {
        forall|i: int, j: int| 0 <= i < j < self.edges@.len() ==> self.edges@[i].0 != self.edges@[j].0
    }

    /// An empty graph.
    pub fn new() -> (g: ComponentCallGraph)
        ensures
            g.wf(),
            forall|c: ComponentId| sites_of(g.view(), c) == Seq::<CallSite>::empty(),
    {
        let g = ComponentCallGraph { edges: Vec::new() };
        assert(g.view() =~= Seq::<(ComponentId, Seq<CallSite>)>::empty());
        g
    }

    /// Record a call site of `caller`.
    pub fn add_edge(&mut self, caller: ComponentId, site: CallSite)
        requires
            old(self).wf(),
        ensures
            final(self).wf(),
            sites_of(final(self).view(), caller) == sites_of(old(self).view(), caller).push(site),
            forall|c: ComponentId| c != caller ==> sites_of(final(self).view(), c) == sites_of(old(self).view(), c),
    {
        let ghost v0 = self.view();
        let mut i: usize = 0;
        while i < self.edges.len()
            invariant
                self.wf(),
                self.view() == v0,
                v0 == old(self).view(),
                0 <= i <= self.edges@.len(),
                forall|k: int| 0 <= k < i ==> self.edges@[k].0 != caller,
            decreases self.edges@.len() - i,
        {
            if self.edges[i].0 == caller {
                // Rebuild with the site appended to entry `i`.
                let n = self.edges.len();
                let mut edges: Vec<(ComponentId, Vec<CallSite>)> = Vec::new();
                let mut k: usize = 0;
                while k < n
                    invariant
                        n == self.edges@.len(),
                        i < n,
                        self.edges@[i as int].0 == caller,
                        self.view() == v0,
                        self.wf(),
                        0 <= k <= n,
                        edges@.len() == k,
                        forall|t: int| 0 <= t < k && t != i ==> (#[trigger] edges@[t]).0 == self.edges@[t].0
                            && edges@[t].1@ == self.edges@[t].1@,
                        k > i ==> edges@[i as int].0 == caller && edges@[i as int].1@ == self.edges@[i as int].1@.push(site),
                    decreases n - k,
                {
                    let mut sites: Vec<CallSite> = Vec::new();
                    let src = &self.edges[k].1;
                    let mut t: usize = 0;
                    while t < src.len()
                        invariant
                            0 <= t <= src@.len(),
                            sites@ == src@.subrange(0, t as int),
                        decreases src@.len() - t,
                    {
                        sites.push(src[t]);
                        t = t + 1;
                        assert(sites@ =~= src@.subrange(0, t as int));
                    }
                    assert(sites@ =~= src@);
                    if k == i {
                        sites.push(site);
                    }
                    edges.push((self.edges[k].0, sites));
                    k = k + 1;
                }
                let ghost old_edges = self.edges@;
                self.edges = edges;
                proof {
                    assert forall|t: int| 0 <= t < v0.len() && t != i implies self.view()[t] == v0[t] by {
                        assert(self.view()[t] == (self.edges@[t].0, self.edges@[t].1@));
                        assert(v0[t] == (old_edges[t].0, old_edges[t].1@));
                    }
                    assert(v0[i as int] == (old_edges[i as int].0, old_edges[i as int].1@));
                    lemma_update_sites(v0, self.view(), i as int, caller, site);
                    assert forall|a: int, b: int| 0 <= a < b < self.edges@.len() implies self.edges@[a].0 != self.edges@[b].0 by {
                        assert(self.view()[a].0 == self.edges@[a].0);
                        assert(self.view()[b].0 == self.edges@[b].0);
                    }
                }
                return;
            }
            i = i + 1;
        }
        let mut sites: Vec<CallSite> = Vec::new();
        sites.push(site);
        self.edges.push((caller, sites));
        proof {
            assert(self.view() =~= v0.push((caller, seq![site])));
            assert(self.view().drop_last() =~= v0);
            lemma_sites_absent(v0, caller);
            assert(sites_of(v0, caller) =~= Seq::<CallSite>::empty());
        }
    }

    /// The call sites recorded for `comp`, empty when it calls nothing.
    pub fn callees_of(&self, comp: ComponentId) -> (r: &[CallSite])
        ensures
            r@ == sites_of(self.view(), comp),
    {
        let mut i: usize = self.edges.len();
        assert(self.view().subrange(0, i as int) =~= self.view());
        while i > 0
            invariant
                0 <= i <= self.edges@.len(),
                sites_of(self.view(), comp) == sites_of(self.view().subrange(0, i as int), comp),
            decreases i,
        {
            assert(self.view().subrange(0, i as int).drop_last() =~= self.view().subrange(0, i - 1));
            if self.edges[i - 1].0 == comp {
                return self.edges[i - 1].1.as_slice();
            }
            i = i - 1;
        }
        &[]
    }

    /// Every caller with a call site of `comp`, in first-recorded order.
    pub fn callers_of(&self, comp: ComponentId) -> (r: Vec<ComponentId>)
        requires
            self.wf(),
        ensures
            forall|c: ComponentId| r@.contains(c) <==> calls(self.view(), c, comp),
            forall|a: int, b: int| 0 <= a < b < r@.len() ==> r@[a] != r@[b],
    {
        let mut r: Vec<ComponentId> = Vec::new();
        let mut i: usize = 0;
        while i < self.edges.len()
            invariant
                self.wf(),
                0 <= i <= self.edges@.len(),
                forall|a: int, b: int| 0 <= a < b < r@.len() ==> r@[a] != r@[b],
                forall|c: ComponentId|
                    r@.contains(c) <==> exists|k: int|
                        0 <= k < i && #[trigger] self.edges@[k].0 == c && calls(self.view(), c, comp),
            decreases self.edges@.len() - i,
        {
            let sites = &self.edges[i].1;
            let caller = self.edges[i].0;
            proof {
                lemma_sites_at(self.view(), i as int);
                assert(self.view()[i as int].1 == sites@);
            }
            let mut hit = false;
            let mut t: usize = 0;
            while t < sites.len()
                invariant
                    0 <= t <= sites@.len(),
                    hit <==> exists|k: int| 0 <= k < t && #[trigger] sites@[k].callee == comp,
                decreases sites@.len() - t,
            {
                if sites[t].callee == comp {
                    hit = true;
                }
                t = t + 1;
            }
            let ghost r0 = r@;
            if hit {
                r.push(caller);
                proof {
                    assert forall|a: int, b: int| 0 <= a < b < r@.len() implies r@[a] != r@[b] by {
                        if b == r@.len() - 1 && r@[a] == caller {
                            assert(r0.contains(caller));
                            let k = choose|k: int|
                                0 <= k < i && #[trigger] self.edges@[k].0 == caller && calls(self.view(), caller, comp);
                        }
                    }
                }
            }
            proof {
                assert forall|c: ComponentId|
                    r@.contains(c) <==> exists|k: int|
                        0 <= k < i + 1 && #[trigger] self.edges@[k].0 == c && calls(self.view(), c, comp) by {
                    if r@.contains(c) && !r0.contains(c) {
                        assert(r@[r@.len() - 1] == c);
                        assert(c == caller);
                        let k = choose|k: int| 0 <= k < t && #[trigger] sites@[k].callee == comp;
                        assert(sites_of(self.view(), caller)[k].callee == comp);
                    }
                    if r0.contains(c) {
                        let j = choose|j: int| 0 <= j < r0.len() && r0[j] == c;
                        assert(r@[j] == c);
                    }
                    if exists|k: int| 0 <= k < i + 1 && #[trigger] self.edges@[k].0 == c && calls(self.view(), c, comp) {
                        let k = choose|k: int|
                            0 <= k < i + 1 && #[trigger] self.edges@[k].0 == c && calls(self.view(), c, comp);
                        if k == i {
                            let m = choose|m: int|
                                0 <= m < sites_of(self.view(), c).len() && #[trigger] sites_of(self.view(), c)[m].callee == comp;
                            assert(sites@[m].callee == comp);
                            assert(r@[r@.len() - 1] == c);
                        } else {
                            assert(r0.contains(c));
                            let j = choose|j: int| 0 <= j < r0.len() && r0[j] == c;
                            assert(r@[j] == c);
                        }
                    }
                }
            }
            i = i + 1;
        }
        proof {
            assert forall|c: ComponentId| r@.contains(c) <==> calls(self.view(), c, comp) by {
                if calls(self.view(), c, comp) {
                    let m = choose|m: int|
                        0 <= m < sites_of(self.view(), c).len() && #[trigger] sites_of(self.view(), c)[m].callee == comp;
                    lemma_sites_nonempty_has_entry(self.view(), c);
                    let k = choose|k: int| 0 <= k < self.view().len() && self.view()[k].0 == c;
                    assert(self.edges@[k].0 == c);
                }
            }
        }
        r
    }
}

proof fn lemma_sites_absent(es: Seq<(ComponentId, Seq<CallSite>)>, c: ComponentId)
    requires
        forall|k: int| 0 <= k < es.len() ==> es[k].0 != c,
    ensures
        sites_of(es, c) == Seq::<CallSite>::empty(),
    decreases es.len(),
{
    if es.len() > 0 {
        lemma_sites_absent(es.drop_last(), c);
    }
}

proof fn lemma_sites_nonempty_has_entry(es: Seq<(ComponentId, Seq<CallSite>)>, c: ComponentId)
    requires
        sites_of(es, c).len() > 0,
    ensures
        exists|k: int| 0 <= k < es.len() && es[k].0 == c,
    decreases es.len(),
{
    if es.len() > 0 && es.last().0 != c {
        lemma_sites_nonempty_has_entry(es.drop_last(), c);
        let k = choose|k: int| 0 <= k < es.len() - 1 && es.drop_last()[k].0 == c;
        assert(es[k].0 == c);
    } else if es.len() > 0 {
        assert(es[es.len() - 1].0 == c);
    }
}

proof fn lemma_sites_at(es: Seq<(ComponentId, Seq<CallSite>)>, i: int)
    requires
        0 <= i < es.len(),
        forall|a: int, b: int| 0 <= a < b < es.len() ==> es[a].0 != es[b].0,
    ensures
        sites_of(es, es[i].0) == es[i].1,
    decreases es.len(),
{
    if i < es.len() - 1 {
        assert(es.last().0 != es[i].0);
        lemma_sites_at(es.drop_last(), i);
        assert(es.drop_last()[i] == es[i]);
    }
}

proof fn lemma_update_sites(
    v0: Seq<(ComponentId, Seq<CallSite>)>,
    v1: Seq<(ComponentId, Seq<CallSite>)>,
    i: int,
    caller: ComponentId,
    site: CallSite,
)
    requires
        v0.len() == v1.len(),
        0 <= i < v0.len(),
        v0[i].0 == caller,
        v1[i] == (caller, v0[i].1.push(site)),
        forall|t: int| 0 <= t < v0.len() && t != i ==> v1[t] == v0[t],
        forall|a: int, b: int| 0 <= a < b < v0.len() ==> v0[a].0 != v0[b].0,
    ensures
        sites_of(v1, caller) == sites_of(v0, caller).push(site),
        forall|c: ComponentId| c != caller ==> sites_of(v1, c) == sites_of(v0, c),
        forall|a: int, b: int| 0 <= a < b < v1.len() ==> v1[a].0 != v1[b].0,
    decreases v0.len(),
{
    assert forall|a: int, b: int| 0 <= a < b < v1.len() implies v1[a].0 != v1[b].0 by {
        assert(v1[a].0 == v0[a].0 && v1[b].0 == v0[b].0);
    }
    if i < v0.len() - 1 {
        assert(v1.last() == v0.last());
        lemma_update_sites(v0.drop_last(), v1.drop_last(), i, caller, site);
        assert forall|c: ComponentId| c != caller implies sites_of(v1, c) == sites_of(v0, c) by {
            if v0.last().0 != c {
                assert(sites_of(v1.drop_last(), c) == sites_of(v0.drop_last(), c));
            }
        }
    } else {
        assert(v1.drop_last() =~= v0.drop_last());
        assert forall|c: ComponentId| c != caller implies sites_of(v1, c) == sites_of(v0, c) by {
            assert(sites_of(v1, c) == sites_of(v1.drop_last(), c));
        }
    }
}

/// Counters and pair sets gathered over one program analysis.
#[derive(Debug, Clone)]
pub struct AnalysisStats {
    pub cache_hits: usize,
    pub cache_misses: usize,
    pub recursion_cutoffs: usize,
    /// Components analyzed, re-analyses included.
    pub components_analyzed: usize,
    /// (caller, callee) pairs where a recursive reference was cut to ⊤.
    pub recursive_component_refs: Vec<(ComponentId, ComponentId)>,
    /// (caller, callee name) where the callee was not found.
    pub unknown_component_refs: Vec<(ComponentId, Symbol)>,
    /// (caller, callee name) where several files define the callee's name.
    pub ambiguous_component_refs: Vec<(ComponentId, Symbol)>,
    /// Components whose callback traversal hit the inline depth cap.
    pub callback_depth_capped: Vec<ComponentId>,
    /// Components whose utility-inlining budget ran out.
    pub inline_budget_exhausted: Vec<ComponentId>,
}

} // verus!
