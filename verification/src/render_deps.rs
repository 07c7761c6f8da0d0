//! Render dependence: which render inputs each part of a component's output
//! may be computed from. The lattice is a finite set of sources per value,
//! joined by union; a source reached by a function value only behind a test
//! of its own arguments is *gated*.
use std::sync::Arc;

use vstd::prelude::*;

use crate::expr::CompOrigin;
use crate::source_range::SourceRange;
use crate::text::{lemma_seq_lt_order, seq_lt, str_eq, str_lt};
use crate::types::{HookLabel, Symbol, Var};

verus! {

/// A render input a value may be computed from, in the frame of one
/// component.
#[derive(Debug, Clone)]
pub enum Source {
    /// The value of one of the component's state slots.
    Slot(HookLabel),
    /// The setter of one of its state slots: a write capability.
    Setter(HookLabel),
    /// One top-level prop.
    Prop(Symbol),
    /// The props object as a whole.
    AllProps,
    /// A ref's contents.
    Ref(HookLabel),
    /// The result of a hook the engine does not model.
    Hook(HookLabel),
}

/// A source as a plain value.
pub enum SourceView {
    Slot(HookLabel),
    Setter(HookLabel),
    Prop(Seq<char>),
    AllProps,
    Ref(HookLabel),
    Hook(HookLabel),
}

impl Source {
    /// The source as a plain value.
    pub open spec fn view(&self) -> SourceView {
        match self {
            Source::Slot(l) => SourceView::Slot(*l),
            Source::Setter(l) => SourceView::Setter(*l),
            Source::Prop(p) => SourceView::Prop(p@),
            Source::AllProps => SourceView::AllProps,
            Source::Ref(l) => SourceView::Ref(*l),
            Source::Hook(l) => SourceView::Hook(*l),
        }
    }

    /// A copy of the source, equal to it as a plain value.
    pub fn duplicate(&self) -> (r: Source)
        ensures
            r@ == self@,
    {
        match self {
            Source::Slot(l) => Source::Slot(*l),
            Source::Setter(l) => Source::Setter(*l),
            Source::Prop(p) => Source::Prop(p.clone()),
            Source::AllProps => Source::AllProps,
            Source::Ref(l) => Source::Ref(*l),
            Source::Hook(l) => Source::Hook(*l),
        }
    }

    /// `true` iff the two sources are the same.
    pub fn same(&self, other: &Source) -> (r: bool)
        ensures
            r <==> self@ == other@,
    {
        match (self, other) {
            (Source::Slot(a), Source::Slot(b)) => a == b,
            (Source::Setter(a), Source::Setter(b)) => a == b,
            (Source::Prop(a), Source::Prop(b)) => str_eq(a.as_str(), b.as_str()),
            (Source::AllProps, Source::AllProps) => true,
            (Source::Ref(a), Source::Ref(b)) => a == b,
            (Source::Hook(a), Source::Hook(b)) => a == b,
            _ => false,
        }
    }
}

/// The set of sources a list holds.
pub open spec fn source_set(v: Seq<Source>) -> Set<SourceView> {
    Set::new(|x: SourceView| exists|i: int| 0 <= i < v.len() && #[trigger] v[i]@ == x)
}

/// No source occurs twice in a list.
pub open spec fn no_dup_sources(v: Seq<Source>) -> bool {
    forall|i: int, j: int| 0 <= i < j < v.len() ==> v[i]@ != v[j]@
}

/// `true` iff `v` holds `s`.
fn has_source(v: &Vec<Source>, s: &Source) -> (r: bool)
    ensures
        r <==> source_set(v@).contains(s@),
{
    let mut i: usize = 0;
    while i < v.len()
        invariant
            i <= v.len(),
            forall|k: int| 0 <= k < i ==> v@[k]@ != s@,
        decreases v.len() - i,
    {
        if v[i].same(s) {
            assert(v@[i as int]@ == s@);
            return true;
        }
        i = i + 1;
    }
    false
}

/// Add `s` to the set `v` unless it is there.
fn add_source(v: &mut Vec<Source>, s: &Source)
    requires
        no_dup_sources(old(v)@),
    ensures
        no_dup_sources(final(v)@),
        source_set(final(v)@) == source_set(old(v)@).insert(s@),
{
    if !has_source(v, s) {
        let ghost before = v@;
        v.push(s.duplicate());
        assert(source_set(v@) =~= source_set(before).insert(s@)) by {
            assert forall|x: SourceView| source_set(v@).contains(x) implies source_set(before).insert(s@).contains(x) by {
                let i = choose|i: int| 0 <= i < v@.len() && #[trigger] v@[i]@ == x;
                if i < before.len() {
                    assert(before[i]@ == x);
                }
            }
            assert forall|x: SourceView| source_set(before).insert(s@).contains(x) implies source_set(v@).contains(x) by {
                if x == s@ {
                    assert(v@[before.len() as int]@ == x);
                } else {
                    let i = choose|i: int| 0 <= i < before.len() && #[trigger] before[i]@ == x;
                    assert(v@[i]@ == x);
                }
            }
        }
    } else {
        assert(source_set(v@) =~= source_set(v@).insert(s@));
    }
}

/// May-set of sources; `top` is "may depend on anything". `gated` is the
/// part of `set` a function value reaches, when called, only behind a test
/// of its own arguments: a must-fact, so one ungated contributor takes a
/// source out.
#[derive(Debug, Clone)]
pub struct Deps {
    pub top: bool,
    pub set: Vec<Source>,
    pub gated: Vec<Source>,
}

/// A deps value as plain values: `(top, set, gated)`.
pub type DepsView = (bool, Set<SourceView>, Set<SourceView>);

/// The join of two deps values: ⊤ absorbs; otherwise the sets unite, and a
/// source stays gated only where no side reaches it ungated.
pub open spec fn deps_union(a: DepsView, b: DepsView) -> DepsView {
    if a.0 || b.0 {
        (true, Set::empty(), Set::empty())
    } else {
        let ungated = a.1.difference(a.2).union(b.1.difference(b.2));
        (false, a.1.union(b.1), a.2.union(b.2).difference(ungated))
    }
}

impl Deps {
    /// The value as plain values.
    pub open spec fn view(&self) -> DepsView {
        (self.top, source_set(self.set@), source_set(self.gated@))
    }

    /// Each list holds a source at most once.
    pub open spec fn wf(&self) -> bool {
        no_dup_sources(self.set@) && no_dup_sources(self.gated@)
    }

    /// No source.
    pub fn empty() -> (r: Deps)
        ensures
            r.wf(),
            r@ == (false, Set::<SourceView>::empty(), Set::<SourceView>::empty()),
    {
        let r = Deps { top: false, set: Vec::new(), gated: Vec::new() };
        assert(source_set(r.set@) =~= Set::<SourceView>::empty());
        assert(source_set(r.gated@) =~= Set::<SourceView>::empty());
        r
    }

    /// The single source `s`, ungated.
    pub fn one(s: Source) -> (r: Deps)
        ensures
            r.wf(),
            r@ == (false, set![s@], Set::<SourceView>::empty()),
    {
        let ghost sv = s@;
        let mut set: Vec<Source> = Vec::new();
        set.push(s);
        let r = Deps { top: false, set, gated: Vec::new() };
        assert(source_set(r.set@) =~= set![sv]) by {
            assert(r.set@[0]@ == sv);
        }
        assert(source_set(r.gated@) =~= Set::<SourceView>::empty());
        r
    }

    /// May depend on anything.
    pub fn top() -> (r: Deps)
        ensures
            r.wf(),
            r@ == (true, Set::<SourceView>::empty(), Set::<SourceView>::empty()),
    {
        let r = Deps { top: true, set: Vec::new(), gated: Vec::new() };
        assert(source_set(r.set@) =~= Set::<SourceView>::empty());
        assert(source_set(r.gated@) =~= Set::<SourceView>::empty());
        r
    }

    /// Neither ⊤ nor any source.
    pub fn is_empty(&self) -> (r: bool)
        ensures
            r <==> !self@.0 && self@.1 == Set::<SourceView>::empty(),
    {
        let r = !self.top && self.set.len() == 0;
        proof {
            if self.set.len() > 0 {
                assert(source_set(self.set@).contains(self.set@[0]@));
            } else {
                assert(source_set(self.set@) =~= Set::<SourceView>::empty());
            }
        }
        r
    }

    /// Join `other` into `self` (see [`deps_union`]).
    pub fn union_with(&mut self, other: &Deps)
        requires
            old(self).wf(),
            other.wf(),
        ensures
            final(self).wf(),
            final(self)@ == deps_union(old(self)@, other@),
    {
        self.top = self.top || other.top;
        if self.top {
            self.set = Vec::new();
            self.gated = Vec::new();
            assert(source_set(self.set@) =~= Set::<SourceView>::empty());
            assert(source_set(self.gated@) =~= Set::<SourceView>::empty());
            return;
        }
        let ghost a = *old(self);
        // The sources either side reaches ungated.
        let mut ungated: Vec<Source> = Vec::new();
        let mut i: usize = 0;
        assert(source_set(ungated@) =~= Set::<SourceView>::empty());
        while i < self.set.len()
            invariant
                *self == a,
                !a.top,
                i <= a.set.len(),
                no_dup_sources(ungated@),
                source_set(ungated@) == source_set(a.set@.subrange(0, i as int)).difference(source_set(a.gated@)),
            decreases a.set.len() - i,
        {
            proof { lemma_source_set_push(a.set@.subrange(0, i as int), a.set@[i as int]); }
            assert(a.set@.subrange(0, i + 1) =~= a.set@.subrange(0, i as int).push(a.set@[i as int]));
            if !has_source(&self.gated, &self.set[i]) {
                add_source(&mut ungated, &self.set[i]);
            }
            assert(source_set(ungated@) =~= source_set(a.set@.subrange(0, i + 1)).difference(source_set(a.gated@)));
            i = i + 1;
        }
        assert(a.set@.subrange(0, a.set@.len() as int) =~= a.set@);
        let ghost mine = source_set(ungated@);
        let mut i: usize = 0;
        while i < other.set.len()
            invariant
                *self == a,
                i <= other.set.len(),
                no_dup_sources(ungated@),
                source_set(ungated@) == mine.union(source_set(other.set@.subrange(0, i as int)).difference(source_set(other.gated@))),
            decreases other.set.len() - i,
        {
            proof { lemma_source_set_push(other.set@.subrange(0, i as int), other.set@[i as int]); }
            assert(other.set@.subrange(0, i + 1) =~= other.set@.subrange(0, i as int).push(other.set@[i as int]));
            if !has_source(&other.gated, &other.set[i]) {
                add_source(&mut ungated, &other.set[i]);
            }
            assert(source_set(ungated@) =~= mine.union(source_set(other.set@.subrange(0, i + 1)).difference(source_set(other.gated@))));
            i = i + 1;
        }
        assert(other.set@.subrange(0, other.set@.len() as int) =~= other.set@);
        // gated := (gated ∪ other.gated) \ ungated
        let mut gated: Vec<Source> = Vec::new();
        assert(source_set(gated@) =~= Set::<SourceView>::empty());
        let mut i: usize = 0;
        while i < self.gated.len()
            invariant
                *self == a,
                i <= a.gated.len(),
                no_dup_sources(gated@),
                source_set(gated@) == source_set(a.gated@.subrange(0, i as int)).difference(source_set(ungated@)),
            decreases a.gated.len() - i,
        {
            proof { lemma_source_set_push(a.gated@.subrange(0, i as int), a.gated@[i as int]); }
            assert(a.gated@.subrange(0, i + 1) =~= a.gated@.subrange(0, i as int).push(a.gated@[i as int]));
            if !has_source(&ungated, &self.gated[i]) {
                add_source(&mut gated, &self.gated[i]);
            }
            assert(source_set(gated@) =~= source_set(a.gated@.subrange(0, i + 1)).difference(source_set(ungated@)));
            i = i + 1;
        }
        assert(a.gated@.subrange(0, a.gated@.len() as int) =~= a.gated@);
        let ghost g1 = source_set(gated@);
        let mut i: usize = 0;
        while i < other.gated.len()
            invariant
                *self == a,
                i <= other.gated.len(),
                no_dup_sources(gated@),
                source_set(gated@) == g1.union(source_set(other.gated@.subrange(0, i as int)).difference(source_set(ungated@))),
            decreases other.gated.len() - i,
        {
            proof { lemma_source_set_push(other.gated@.subrange(0, i as int), other.gated@[i as int]); }
            assert(other.gated@.subrange(0, i + 1) =~= other.gated@.subrange(0, i as int).push(other.gated@[i as int]));
            if !has_source(&ungated, &other.gated[i]) {
                add_source(&mut gated, &other.gated[i]);
            }
            assert(source_set(gated@) =~= g1.union(source_set(other.gated@.subrange(0, i + 1)).difference(source_set(ungated@))));
            i = i + 1;
        }
        assert(other.gated@.subrange(0, other.gated@.len() as int) =~= other.gated@);
        // set := set ∪ other.set
        let mut i: usize = 0;
        let ghost s0 = source_set(self.set@);
        while i < other.set.len()
            invariant
                !self.top,
                i <= other.set.len(),
                no_dup_sources(self.set@),
                source_set(self.set@) == s0.union(source_set(other.set@.subrange(0, i as int))),
            decreases other.set.len() - i,
        {
            proof { lemma_source_set_push(other.set@.subrange(0, i as int), other.set@[i as int]); }
            assert(other.set@.subrange(0, i + 1) =~= other.set@.subrange(0, i as int).push(other.set@[i as int]));
            add_source(&mut self.set, &other.set[i]);
            assert(source_set(self.set@) =~= s0.union(source_set(other.set@.subrange(0, i + 1))));
            i = i + 1;
        }
        self.gated = gated;
        assert(self@ =~= deps_union(a@, other@));
    }

    /// The same sources, none of them gated: the value is no longer the
    /// function whose calls the gating described.
    pub fn ungated(self) -> (r: Deps)
        requires
            self.wf(),
        ensures
            r.wf(),
            r@ == (self@.0, self@.1, Set::<SourceView>::empty()),
    {
        let mut r = self;
        r.gated = Vec::new();
        assert(source_set(r.gated@) =~= Set::<SourceView>::empty());
        r
    }
}

/// The set a list pushed with one more source holds.
proof fn lemma_source_set_push(v: Seq<Source>, s: Source)
    ensures
        source_set(v.push(s)) == source_set(v).insert(s@),
{
    assert forall|x: SourceView| source_set(v.push(s)).contains(x) <==> source_set(v).insert(s@).contains(x) by {
        if source_set(v.push(s)).contains(x) {
            let i = choose|i: int| 0 <= i < v.push(s).len() && #[trigger] v.push(s)[i]@ == x;
            if i < v.len() {
                assert(v[i]@ == x);
            }
        }
        if source_set(v).contains(x) {
            let i = choose|i: int| 0 <= i < v.len() && #[trigger] v[i]@ == x;
            assert(v.push(s)[i]@ == x);
        }
        if x == s@ {
            assert(v.push(s)[v.len() as int]@ == x);
        }
    }
    assert(source_set(v.push(s)) =~= source_set(v).insert(s@));
}

/// The gated sources of a deps value are among its sources.
pub open spec fn gated_within(d: DepsView) -> bool {
    d.2.subset_of(d.1)
}

/// The join of deps values does not depend on the order of its arguments.
pub proof fn lemma_union_commutative(a: DepsView, b: DepsView)
    ensures
        deps_union(a, b) == deps_union(b, a),
{
    if !a.0 && !b.0 {
        assert(deps_union(a, b).1 =~= deps_union(b, a).1);
        assert(deps_union(a, b).2 =~= deps_union(b, a).2);
    }
}

/// The join of deps values is associative (gated sources being among the
/// sources, as every value built from [`Deps::one`] and joins has them).
pub proof fn lemma_union_associative(a: DepsView, b: DepsView, c: DepsView)
    requires
        gated_within(a),
        gated_within(b),
        gated_within(c),
    ensures
        deps_union(deps_union(a, b), c) == deps_union(a, deps_union(b, c)),
        gated_within(deps_union(a, b)),
{
    if !a.0 && !b.0 && !c.0 {
        let l = deps_union(deps_union(a, b), c);
        let r = deps_union(a, deps_union(b, c));
        assert(l.1 =~= r.1);
        assert(l.2 =~= r.2);
    }
    if !a.0 && !b.0 {
        assert(deps_union(a, b).2.subset_of(deps_union(a, b).1));
    }
}

/// Joining a value with itself changes nothing.
pub proof fn lemma_union_idempotent(a: DepsView)
    requires
        gated_within(a),
        a.0 ==> a.1 == Set::<SourceView>::empty() && a.2 == Set::<SourceView>::empty(),
    ensures
        deps_union(a, a) == a,
{
    if !a.0 {
        assert(deps_union(a, a).1 =~= a.1);
        assert(deps_union(a, a).2 =~= a.2);
    }
}

/// ⊤ absorbs whatever it is joined with.
pub proof fn lemma_union_top(a: DepsView, b: DepsView)
    requires
        a.0,
    ensures
        deps_union(a, b) == (true, Set::<SourceView>::empty(), Set::<SourceView>::empty()),
{
}

/// The sources a question is about, in one component's frame.
#[derive(Debug, Clone)]
pub enum Relevance {
    /// Every prop: the parent spread a relevant value into the element.
    All,
    Sources(Vec<Source>),
}

/// A value depending on `s` may be affected by `rel`: `s` is one of its
/// sources, or one side is the whole props object and the other names a
/// prop.
pub open spec fn touches_spec(s: SourceView, rel: Relevance) -> bool {
    match rel {
        Relevance::All => s is Prop || s is AllProps,
        Relevance::Sources(r) => source_set(r@).contains(s) || (s is AllProps && exists|i: int|
            0 <= i < r.len() && is_prop(#[trigger] r@[i]@)) || (s is Prop && source_set(r@).contains(
            SourceView::AllProps,
        )),
    }
}

/// `s` is one top-level prop.
pub open spec fn is_prop(s: SourceView) -> bool {
    s is Prop
}

/// Whether `rel` may affect a value depending on `s`.
#[verifier::loop_isolation(false)]
pub fn source_touches(s: &Source, rel: &Relevance) -> (r: bool)
    ensures
        r == touches_spec(s@, *rel),
{
    match rel {
        Relevance::All => match s {
            Source::Prop(_) => true,
            Source::AllProps => true,
            _ => false,
        },
        Relevance::Sources(r) => {
            if has_source(r, s) {
                return true;
            }
            match s {
                Source::AllProps => {
                    let mut i: usize = 0;
                    while i < r.len()
                        invariant
                            i <= r.len(),
                            forall|k: int| 0 <= k < i ==> !is_prop(#[trigger] r@[k]@),
                        decreases r.len() - i,
                    {
                        if let Source::Prop(_) = &r[i] {
                            assert(is_prop(r@[i as int]@));
                            return true;
                        }
                        i = i + 1;
                    }
                    false
                },
                Source::Prop(_) => has_source(r, &Source::AllProps),
                _ => false,
            }
        },
    }
}

impl Deps {
    /// A value with these deps may be affected by `rel`: ⊤, or one of its
    /// sources is touched.
    pub fn touches(&self, rel: &Relevance) -> (r: bool)
        ensures
            r <==> self.top || exists|i: int| 0 <= i < self.set.len() && touches_spec(#[trigger] self.set@[i]@, *rel),
    {
        if self.top {
            return true;
        }
        let mut i: usize = 0;
        while i < self.set.len()
            invariant
                i <= self.set.len(),
                forall|k: int| 0 <= k < i ==> !touches_spec(#[trigger] self.set@[k]@, *rel),
            decreases self.set.len() - i,
        {
            if source_touches(&self.set[i], rel) {
                return true;
            }
            i = i + 1;
        }
        false
    }

    /// Every source of `rel` these deps carry is gated, and there is one:
    /// calling the value reaches `rel` only behind a test of the call's
    /// arguments.
    pub fn gated_for(&self, rel: &Relevance) -> (r: bool)
        ensures
            r <==> !self.top && (exists|i: int| 0 <= i < self.set.len() && touches_spec(#[trigger] self.set@[i]@, *rel))
                && (forall|i: int| 0 <= i < self.set.len() && touches_spec(#[trigger] self.set@[i]@, *rel)
                    ==> source_set(self.gated@).contains(self.set@[i]@)),
    {
        if self.top {
            return false;
        }
        let mut hit = false;
        let mut i: usize = 0;
        while i < self.set.len()
            invariant
                i <= self.set.len(),
                !self.top,
                hit <==> exists|k: int| 0 <= k < i && touches_spec(#[trigger] self.set@[k]@, *rel),
                forall|k: int| 0 <= k < i && touches_spec(#[trigger] self.set@[k]@, *rel) ==> source_set(self.gated@).contains(self.set@[k]@),
            decreases self.set.len() - i,
        {
            if source_touches(&self.set[i], rel) {
                if !has_source(&self.gated, &self.set[i]) {
                    return false;
                }
                hit = true;
            }
            i = i + 1;
        }
        hit
    }
}

/// A component element built by the render (`<Child a={x} />`).
#[derive(Debug, Clone)]
pub struct ElementSite {
    pub name: Symbol,
    pub origin: Option<Arc<CompOrigin>>,
    pub span: Option<SourceRange>,
    /// Per explicit prop, what it may depend on.
    pub props: Vec<(Symbol, Deps)>,
    /// What the spread entries may depend on.
    pub spread: Deps,
    /// The conditions the element is built under.
    pub guard: Deps,
    /// Built in a callback the render passes to a call (`.map`).
    pub in_list: bool,
    /// Index of the element this one is nested in as a prop or child.
    pub parent: Option<usize>,
}

/// An event handler prop of a host element built by the render.
#[derive(Debug, Clone)]
pub struct HostHandler {
    /// The event (`onChange` gives `change`); `None` for a spread.
    pub event: Option<String>,
    pub tag: Symbol,
    /// The element's literal `type` attribute, lowercased.
    pub input_type: Option<String>,
    pub span: Option<SourceRange>,
    /// For a spread: the event props the element also names.
    pub named: Vec<Symbol>,
    /// What the handler value may depend on.
    pub deps: Deps,
}

/// Render dependence summary of one component.
#[derive(Debug, Clone)]
pub struct RenderDeps {
    pub genuine: Deps,
    pub sites: Vec<ElementSite>,
    pub handlers: Vec<HostHandler>,
}

// ── Abstract values of the summary walk ─────────────────────────────────────

/// A copy of a list of sources.
fn copy_sources(v: &Vec<Source>) -> (r: Vec<Source>)
    ensures
        r@.len() == v@.len(),
        forall|i: int| 0 <= i < v.len() ==> #[trigger] r@[i]@ == v@[i]@,
        source_set(r@) == source_set(v@),
        no_dup_sources(v@) ==> no_dup_sources(r@),
{
    let mut r: Vec<Source> = Vec::new();
    let mut i: usize = 0;
    while i < v.len()
        invariant
            i <= v.len(),
            r.len() == i,
            forall|k: int| 0 <= k < i ==> #[trigger] r@[k]@ == v@[k]@,
        decreases v.len() - i,
    {
        r.push(v[i].duplicate());
        i = i + 1;
    }
    assert(source_set(r@) =~= source_set(v@)) by {
        assert forall|x: SourceView| source_set(r@).contains(x) <==> source_set(v@).contains(x) by {
            if source_set(r@).contains(x) {
                let k = choose|k: int| 0 <= k < r@.len() && #[trigger] r@[k]@ == x;
                assert(v@[k]@ == x);
            }
            if source_set(v@).contains(x) {
                let k = choose|k: int| 0 <= k < v@.len() && #[trigger] v@[k]@ == x;
                assert(r@[k]@ == x);
            }
        }
    }
    r
}

/// `true` iff every source of `a` is one of `b`.
fn sources_within(a: &Vec<Source>, b: &Vec<Source>) -> (r: bool)
    ensures
        r == source_set(a@).subset_of(source_set(b@)),
{
    let mut i: usize = 0;
    while i < a.len()
        invariant
            i <= a.len(),
            forall|k: int| 0 <= k < i ==> source_set(b@).contains(#[trigger] a@[k]@),
        decreases a.len() - i,
    {
        if !has_source(b, &a[i]) {
            assert(source_set(a@).contains(a@[i as int]@));
            return false;
        }
        i = i + 1;
    }
    assert forall|x: SourceView| source_set(a@).contains(x) implies source_set(b@).contains(x) by {
        let k = choose|k: int| 0 <= k < a@.len() && #[trigger] a@[k]@ == x;
    }
    true
}

impl Deps {
    /// A copy, equal as plain values.
    pub fn copy(&self) -> (r: Deps)
        ensures
            r@ == self@,
            self.wf() ==> r.wf(),
    {
        Deps { top: self.top, set: copy_sources(&self.set), gated: copy_sources(&self.gated) }
    }

    /// `true` iff the two values are equal as plain values.
    pub fn same(&self, other: &Deps) -> (r: bool)
        ensures
            r == (self@ == other@),
    {
        let r = self.top == other.top && sources_within(&self.set, &other.set) && sources_within(&other.set, &self.set)
            && sources_within(&self.gated, &other.gated) && sources_within(&other.gated, &self.gated);
        proof {
            if r {
                assert(source_set(self.set@) =~= source_set(other.set@));
                assert(source_set(self.gated@) =~= source_set(other.gated@));
            }
        }
        r
    }
}

/// The object shape an abstract value is known to have.
#[derive(Debug)]
pub enum Shape {
    /// None known.
    Plain,
    /// The props object.
    Props,
    /// A local object literal, its members in ascending name order with
    /// their own values.
    Members(Vec<(Symbol, DVal)>),
}

/// Abstract value of the summary walk: its sources, plus the object shape
/// when one is known (the props object, or a local object literal whose
/// members keep their own sources).
#[derive(Debug)]
pub struct DVal {
    pub deps: Deps,
    pub shape: Shape,
}

/// `m` has a member named `k`.
pub open spec fn has_member(m: Seq<(Symbol, DVal)>, k: Seq<char>) -> bool {
    exists|i: int| 0 <= i < m.len() && #[trigger] m[i].0@ == k
}

/// Member names ascend strictly.
pub open spec fn members_sorted(m: Seq<(Symbol, DVal)>) -> bool {
    forall|i: int, j: int| 0 <= i < j < m.len() ==> seq_lt(m[i].0@, m[j].0@)
}

/// Every deps list is duplicate-free and every member list sorted, at every
/// depth.
pub open spec fn dval_wf(d: DVal) -> bool
    decreases d,
{
    &&& d.deps.wf()
    &&& match d.shape {
        Shape::Members(m) => members_sorted(m@) && forall|i: int| 0 <= i < m.len() ==> dval_wf(#[trigger] m@[i].1),
        _ => true,
    }
}

/// The two values are equal: the same deps and shape, members pairwise.
pub open spec fn dval_eq(a: DVal, b: DVal) -> bool
    decreases a,
{
    &&& a.deps@ == b.deps@
    &&& match a.shape {
        Shape::Plain => b.shape is Plain,
        Shape::Props => b.shape is Props,
        Shape::Members(x) => match b.shape {
            Shape::Members(y) => x.len() == y.len() && forall|i: int|
                0 <= i < x.len() ==> (#[trigger] x@[i]).0@ == y@[i].0@ && dval_eq(x@[i].1, y@[i].1),
            _ => false,
        },
    }
}

/// `r` is the join of `a` and `b`: the deps unite; two props shapes stay
/// the props shape; two member lists merge by name, a member on both sides
/// joining its values; any other pair of shapes is none.
pub open spec fn joined(a: DVal, b: DVal, r: DVal) -> bool
    decreases a,
{
    &&& r.deps@ == deps_union(a.deps@, b.deps@)
    &&& match a.shape {
        Shape::Props => if b.shape is Props {
            r.shape is Props
        } else {
            r.shape is Plain
        },
        Shape::Members(x) => match b.shape {
            Shape::Members(y) => match r.shape {
                Shape::Members(z) => {
                    &&& members_sorted(z@)
                    &&& forall|k: Seq<char>| #[trigger] has_member(z@, k) <==> has_member(x@, k) || has_member(y@, k)
                    &&& forall|i: int, j: int, l: int|
                        0 <= i < z.len() && 0 <= j < x.len() && 0 <= l < y.len() && (#[trigger] z@[i]).0@ == (#[trigger] x@[j]).0@
                            && (#[trigger] y@[l]).0@ == x@[j].0@ ==> joined(x@[j].1, y@[l].1, z@[i].1)
                    &&& forall|i: int, j: int|
                        0 <= i < z.len() && 0 <= j < x.len() && (#[trigger] z@[i]).0@ == (#[trigger] x@[j]).0@ && !has_member(
                            y@,
                            x@[j].0@,
                        ) ==> dval_eq(z@[i].1, x@[j].1)
                    &&& forall|i: int, l: int|
                        0 <= i < z.len() && 0 <= l < y.len() && (#[trigger] z@[i]).0@ == (#[trigger] y@[l]).0@ && !has_member(
                            x@,
                            y@[l].0@,
                        ) ==> dval_eq(z@[i].1, y@[l].1)
                },
                _ => false,
            },
            _ => r.shape is Plain,
        },
        Shape::Plain => r.shape is Plain,
    }
}

impl DVal {
    /// No source, no shape.
    pub fn empty() -> (r: DVal)
        ensures
            dval_wf(r),
            r.deps@ == (false, Set::<SourceView>::empty(), Set::<SourceView>::empty()),
            r.shape is Plain,
    {
        DVal { deps: Deps::empty(), shape: Shape::Plain }
    }

    /// The sources `deps`, no shape.
    pub fn of(deps: Deps) -> (r: DVal)
        requires
            deps.wf(),
        ensures
            dval_wf(r),
            r.deps == deps,
            r.shape is Plain,
    {
        DVal { deps, shape: Shape::Plain }
    }
}

/// In a sorted member list a name occurs at one position only.
proof fn lemma_members_unique(m: Seq<(Symbol, DVal)>, a: int, b: int)
    requires
        members_sorted(m),
        0 <= a < m.len(),
        0 <= b < m.len(),
        m[a].0@ == m[b].0@,
    ensures
        a == b,
{
    if a < b {
        lemma_seq_lt_order(m[a].0@, m[b].0@, m[a].0@);
    } else if b < a {
        lemma_seq_lt_order(m[b].0@, m[a].0@, m[b].0@);
    }
}

impl DVal {
    /// A copy, equal to the value.
    pub fn copy(&self) -> (r: DVal)
        requires
            dval_wf(*self),
        ensures
            dval_wf(r),
            dval_eq(r, *self),
        decreases self,
    {
        let deps = self.deps.copy();
        let shape = match &self.shape {
            Shape::Plain => Shape::Plain,
            Shape::Props => Shape::Props,
            Shape::Members(m) => {
                let mut c: Vec<(Symbol, DVal)> = Vec::new();
                let mut i: usize = 0;
                while i < m.len()
                    invariant
                        self.shape == Shape::Members(*m),
                        dval_wf(*self),
                        i <= m.len(),
                        c.len() == i,
                        forall|k: int| 0 <= k < i ==> (#[trigger] c@[k]).0@ == m@[k].0@ && dval_eq(c@[k].1, m@[k].1) && dval_wf(
                            c@[k].1,
                        ),
                    decreases m.len() - i,
                {
                    proof {
                        assert(decreases_to!(*self => self.shape));
                        assert(decreases_to!(self.shape => *m));
                        assert(decreases_to!(*m => m@));
                        assert(decreases_to!(m@ => m@[i as int]));
                        assert(decreases_to!(m@[i as int] => m@[i as int].1));
                        assert(dval_wf(m@[i as int].1));
                    }
                    let v = m[i].1.copy();
                    c.push((m[i].0.clone(), v));
                    i = i + 1;
                }
                proof {
                    assert forall|a: int, b: int| 0 <= a < b < c.len() implies seq_lt(c@[a].0@, c@[b].0@) by {
                        assert(c@[a].0@ == m@[a].0@ && c@[b].0@ == m@[b].0@);
                    }
                }
                Shape::Members(c)
            },
        };
        DVal { deps, shape }
    }

    /// `true` iff the two values are equal.
    pub fn same(&self, other: &DVal) -> (r: bool)
        ensures
            r == dval_eq(*self, *other),
        decreases self,
    {
        if !self.deps.same(&other.deps) {
            return false;
        }
        match &self.shape {
            Shape::Plain => matches!(other.shape, Shape::Plain),
            Shape::Props => matches!(other.shape, Shape::Props),
            Shape::Members(x) => {
                let y = match &other.shape {
                    Shape::Members(y) => y,
                    _ => {
                        return false;
                    },
                };
                if x.len() != y.len() {
                    return false;
                }
                let mut i: usize = 0;
                while i < x.len()
                    invariant
                        self.shape == Shape::Members(*x),
                        other.shape == Shape::Members(*y),
                        x.len() == y.len(),
                        i <= x.len(),
                        forall|k: int| 0 <= k < i ==> (#[trigger] x@[k]).0@ == y@[k].0@ && dval_eq(x@[k].1, y@[k].1),
                    decreases x.len() - i,
                {
                    proof {
                        assert(decreases_to!(*self => self.shape));
                        assert(self.shape->Members_0 == *x);
                        assert(decreases_to!(self.shape => self.shape->Members_0));
                        assert(decreases_to!(*x => x@));
                        assert(decreases_to!(x@ => x@[i as int]));
                        assert(decreases_to!(x@[i as int] => x@[i as int].1));
                    }
                    if !str_eq(x[i].0.as_str(), y[i].0.as_str()) || !x[i].1.same(&y[i].1) {
                        return false;
                    }
                    i = i + 1;
                }
                true
            },
        }
    }

    /// The join of two values (see [`joined`]).
    pub fn join(&self, other: &DVal) -> (r: DVal)
        requires
            dval_wf(*self),
            dval_wf(*other),
        ensures
            dval_wf(r),
            joined(*self, *other, r),
        decreases self,
    {
        let mut deps = self.deps.copy();
        deps.union_with(&other.deps);
        let shape = match (&self.shape, &other.shape) {
            (Shape::Props, Shape::Props) => Shape::Props,
            (Shape::Members(a), Shape::Members(b)) => {
                proof {
                    assert(decreases_to!(*self => self.shape));
                    assert(decreases_to!(self.shape => *a));
                }
                Shape::Members(merge_members(a, b))
            },
            _ => Shape::Plain,
        };
        DVal { deps, shape }
    }
}

/// Where a merge of `x` and `y` stands once it has taken `x[..i]` and
/// `y[..l]` into `z`.
pub open spec fn merge_state(x: Seq<(Symbol, DVal)>, y: Seq<(Symbol, DVal)>, z: Seq<(Symbol, DVal)>, i: int, l: int) -> bool {
    &&& 0 <= i <= x.len()
    &&& 0 <= l <= y.len()
    &&& members_sorted(z)
    &&& forall|q: int| 0 <= q < z.len() ==> dval_wf(#[trigger] z[q].1)
    &&& forall|k: Seq<char>| #[trigger] has_member(z, k) <==> has_member(x.subrange(0, i), k) || has_member(y.subrange(0, l), k)
    &&& forall|q: int| 0 <= q < z.len() && i < x.len() ==> seq_lt((#[trigger] z[q]).0@, x[i].0@)
    &&& forall|q: int| 0 <= q < z.len() && l < y.len() ==> seq_lt((#[trigger] z[q]).0@, y[l].0@)
    &&& forall|q: int, j: int, m: int|
        0 <= q < z.len() && 0 <= j < x.len() && 0 <= m < y.len() && (#[trigger] z[q]).0@ == (#[trigger] x[j]).0@ && (
        #[trigger] y[m]).0@ == x[j].0@ ==> joined(x[j].1, y[m].1, z[q].1)
    &&& forall|q: int, j: int|
        0 <= q < z.len() && 0 <= j < x.len() && (#[trigger] z[q]).0@ == (#[trigger] x[j]).0@ && !has_member(y, x[j].0@)
            ==> dval_eq(z[q].1, x[j].1)
    &&& forall|q: int, m: int|
        0 <= q < z.len() && 0 <= m < y.len() && (#[trigger] z[q]).0@ == (#[trigger] y[m]).0@ && !has_member(x, y[m].0@)
            ==> dval_eq(z[q].1, y[m].1)
}

/// One step of the merge: pushing the entry for `x[i]` (when `tx`), `y[l]`
/// (when `ty`) or both keeps the merge state.
proof fn lemma_merge_step(
    x: Seq<(Symbol, DVal)>,
    y: Seq<(Symbol, DVal)>,
    z0: Seq<(Symbol, DVal)>,
    z1: Seq<(Symbol, DVal)>,
    i: int,
    l: int,
    tx: bool,
    ty: bool,
)
    requires
        members_sorted(x),
        members_sorted(y),
        merge_state(x, y, z0, i, l),
        tx || ty,
        tx ==> i < x.len(),
        ty ==> l < y.len(),
        z1 == z0.push(z1.last()),
        z1.len() == z0.len() + 1,
        dval_wf(z1.last().1),
        tx ==> z1.last().0@ == x[i].0@,
        ty ==> z1.last().0@ == y[l].0@,
        tx && !ty ==> (l < y.len() ==> seq_lt(x[i].0@, y[l].0@)) && !has_member(y, x[i].0@) && dval_eq(z1.last().1, x[i].1),
        ty && !tx ==> (i < x.len() ==> seq_lt(y[l].0@, x[i].0@)) && !has_member(x, y[l].0@) && dval_eq(z1.last().1, y[l].1),
        tx && ty ==> joined(x[i].1, y[l].1, z1.last().1),
    ensures
        merge_state(x, y, z1, if tx { i + 1 } else { i }, if ty { l + 1 } else { l }),
{
    let i2 = if tx { i + 1 } else { i };
    let l2 = if ty { l + 1 } else { l };
    let n = z0.len() as int;
    let e = z1.last();
    let k = e.0@;
    assert(z1[n] == e);
    assert forall|q: int| 0 <= q < n implies z1[q] == z0[q] by {}
    // sorted
    assert forall|a: int, b: int| 0 <= a < b < z1.len() implies seq_lt(z1[a].0@, z1[b].0@) by {
        if b == n {
            assert(z1[a] == z0[a]);
            if tx {
                assert(seq_lt(z0[a].0@, x[i].0@));
            } else {
                assert(seq_lt(z0[a].0@, y[l].0@));
            }
        } else {
            assert(z1[a] == z0[a] && z1[b] == z0[b]);
        }
    }
    assert forall|q: int| 0 <= q < z1.len() implies dval_wf(#[trigger] z1[q].1) by {
        if q < n {
            assert(z1[q] == z0[q]);
        }
    }
    // names
    let xs0 = x.subrange(0, i);
    let xs1 = x.subrange(0, i2);
    let ys0 = y.subrange(0, l);
    let ys1 = y.subrange(0, l2);
    assert forall|kk: Seq<char>| #[trigger] has_member(z1, kk) <==> has_member(xs1, kk) || has_member(ys1, kk) by {
        if has_member(z1, kk) {
            let q = choose|q: int| 0 <= q < z1.len() && #[trigger] z1[q].0@ == kk;
            if q < n {
                assert(z0[q].0@ == kk);
                assert(has_member(z0, kk));
                if has_member(xs0, kk) {
                    let c = choose|c: int| 0 <= c < xs0.len() && #[trigger] xs0[c].0@ == kk;
                    assert(xs1[c].0@ == kk);
                } else {
                    let c = choose|c: int| 0 <= c < ys0.len() && #[trigger] ys0[c].0@ == kk;
                    assert(ys1[c].0@ == kk);
                }
            } else if tx {
                assert(xs1[i].0@ == kk);
            } else {
                assert(ys1[l].0@ == kk);
            }
        }
        if has_member(xs1, kk) {
            let c = choose|c: int| 0 <= c < xs1.len() && #[trigger] xs1[c].0@ == kk;
            if c < i {
                assert(xs0[c].0@ == kk);
                assert(has_member(z0, kk));
                let q = choose|q: int| 0 <= q < z0.len() && #[trigger] z0[q].0@ == kk;
                assert(z1[q].0@ == kk);
            } else {
                assert(z1[n].0@ == kk);
            }
        }
        if has_member(ys1, kk) {
            let c = choose|c: int| 0 <= c < ys1.len() && #[trigger] ys1[c].0@ == kk;
            if c < l {
                assert(ys0[c].0@ == kk);
                assert(has_member(z0, kk));
                let q = choose|q: int| 0 <= q < z0.len() && #[trigger] z0[q].0@ == kk;
                assert(z1[q].0@ == kk);
            } else {
                assert(z1[n].0@ == kk);
            }
        }
    }
    // bounds on the next names
    assert forall|q: int| 0 <= q < z1.len() && i2 < x.len() implies seq_lt((#[trigger] z1[q]).0@, x[i2].0@) by {
        if q < n {
            assert(z1[q] == z0[q]);
            if tx {
                lemma_seq_lt_order(z0[q].0@, x[i].0@, x[i2].0@);
            }
        } else {
            if tx {
                assert(seq_lt(x[i].0@, x[i2].0@));
            }
        }
    }
    assert forall|q: int| 0 <= q < z1.len() && l2 < y.len() implies seq_lt((#[trigger] z1[q]).0@, y[l2].0@) by {
        if q < n {
            assert(z1[q] == z0[q]);
            if ty {
                lemma_seq_lt_order(z0[q].0@, y[l].0@, y[l2].0@);
            }
        } else {
            if ty {
                assert(seq_lt(y[l].0@, y[l2].0@));
            }
        }
    }
    // values
    assert forall|q: int, j: int, m: int|
        0 <= q < z1.len() && 0 <= j < x.len() && 0 <= m < y.len() && (#[trigger] z1[q]).0@ == (#[trigger] x[j]).0@ && (
        #[trigger] y[m]).0@ == x[j].0@ implies joined(x[j].1, y[m].1, z1[q].1) by {
        if q < n {
            assert(z1[q] == z0[q]);
        } else if tx && ty {
            lemma_members_unique(x, i, j);
            lemma_members_unique(y, l, m);
        } else if tx {
            assert(y[m].0@ == x[i].0@);
        } else {
            assert(x[j].0@ == y[l].0@);
        }
    }
    assert forall|q: int, j: int|
        0 <= q < z1.len() && 0 <= j < x.len() && (#[trigger] z1[q]).0@ == (#[trigger] x[j]).0@ && !has_member(y, x[j].0@)
            implies dval_eq(z1[q].1, x[j].1) by {
        if q < n {
            assert(z1[q] == z0[q]);
        } else if tx && ty {
            assert(y[l].0@ == x[j].0@);
        } else if tx {
            lemma_members_unique(x, i, j);
        } else {
            assert(x[j].0@ == y[l].0@);
        }
    }
    assert forall|q: int, m: int|
        0 <= q < z1.len() && 0 <= m < y.len() && (#[trigger] z1[q]).0@ == (#[trigger] y[m]).0@ && !has_member(x, y[m].0@)
            implies dval_eq(z1[q].1, y[m].1) by {
        if q < n {
            assert(z1[q] == z0[q]);
        } else if tx && ty {
            assert(x[i].0@ == y[m].0@);
        } else if ty {
            lemma_members_unique(y, l, m);
        } else {
            assert(y[m].0@ == x[i].0@);
        }
    }
}

/// The merge by name of two sorted member lists, a name on both sides
/// joining its values.
#[verifier::rlimit(60)]
#[verifier::spinoff_prover]
fn merge_members(x: &Vec<(Symbol, DVal)>, y: &Vec<(Symbol, DVal)>) -> (z: Vec<(Symbol, DVal)>)
    requires
        members_sorted(x@),
        members_sorted(y@),
        forall|i: int| 0 <= i < x.len() ==> dval_wf(#[trigger] x@[i].1),
        forall|i: int| 0 <= i < y.len() ==> dval_wf(#[trigger] y@[i].1),
    ensures
        members_sorted(z@),
        forall|i: int| 0 <= i < z.len() ==> dval_wf(#[trigger] z@[i].1),
        forall|k: Seq<char>| #[trigger] has_member(z@, k) <==> has_member(x@, k) || has_member(y@, k),
        forall|i: int, j: int, l: int|
            0 <= i < z.len() && 0 <= j < x.len() && 0 <= l < y.len() && (#[trigger] z@[i]).0@ == (#[trigger] x@[j]).0@
                && (#[trigger] y@[l]).0@ == x@[j].0@ ==> joined(x@[j].1, y@[l].1, z@[i].1),
        forall|i: int, j: int|
            0 <= i < z.len() && 0 <= j < x.len() && (#[trigger] z@[i]).0@ == (#[trigger] x@[j]).0@ && !has_member(y@, x@[j].0@)
                ==> dval_eq(z@[i].1, x@[j].1),
        forall|i: int, l: int|
            0 <= i < z.len() && 0 <= l < y.len() && (#[trigger] z@[i]).0@ == (#[trigger] y@[l]).0@ && !has_member(x@, y@[l].0@)
                ==> dval_eq(z@[i].1, y@[l].1),
    decreases x,
{
    let mut z: Vec<(Symbol, DVal)> = Vec::new();
    let mut i: usize = 0;
    let mut l: usize = 0;
    proof {
        assert forall|k: Seq<char>| #[trigger] has_member(z@, k) <==> has_member(x@.subrange(0, 0), k) || has_member(
            y@.subrange(0, 0),
            k,
        ) by {}
    }
    while i < x.len() || l < y.len()
        invariant
            members_sorted(x@),
            members_sorted(y@),
            forall|a: int| 0 <= a < x.len() ==> dval_wf(#[trigger] x@[a].1),
            forall|a: int| 0 <= a < y.len() ==> dval_wf(#[trigger] y@[a].1),
            merge_state(x@, y@, z@, i as int, l as int),
        decreases x.len() - i + y.len() - l,
    {
        let ghost z0 = z@;
        let take_x = i < x.len() && (l >= y.len() || str_lt(x[i].0.as_str(), y[l].0.as_str()));
        let take_y = !take_x && l < y.len() && (i >= x.len() || str_lt(y[l].0.as_str(), x[i].0.as_str()));
        if take_x {
            let ghost kx = x@[i as int].0@;
            proof {
                assert(decreases_to!(*x => x@));
                assert(decreases_to!(x@ => x@[i as int]));
                assert(decreases_to!(x@[i as int] => x@[i as int].1));
            }
            let v = x[i].1.copy();
            z.push((x[i].0.clone(), v));
            proof {
                // `kx` is no name of `y`.
                assert(!has_member(y@, kx)) by {
                    if has_member(y@, kx) {
                        let m = choose|m: int| 0 <= m < y.len() && #[trigger] y@[m].0@ == kx;
                        if m < l {
                            assert(y@.subrange(0, l as int)[m].0@ == kx);
                            assert(has_member(z0, kx));
                            let q = choose|q: int| 0 <= q < z0.len() && #[trigger] z0[q].0@ == kx;
                            lemma_seq_lt_order(kx, kx, kx);
                        } else {
                            if m > l {
                                lemma_seq_lt_order(kx, y@[l as int].0@, y@[m].0@);
                            }
                            lemma_seq_lt_order(kx, kx, kx);
                        }
                    }
                }
                lemma_merge_step(x@, y@, z0, z@, i as int, l as int, true, false);
            }
            i = i + 1;
        } else if take_y {
            let ghost ky = y@[l as int].0@;
            let v = y[l].1.copy();
            z.push((y[l].0.clone(), v));
            proof {
                assert(!has_member(x@, ky)) by {
                    if has_member(x@, ky) {
                        let m = choose|m: int| 0 <= m < x.len() && #[trigger] x@[m].0@ == ky;
                        if m < i {
                            assert(x@.subrange(0, i as int)[m].0@ == ky);
                            assert(has_member(z0, ky));
                            let q = choose|q: int| 0 <= q < z0.len() && #[trigger] z0[q].0@ == ky;
                            lemma_seq_lt_order(ky, ky, ky);
                        } else {
                            if m > i {
                                lemma_seq_lt_order(ky, x@[i as int].0@, x@[m].0@);
                            }
                            lemma_seq_lt_order(ky, ky, ky);
                        }
                    }
                }
                lemma_merge_step(x@, y@, z0, z@, i as int, l as int, false, true);
            }
            l = l + 1;
        } else {
            proof {
                lemma_seq_lt_order(x@[i as int].0@, y@[l as int].0@, x@[i as int].0@);
                assert(x@[i as int].0@ == y@[l as int].0@);
                assert(decreases_to!(*x => x@));
                assert(decreases_to!(x@ => x@[i as int]));
                assert(decreases_to!(x@[i as int] => x@[i as int].1));
            }
            let v = x[i].1.join(&y[l].1);
            z.push((x[i].0.clone(), v));
            proof {
                lemma_merge_step(x@, y@, z0, z@, i as int, l as int, true, true);
            }
            i = i + 1;
            l = l + 1;
        }
    }
    proof {
        assert(x@.subrange(0, x.len() as int) =~= x@);
        assert(y@.subrange(0, y.len() as int) =~= y@);
    }
    z
}

/// Variables are distinct and every value is well formed.
pub open spec fn env_wf(e: Seq<(Var, DVal)>) -> bool {
    &&& forall|i: int, j: int| 0 <= i < j < e.len() ==> e[i].0@ != e[j].0@
    &&& forall|i: int| 0 <= i < e.len() ==> dval_wf(#[trigger] e[i].1)
}

/// `b` binds a variable of the name at position `j` of `a` before position
/// `l`, to a value that `r` is the join of `a[j]`'s value with.
pub open spec fn env_joined(a0: Seq<(Var, DVal)>, b: Seq<(Var, DVal)>, a: Seq<(Var, DVal)>, j: int, l: int) -> bool {
    if has_member(b.subrange(0, l), a0[j].0@) {
        forall|m: int| 0 <= m < l && (#[trigger] b[m]).0@ == a0[j].0@ ==> joined(a0[j].1, b[m].1, a[j].1)
    } else {
        a[j] == a0[j]
    }
}

/// Where `join_env` stands once it has joined `b[..l]` into `a`.
pub open spec fn env_join_state(a0: Seq<(Var, DVal)>, b: Seq<(Var, DVal)>, a: Seq<(Var, DVal)>, l: int, changed: bool) -> bool {
    &&& 0 <= l <= b.len()
    &&& env_wf(a)
    &&& a.len() >= a0.len()
    &&& forall|j: int| 0 <= j < a0.len() ==> (#[trigger] a[j]).0 == a0[j].0 && env_joined(a0, b, a, j, l)
    &&& forall|i: int|
        a0.len() <= i < a.len() ==> !has_member(a0, (#[trigger] a[i]).0@) && exists|m: int|
            0 <= m < l && b[m].0@ == a[i].0@ && dval_eq(a[i].1, b[m].1)
    &&& forall|k: Seq<char>| #[trigger] has_member(a, k) <==> has_member(a0, k) || has_member(b.subrange(0, l), k)
    &&& changed <==> (a.len() > a0.len() || exists|j: int|
        0 <= j < a0.len() && has_member(b.subrange(0, l), a0[j].0@) && !dval_eq(#[trigger] a[j].1, a0[j].1))
}

/// The position of the variable `k` in `a`, if bound.
fn env_position(a: &Vec<(Var, DVal)>, k: &Var) -> (r: Option<usize>)
    ensures
        r matches Some(p) ==> p < a.len() && a@[p as int].0@ == k@,
        r is None ==> !has_member(a@, k@),
{
    let mut i: usize = 0;
    while i < a.len()
        invariant
            i <= a.len(),
            forall|q: int| 0 <= q < i ==> a@[q].0@ != k@,
        decreases a.len() - i,
    {
        if str_eq(a[i].0.as_str(), k.as_str()) {
            return Some(i);
        }
        i = i + 1;
    }
    None
}

/// Join the environment `b` into `a`: a variable bound on both sides gets
/// the join of its values, one bound in `b` alone is added with `b`'s value.
/// Returns whether `a` changed.
pub fn join_env(a: &mut Vec<(Var, DVal)>, b: &Vec<(Var, DVal)>) -> (changed: bool)
    requires
        env_wf(old(a)@),
        env_wf(b@),
    ensures
        env_join_state(old(a)@, b@, final(a)@, b.len() as int, changed),
{
    let ghost a0 = a@;
    let mut changed = false;
    let mut l: usize = 0;
    proof {
        assert(b@.subrange(0, 0) =~= Seq::<(Var, DVal)>::empty());
        assert forall|j: int| 0 <= j < a0.len() implies (#[trigger] a@[j]).0 == a0[j].0 && env_joined(a0, b@, a@, j, 0) by {}
    }
    while l < b.len()
        invariant
            a0.len() <= a.len(),
            env_wf(b@),
            env_join_state(a0, b@, a@, l as int, changed),
        decreases b.len() - l,
    {
        let ghost a1 = a@;
        let ghost c1 = changed;
        let ghost k = b@[l as int].0@;
        let ghost bs0 = b@.subrange(0, l as int);
        let ghost bs1 = b@.subrange(0, l + 1);
        assert(bs1 =~= bs0.push(b@[l as int]));
        assert(!has_member(bs0, k)) by {
            if has_member(bs0, k) {
                let m = choose|m: int| 0 <= m < bs0.len() && #[trigger] bs0[m].0@ == k;
                assert(b@[m].0@ == k);
            }
        }
        assert(forall|kk: Seq<char>| #[trigger] has_member(bs1, kk) <==> has_member(bs0, kk) || kk == k) by {
            assert forall|kk: Seq<char>| #[trigger] has_member(bs1, kk) <==> has_member(bs0, kk) || kk == k by {
                if has_member(bs1, kk) {
                    let m = choose|m: int| 0 <= m < bs1.len() && #[trigger] bs1[m].0@ == kk;
                    if m < l {
                        assert(bs0[m].0@ == kk);
                    }
                }
                if has_member(bs0, kk) {
                    let m = choose|m: int| 0 <= m < bs0.len() && #[trigger] bs0[m].0@ == kk;
                    assert(bs1[m].0@ == kk);
                }
                if kk == k {
                    assert(bs1[l as int].0@ == kk);
                }
            }
        }
        assert(dval_wf(b@[l as int].1));
        match env_position(a, &b[l].0) {
            Some(p) => {
                // `p` is a binding `a` started with: appended ones come from `b[..l]`.
                proof {
                    if p >= a0.len() {
                        let m = choose|m: int| 0 <= m < l && b@[m].0@ == a@[p as int].0@ && dval_eq(a@[p as int].1, b@[m].1);
                    }
                    assert(dval_wf(a@[p as int].1));
                }
                let j = a[p].1.join(&b[l].1);
                let differs = !j.same(&a[p].1);
                if differs {
                    changed = true;
                }
                let ghost jv = j;
                let key = a[p].0.clone();
                a.set(p, (key, j));
                proof {
                    let pi = p as int;
                    assert(a@[pi].1 == jv);
                    assert(differs == !dval_eq(jv, a0[pi].1));
                    assert(a@[pi].0@ == k);
                    assert(a0[pi].0 == a1[pi].0);
                    assert(!has_member(bs0, a0[pi].0@));
                    assert(a1[pi] == a0[pi]);
                    assert forall|i: int, q: int| 0 <= i < q < a@.len() implies a@[i].0@ != a@[q].0@ by {
                        assert(a1[i].0@ != a1[q].0@);
                    }
                    assert forall|i: int| 0 <= i < a@.len() implies dval_wf(#[trigger] a@[i].1) by {
                        if i != pi {
                            assert(a@[i] == a1[i]);
                        }
                    }
                    assert forall|jj: int| 0 <= jj < a0.len() implies (#[trigger] a@[jj]).0 == a0[jj].0 && env_joined(
                        a0,
                        b@,
                        a@,
                        jj,
                        l + 1,
                    ) by {
                        assert(env_joined(a0, b@, a1, jj, l as int));
                        if jj == pi {
                            assert(has_member(bs1, a0[jj].0@));
                            assert forall|m: int| 0 <= m < l + 1 && (#[trigger] b@[m]).0@ == a0[jj].0@ implies joined(
                                a0[jj].1,
                                b@[m].1,
                                a@[jj].1,
                            ) by {
                                if m < l {
                                    assert(bs0[m].0@ == k);
                                }
                            }
                        } else {
                            assert(a@[jj] == a1[jj]);
                            assert(a0[jj].0@ != k);
                            assert(has_member(bs1, a0[jj].0@) == has_member(bs0, a0[jj].0@));
                        }
                    }
                    assert forall|i: int| a0.len() <= i < a@.len() implies !has_member(a0, (#[trigger] a@[i]).0@) && exists|m: int|
                        0 <= m < l + 1 && b@[m].0@ == a@[i].0@ && dval_eq(a@[i].1, b@[m].1) by {
                        assert(a@[i] == a1[i]);
                        let m = choose|m: int| 0 <= m < l && b@[m].0@ == a1[i].0@ && dval_eq(a1[i].1, b@[m].1);
                    }
                    assert forall|kk: Seq<char>| #[trigger] has_member(a@, kk) <==> has_member(a0, kk) || has_member(bs1, kk) by {
                        if has_member(a@, kk) {
                            let q = choose|q: int| 0 <= q < a@.len() && #[trigger] a@[q].0@ == kk;
                            assert(a1[q].0@ == kk);
                        }
                        if has_member(a1, kk) {
                            let q = choose|q: int| 0 <= q < a1.len() && #[trigger] a1[q].0@ == kk;
                            assert(a@[q].0@ == kk);
                        }
                        if kk == k {
                            assert(a@[pi].0@ == kk);
                        }
                    }
                    assert(changed == (c1 || !dval_eq(a@[pi].1, a0[pi].1)));
                    if c1 {
                        if a1.len() <= a0.len() {
                            let jj = choose|jj: int|
                                0 <= jj < a0.len() && has_member(bs0, a0[jj].0@) && !dval_eq(#[trigger] a1[jj].1, a0[jj].1);
                            assert(jj != pi);
                            assert(a@[jj] == a1[jj]);
                            assert(has_member(bs1, a0[jj].0@));
                            assert(!dval_eq(a@[jj].1, a0[jj].1));
                        }
                    }
                    if !dval_eq(a@[pi].1, a0[pi].1) {
                        assert(has_member(bs1, a0[pi].0@));
                    }
                    if exists|jj: int|
                        0 <= jj < a0.len() && has_member(bs1, a0[jj].0@) && !dval_eq(#[trigger] a@[jj].1, a0[jj].1) {
                        let jj = choose|jj: int|
                            0 <= jj < a0.len() && has_member(bs1, a0[jj].0@) && !dval_eq(#[trigger] a@[jj].1, a0[jj].1);
                        if jj != pi {
                            assert(a@[jj] == a1[jj]);
                            assert(a0[jj].0@ != k);
                            assert(has_member(bs0, a0[jj].0@));
                            assert(!dval_eq(a1[jj].1, a0[jj].1));
                        }
                    }
                }
            },
            None => {
                let v = b[l].1.copy();
                a.push((b[l].0.clone(), v));
                changed = true;
                proof {
                    let n = a1.len() as int;
                    assert(a@[n].0@ == k);
                    assert forall|q: int| 0 <= q < n implies a@[q] == a1[q] by {}
                    assert(!has_member(a0, k));
                    assert forall|i: int, q: int| 0 <= i < q < a@.len() implies a@[i].0@ != a@[q].0@ by {
                        if q == n {
                            assert(a1[i].0@ != k) by {
                                if a1[i].0@ == k {
                                    assert(has_member(a1, k));
                                }
                            }
                        } else {
                            assert(a1[i].0@ != a1[q].0@);
                        }
                    }
                    assert forall|i: int| 0 <= i < a@.len() implies dval_wf(#[trigger] a@[i].1) by {}
                    assert forall|jj: int| 0 <= jj < a0.len() implies (#[trigger] a@[jj]).0 == a0[jj].0 && env_joined(
                        a0,
                        b@,
                        a@,
                        jj,
                        l + 1,
                    ) by {
                        assert(env_joined(a0, b@, a1, jj, l as int));
                        assert(a@[jj] == a1[jj]);
                        assert(a0[jj].0@ != k) by {
                            if a0[jj].0@ == k {
                                assert(has_member(a0, k));
                            }
                        }
                        assert(has_member(bs1, a0[jj].0@) == has_member(bs0, a0[jj].0@));
                    }
                    assert forall|i: int| a0.len() <= i < a@.len() implies !has_member(a0, (#[trigger] a@[i]).0@) && exists|m: int|
                        0 <= m < l + 1 && b@[m].0@ == a@[i].0@ && dval_eq(a@[i].1, b@[m].1) by {
                        if i < n {
                            assert(a@[i] == a1[i]);
                            let m = choose|m: int| 0 <= m < l && b@[m].0@ == a1[i].0@ && dval_eq(a1[i].1, b@[m].1);
                        } else {
                            assert(dval_eq(a@[i].1, b@[l as int].1));
                        }
                    }
                    assert forall|kk: Seq<char>| #[trigger] has_member(a@, kk) <==> has_member(a0, kk) || has_member(bs1, kk) by {
                        if has_member(a@, kk) {
                            let q = choose|q: int| 0 <= q < a@.len() && #[trigger] a@[q].0@ == kk;
                            if q < n {
                                assert(a1[q].0@ == kk);
                            }
                        }
                        if has_member(a1, kk) {
                            let q = choose|q: int| 0 <= q < a1.len() && #[trigger] a1[q].0@ == kk;
                            assert(a@[q].0@ == kk);
                        }
                        if kk == k {
                            assert(a@[n].0@ == kk);
                        }
                    }
                }
            },
        }
        l = l + 1;
    }
    changed
}

} // verus!
