//! The slot-seed vocabulary: which state slots a `useState` initializer
//! seeds from a prop, and whether anything visibly re-syncs them.
use vstd::prelude::*;

use crate::bindings::{bound_names, bound_rhss, lemma_bound_names, local_bindings};
use crate::cfg::{term_exprs, BasicBlock, Terminator, CFG};
use crate::expr::{children_of, member_of, object_member, peeled, Expr};
use crate::analysis_result::EffectInfo;
use crate::hooks::{covering_spec, DepsArg, HookEntry};
use crate::stmt::{stmt_exprs, MemberKey, Stmt};
use crate::free_vars::{collect_used_paths, copy_path, covers, declared_paths, dep_paths_of, path_covered, same_path, derefs, path_reads, path_set, shown_path, AccessPath, PathView};
use crate::text::str_eq;
use crate::types::Var;
use crate::setters::{LabelMap, SlotWriter, WriterPhase, WriterRegion};
use crate::splice::{names, source_name_spec};
use crate::text::{lemma_seq_lt_order, seq_lt, str_lt};
use crate::types::HookLabel;

verus! {

/// Whether anything visibly re-syncs a prop-seeded slot when the prop moves.
/// `Synced` is a claim from a write the relation saw; `NoneSeen` is only the
/// absence of one.
#[derive(Debug, Clone, Copy, PartialEq, Eq, Structural)]
pub enum SeedSync {
    /// A render-time write, or an effect write that re-runs when this seed's
    /// prop moves.
    Synced,
    /// No such write was seen.
    NoneSeen,
}

/// One `(state slot, prop path its initializer reads)` row.
#[derive(Debug, Clone)]
pub struct SlotSeed {
    pub slot: HookLabel,
    /// The path as written at the seed site.
    pub path: AccessPath,
    /// Props-param-rooted forms of `path`, a may-set.
    pub normalized: Vec<AccessPath>,
    pub sync: SeedSync,
    /// An alias of this slot's setter is used somewhere other than a direct
    /// call or a pure alias binding.
    pub setter_escapes: bool,
}

/// Does a writer row's phase say the effect is what runs the write? Its own
/// body, a continuation it kicks off, and the cleanup it returns do;
/// `Handler` needs an external event and `Unknown` is ⊤.
pub fn effect_triggered(p: WriterPhase) -> (r: bool)
    ensures
        r <==> (p == WriterPhase::Effect || p == WriterPhase::Deferred || p == WriterPhase::Cleanup),
{
    match p {
        WriterPhase::Effect => true,
        WriterPhase::Deferred => true,
        WriterPhase::Cleanup => true,
        _ => false,
    }
}

/// One props-param-rooted form of a chased path, and whether the chase that
/// produced it was exact.
#[derive(Debug, Clone)]
pub struct NormPath {
    pub path: AccessPath,
    pub exact: bool,
}

impl NormPath {
    /// The form as plain values.
    pub open spec fn view(&self) -> ((Seq<char>, Seq<Seq<char>>), bool) {
        (self.path@, self.exact)
    }
}

/// One prop read by a `useState` initializer, before it becomes a row.
#[derive(Debug, Clone)]
pub struct SeedPath {
    pub orig: AccessPath,
    pub normalized: Vec<NormPath>,
}

impl SeedPath {
    /// Every props-rooted form, exact or widened: the may-set a row keeps.
    pub fn paths(&self) -> (r: Vec<AccessPath>)
        ensures
            r.len() == self.normalized.len(),
            forall|i: int| 0 <= i < r.len() ==> #[trigger] r@[i]@ == self.normalized@[i].path@,
    {
        let mut r: Vec<AccessPath> = Vec::new();
        let mut i: usize = 0;
        while i < self.normalized.len()
            invariant
                i <= self.normalized.len(),
                r.len() == i,
                forall|k: int| 0 <= k < i ==> #[trigger] r@[k]@ == self.normalized@[k].path@,
            decreases self.normalized.len() - i,
        {
            let p = &self.normalized[i].path;
            let root = p.root.clone();
            let segments = crate::expr::copy_strings(&p.segments);
            r.push(AccessPath { root, segments });
            i = i + 1;
        }
        r
    }
}

/// How a path is displayed: the sort key's first part.
pub open spec fn shown(p: AccessPath) -> Seq<char> {
    shown_path(source_name_spec(p.root@), names(p.segments@))
}

/// `a` sorts strictly before `b`: by displayed path, then exact forms first.
pub open spec fn norm_lt(a: NormPath, b: NormPath) -> bool {
    ||| seq_lt(shown(a.path), shown(b.path))
    ||| (shown(a.path) == shown(b.path) && a.exact && !b.exact)
}

/// `norm_lt` is a strict weak order.
proof fn lemma_norm_lt(a: NormPath, b: NormPath, c: NormPath)
    ensures
        !norm_lt(a, a),
        norm_lt(a, b) && norm_lt(b, c) ==> norm_lt(a, c),
        !norm_lt(a, b) && !norm_lt(b, c) ==> !norm_lt(a, c),
{
    lemma_seq_lt_order(shown(a.path), shown(b.path), shown(c.path));
    lemma_seq_lt_order(shown(b.path), shown(c.path), shown(a.path));
    lemma_seq_lt_order(shown(c.path), shown(a.path), shown(b.path));
    lemma_seq_lt_order(shown(a.path), shown(c.path), shown(b.path));
}

/// `true` iff `a` sorts strictly before `b`.
fn norm_lt_exec(a: &NormPath, b: &NormPath) -> (r: bool)
    ensures
        r == norm_lt(*a, *b),
{
    let da = a.path.display();
    let db = b.path.display();
    if str_lt(da.as_str(), db.as_str()) {
        return true;
    }
    if str_lt(db.as_str(), da.as_str()) {
        proof { lemma_seq_lt_order(da@, db@, da@); }
        return false;
    }
    proof { lemma_seq_lt_order(da@, db@, da@); }
    a.exact && !b.exact
}

/// The views of a list of forms.
pub open spec fn norm_views(v: Seq<NormPath>) -> Seq<((Seq<char>, Seq<Seq<char>>), bool)> {
    v.map_values(|n: NormPath| n@)
}

/// Stable order, no two equal neighbours: the forms of `v` sorted by their
/// displayed path (exact forms first among equal paths), with adjacent
/// repeats removed.
pub fn dedup_norm(v: Vec<NormPath>) -> (r: Vec<NormPath>)
    ensures
        forall|i: int, j: int| 0 <= i < j < r.len() ==> !norm_lt(#[trigger] r@[j], #[trigger] r@[i]),
        forall|i: int| 0 <= i < r.len() - 1 ==> #[trigger] r@[i]@ != r@[i + 1]@,
        forall|x: ((Seq<char>, Seq<Seq<char>>), bool)| #[trigger] norm_views(v@).contains(x) <==> norm_views(r@).contains(x),
{
    // Insertion sort, stable: an element goes after every one that does not
    // sort after it.
    let mut sorted: Vec<NormPath> = Vec::new();
    let mut v = v;
    let ghost v0 = v@;
    while v.len() > 0
        invariant
            forall|i: int, j: int| 0 <= i < j < sorted.len() ==> !norm_lt(#[trigger] sorted@[j], #[trigger] sorted@[i]),
            forall|x: ((Seq<char>, Seq<Seq<char>>), bool)|
                #[trigger] norm_views(v0).contains(x) <==> (norm_views(sorted@).contains(x) || norm_views(v@).contains(x)),
        decreases v.len(),
    {
        let ghost vb = v@;
        let x = v.remove(0);
        assert(vb =~= seq![x].add(v@));
        let mut p: usize = sorted.len();
        while p > 0 && norm_lt_exec(&x, &sorted[p - 1])
            invariant
                p <= sorted.len(),
                forall|q: int| p <= q < sorted.len() ==> norm_lt(x, #[trigger] sorted@[q]),
            decreases p,
        {
            p = p - 1;
        }
        let ghost sb = sorted@;
        proof {
            if p > 0 {
                assert(!norm_lt(x, sb[p - 1]));
            }
        }
        sorted.insert(p, x);
        proof {
            assert(sorted@ =~= sb.subrange(0, p as int).push(x) + sb.subrange(p as int, sb.len() as int));
            assert forall|i: int, j: int| 0 <= i < j < sorted@.len() implies !norm_lt(#[trigger] sorted@[j], #[trigger] sorted@[i]) by {
                if j < p {
                    assert(sorted@[i] == sb[i] && sorted@[j] == sb[j]);
                } else if j == p {
                    assert(sorted@[i] == sb[i]);
                    lemma_norm_lt(x, sb[p - 1], sb[i]);
                    if i < p - 1 {
                        assert(!norm_lt(sb[p - 1], sb[i]));
                    }
                    lemma_norm_lt(sb[i], x, sb[i]);
                    assert(!norm_lt(x, sb[p - 1]));
                    lemma_norm_lt(x, sb[p - 1], sb[i]);
                } else if i == p {
                    assert(sorted@[j] == sb[j - 1]);
                    assert(norm_lt(x, sb[j - 1]));
                    lemma_norm_lt(sb[j - 1], x, sb[j - 1]);
                } else if i < p {
                    assert(sorted@[i] == sb[i] && sorted@[j] == sb[j - 1]);
                } else {
                    assert(sorted@[i] == sb[i - 1] && sorted@[j] == sb[j - 1]);
                }
            }
            assert forall|y: ((Seq<char>, Seq<Seq<char>>), bool)|
                #[trigger] norm_views(v0).contains(y) <==> (norm_views(sorted@).contains(y) || norm_views(v@).contains(y)) by {
                let ns = norm_views(sorted@);
                let nb = norm_views(sb);
                let nv = norm_views(v@);
                let nvb = norm_views(vb);
                assert(nvb =~= seq![x@] + nv);
                assert(ns =~= nb.subrange(0, p as int).push(x@) + nb.subrange(p as int, nb.len() as int));
                if ns.contains(y) {
                    let k = choose|k: int| 0 <= k < ns.len() && ns[k] == y;
                    if k < p {
                        assert(nb[k] == y);
                    } else if k == p {
                        assert(nvb[0] == y);
                    } else {
                        assert(nb[k - 1] == y);
                    }
                }
                if nb.contains(y) {
                    let k = choose|k: int| 0 <= k < nb.len() && nb[k] == y;
                    if k < p {
                        assert(ns[k] == y);
                    } else {
                        assert(ns[k + 1] == y);
                    }
                }
                if nvb.contains(y) {
                    let k = choose|k: int| 0 <= k < nvb.len() && nvb[k] == y;
                    if k == 0 {
                        assert(ns[p as int] == y);
                    } else {
                        assert(nv[k - 1] == y);
                    }
                }
                if nv.contains(y) {
                    let k = choose|k: int| 0 <= k < nv.len() && nv[k] == y;
                    assert(nvb[k + 1] == y);
                }
            }
        }
    }
    // Drop adjacent repeats.
    let mut out: Vec<NormPath> = Vec::new();
    let mut k: usize = 0;
    while k < sorted.len()
        invariant
            k <= sorted.len(),
            forall|i: int, j: int| 0 <= i < j < sorted.len() ==> !norm_lt(#[trigger] sorted@[j], #[trigger] sorted@[i]),
            forall|i: int, j: int| 0 <= i < j < out.len() ==> !norm_lt(#[trigger] out@[j], #[trigger] out@[i]),
            forall|i: int| 0 <= i < out.len() - 1 ==> #[trigger] out@[i]@ != out@[i + 1]@,
            k > 0 ==> out.len() > 0 && out@.last()@ == sorted@[k - 1]@,
            forall|i: int| 0 <= i < out.len() ==> exists|t: int| 0 <= t < k && #[trigger] out@[i]@ == sorted@[t]@,
            forall|y: ((Seq<char>, Seq<Seq<char>>), bool)|
                #[trigger] norm_views(sorted@.subrange(0, k as int)).contains(y) <==> norm_views(out@).contains(y),
        decreases sorted.len() - k,
    {
        let keep = if out.len() == 0 {
            true
        } else {
            let last = &out[out.len() - 1];
            !same_norm(last, &sorted[k])
        };
        let ghost ob = out@;
        if keep {
            let item = copy_norm(&sorted[k]);
            out.push(item);
        }
        proof {
            let a = norm_views(sorted@.subrange(0, k + 1));
            let b = norm_views(sorted@.subrange(0, k as int));
            assert(a =~= b.push(sorted@[k as int]@));
            assert forall|y: ((Seq<char>, Seq<Seq<char>>), bool)|
                #[trigger] a.contains(y) <==> norm_views(out@).contains(y) by {
                let no = norm_views(out@);
                let nob = norm_views(ob);
                if keep {
                    assert(no =~= nob.push(sorted@[k as int]@));
                } else {
                    assert(no =~= nob);
                }
                if a.contains(y) {
                    let t = choose|t: int| 0 <= t < a.len() && a[t] == y;
                    if t < k {
                        assert(b[t] == y);
                        assert(b.contains(y));
                        let q = choose|q: int| 0 <= q < nob.len() && nob[q] == y;
                        assert(no[q] == y);
                    } else if keep {
                        assert(no[nob.len() as int] == y);
                    } else {
                        assert(no[no.len() - 1] == y);
                    }
                }
                if no.contains(y) {
                    let q = choose|q: int| 0 <= q < no.len() && no[q] == y;
                    if q < nob.len() {
                        assert(nob[q] == y);
                        assert(nob.contains(y));
                        assert(b.contains(y));
                        let t = choose|t: int| 0 <= t < b.len() && b[t] == y;
                        assert(a[t] == y);
                    } else {
                        assert(a[k as int] == y);
                    }
                }
            }
            if keep {
                assert forall|i: int, j: int| 0 <= i < j < out.len() implies !norm_lt(#[trigger] out@[j], #[trigger] out@[i]) by {
                    if j == out.len() - 1 {
                        let t = choose|t: int| 0 <= t < k && #[trigger] ob[i]@ == sorted@[t]@;
                        assert(out@[i]@ == sorted@[t]@);
                        assert(out@[j]@ == sorted@[k as int]@);
                        assert(!norm_lt(sorted@[k as int], sorted@[t]));
                        assert(out@[j].path@ == sorted@[k as int].path@);
                    } else {
                        assert(out@[i] == ob[i] && out@[j] == ob[j]);
                    }
                }
                assert forall|i: int| 0 <= i < out.len() implies exists|t: int| 0 <= t < k + 1 && #[trigger] out@[i]@ == sorted@[t]@ by {
                    if i == out.len() - 1 {
                        assert(out@[i]@ == sorted@[k as int]@);
                    } else {
                        assert(out@[i] == ob[i]);
                        let t = choose|t: int| 0 <= t < k && #[trigger] ob[i]@ == sorted@[t]@;
                        assert(out@[i]@ == sorted@[t]@);
                    }
                }
            }
        }
        k = k + 1;
    }
    assert(sorted@.subrange(0, sorted@.len() as int) =~= sorted@);
    out
}

/// `true` iff the two forms are equal.
fn same_norm(a: &NormPath, b: &NormPath) -> (r: bool)
    ensures
        r <==> a@ == b@,
{
    if a.exact != b.exact || !crate::text::str_eq(a.path.root.as_str(), b.path.root.as_str())
        || a.path.segments.len() != b.path.segments.len() {
        proof {
            if a@ == b@ {
                assert(names(a.path.segments@).len() == a.path.segments.len());
            }
        }
        return false;
    }
    let mut i: usize = 0;
    while i < a.path.segments.len()
        invariant
            i <= a.path.segments.len(),
            a.path.segments.len() == b.path.segments.len(),
            forall|t: int| 0 <= t < i ==> a.path.segments@[t]@ == b.path.segments@[t]@,
        decreases a.path.segments.len() - i,
    {
        if !crate::text::str_eq(a.path.segments[i].as_str(), b.path.segments[i].as_str()) {
            proof {
                if a@ == b@ {
                    assert(names(a.path.segments@)[i as int] == names(b.path.segments@)[i as int]);
                }
            }
            return false;
        }
        i = i + 1;
    }
    assert(names(a.path.segments@) =~= names(b.path.segments@));
    true
}

/// A copy of a form, equal to it as plain values.
fn copy_norm(a: &NormPath) -> (r: NormPath)
    ensures
        r@ == a@,
        r.path.root == a.path.root,
        r.path.segments@ == a.path.segments@,
        r.exact == a.exact,
{
    let segments = crate::expr::copy_strings(&a.path.segments);
    NormPath { path: AccessPath { root: a.path.root.clone(), segments }, exact: a.exact }
}

/// The bindings of a body as plain values: each name with every right-hand
/// side it is bound to.
pub type BindView = Seq<(Seq<char>, Seq<Expr>)>;

/// The plain values of a binding table.
pub open spec fn bind_view(bs: Seq<(Var, Vec<&Expr>)>) -> BindView {
    bs.map_values(|e: (Var, Vec<&Expr>)| (e.0@, derefs(e.1@)))
}

/// The binding table of a body: each name it binds (a name bound twice
/// twice) with every right-hand side it is bound to.
pub open spec fn body_table(c: CFG) -> BindView {
    bound_names(c).map_values(|v: Seq<char>| (v, bound_rhss(c, v)))
}

/// The right-hand side of the entry for `v`, when it holds exactly one.
pub open spec fn single_rhs(b: BindView, v: Seq<char>) -> Option<Expr>
    decreases b.len(),
{
    if b.len() == 0 {
        None
    } else if b[0].0 == v {
        if b[0].1.len() == 1 {
            Some(b[0].1[0])
        } else {
            None
        }
    } else {
        single_rhs(b.drop_first(), v)
    }
}

/// How many entries of `b` are for names not in `seen`.
pub open spec fn unseen(b: BindView, seen: Seq<Seq<char>>) -> nat
    decreases b.len(),
{
    if b.len() == 0 {
        0
    } else {
        unseen(b.drop_first(), seen) + if seen.contains(b[0].0) {
            0nat
        } else {
            1nat
        }
    }
}

pub proof fn lemma_push_contains(seen: Seq<Seq<char>>, r: Seq<char>, x: Seq<char>)
    ensures
        seen.push(r).contains(x) <==> seen.contains(x) || x == r,
{
    if seen.contains(x) {
        let k = choose|k: int| 0 <= k < seen.len() && seen[k] == x;
        assert(seen.push(r)[k] == x);
    }
    if x == r {
        assert(seen.push(r)[seen.len() as int] == x);
    }
    if seen.push(r).contains(x) {
        let k = choose|k: int| 0 <= k < seen.push(r).len() && seen.push(r)[k] == x;
        if k < seen.len() {
            assert(seen[k] == x);
        }
    }
}

pub proof fn lemma_unseen_le(b: BindView, seen: Seq<Seq<char>>, r: Seq<char>)
    ensures
        unseen(b, seen.push(r)) <= unseen(b, seen),
    decreases b.len(),
{
    if b.len() > 0 {
        lemma_unseen_le(b.drop_first(), seen, r);
        lemma_push_contains(seen, r, b[0].0);
    }
}

/// Marking a fresh name that has an entry shrinks what is left to see.
pub proof fn lemma_unseen_push(b: BindView, seen: Seq<Seq<char>>, r: Seq<char>)
    requires
        !seen.contains(r),
        single_rhs(b, r) is Some,
    ensures
        unseen(b, seen.push(r)) < unseen(b, seen),
    decreases b.len(),
{
    lemma_push_contains(seen, r, b[0].0);
    if b[0].0 == r {
        lemma_unseen_le(b.drop_first(), seen, r);
    } else {
        lemma_unseen_push(b.drop_first(), seen, r);
    }
}

/// `e` as a plain member chain (`props.a.b`, `value`), annotations stripped
/// at every level.
pub open spec fn member_chain(e: Expr) -> Option<PathView>
    decreases e,
{
    match e {
        Expr::TSAnnotated(inner) => member_chain(*inner),
        Expr::Var(v) => Some((v@, Seq::empty())),
        Expr::FieldAccess { obj, field } => match member_chain(*obj) {
            Some(p) => Some((p.0, p.1.push(field@))),
            None => None,
        },
        _ => None,
    }
}

/// `props.a.b` / `value` as a plain member chain, `None` for anything else.
pub fn as_member_chain(e: &Expr) -> (r: Option<AccessPath>)
    ensures
        r is Some <==> member_chain(*e) is Some,
        r matches Some(p) ==> member_chain(*e) == Some(p@),
    decreases e,
{
    match e {
        Expr::TSAnnotated(inner) => as_member_chain(&**inner),
        Expr::Var(v) => {
            let r = AccessPath { root: v.clone(), segments: Vec::new() };
            assert(names(r.segments@) =~= Seq::<Seq<char>>::empty());
            Some(r)
        },
        Expr::FieldAccess { obj, field } => match as_member_chain(&**obj) {
            Some(p) => {
                let mut segments = p.segments;
                let ghost before = segments@;
                segments.push(field.clone());
                assert(names(segments@) =~= names(before).push(field@));
                Some(AccessPath { root: p.root, segments })
            },
            None => None,
        },
        _ => None,
    }
}

/// The member chain a path's first segment selects out of an object literal
/// right-hand side: `{ a: x }.a` is `x`.
pub open spec fn selected_member(rhs: Expr, segs: Seq<Seq<char>>) -> Option<PathView> {
    match peeled(rhs) {
        Expr::ObjectLit { fields, .. } => if segs.len() > 0 {
            match member_of(fields@, segs[0]) {
                Some(m) => member_chain(m),
                None => None,
            }
        } else {
            None
        },
        _ => None,
    }
}

/// `(q, exact)` is a props-param-rooted form of the path `p`, chasing
/// single-binding local chains with the roots in `seen` already visited:
/// the param itself is exact; an alias or member chain is spliced in front
/// of the remaining segments; an object literal member the path selects is
/// consumed; a name bound more than once, unbound, or revisited yields
/// nothing; any other right-hand side widens to every path it reads, with
/// the outer segments dropped and the result inexact.
pub open spec fn norm_has(b: BindView, param: Seq<char>, seen: Seq<Seq<char>>, p: PathView, q: PathView, ex: bool) -> bool
    decreases unseen(b, seen),
{
    if p.0 == param {
        q == p && ex
    } else if seen.contains(p.0) {
        false
    } else {
        match single_rhs(b, p.0) {
            None => false,
            Some(rhs) => {
                let seen2 = seen.push(p.0);
                proof {
                    lemma_unseen_push(b, seen, p.0);
                }
                match member_chain(rhs) {
                    Some(base) => norm_has(b, param, seen2, (base.0, base.1 + p.1), q, ex),
                    None => match selected_member(rhs, p.1) {
                        Some(base) => norm_has(b, param, seen2, (base.0, base.1 + p.1.drop_first()), q, ex),
                        None => !ex && exists|p2: PathView|
                            #[trigger] path_reads(rhs, p2) && (norm_has(b, param, seen2, p2, q, true) || norm_has(
                                b,
                                param,
                                seen2,
                                p2,
                                q,
                                false,
                            )),
                    },
                }
            },
        }
    }
}

/// Sorted by displayed path (exact forms first among equals), no two equal
/// neighbours.
pub open spec fn norm_sorted(v: Seq<NormPath>) -> bool {
    &&& forall|i: int, j: int| 0 <= i < j < v.len() ==> !norm_lt(#[trigger] v[j], #[trigger] v[i])
    &&& forall|i: int| 0 <= i < v.len() - 1 ==> #[trigger] v[i]@ != v[i + 1]@
}

/// The right-hand side of the entry for `name`, when it holds exactly one.
fn single_binding<'c>(bindings: &Vec<(Var, Vec<&'c Expr>)>, name: &Var) -> (r: Option<&'c Expr>)
    ensures
        r is Some <==> single_rhs(bind_view(bindings@), name@) is Some,
        r matches Some(e) ==> single_rhs(bind_view(bindings@), name@) == Some(*e),
{
    let ghost bv = bind_view(bindings@);
    let mut i: usize = 0;
    assert(bv.subrange(0, bv.len() as int) =~= bv);
    while i < bindings.len()
        invariant
            i <= bindings.len(),
            bv == bind_view(bindings@),
            single_rhs(bv, name@) == single_rhs(bv.subrange(i as int, bv.len() as int), name@),
        decreases bindings.len() - i,
    {
        let ghost rest = bv.subrange(i as int, bv.len() as int);
        assert(rest[0] == bv[i as int]);
        assert(rest.drop_first() =~= bv.subrange(i + 1, bv.len() as int));
        if str_eq(bindings[i].0.as_str(), name.as_str()) {
            if bindings[i].1.len() == 1 {
                let e: &Expr = bindings[i].1[0];
                assert(derefs(bindings@[i as int].1@)[0] == *e);
                return Some(e);
            }
            return None;
        }
        i = i + 1;
    }
    assert(bv.subrange(i as int, bv.len() as int) =~= Seq::<(Seq<char>, Seq<Expr>)>::empty());
    None
}

/// `true` iff `ns` holds the name `n`.
fn holds_var(ns: &Vec<Var>, n: &Var) -> (r: bool)
    ensures
        r == names(ns@).contains(n@),
{
    let mut i: usize = 0;
    while i < ns.len()
        invariant
            i <= ns.len(),
            forall|q: int| 0 <= q < i ==> ns@[q]@ != n@,
        decreases ns.len() - i,
    {
        if str_eq(ns[i].as_str(), n.as_str()) {
            assert(names(ns@)[i as int] == n@);
            return true;
        }
        i = i + 1;
    }
    proof {
        if names(ns@).contains(n@) {
            let q = choose|q: int| 0 <= q < names(ns@).len() && names(ns@)[q] == n@;
            assert(ns@[q]@ == n@);
        }
    }
    false
}

/// `base` with the segments of `path` from position `from` on appended.
fn splice_segments(base: AccessPath, path: &AccessPath, from: usize) -> (r: AccessPath)
    requires
        from <= path.segments.len(),
    ensures
        r@ == (base@.0, base@.1 + path@.1.subrange(from as int, path@.1.len() as int)),
{
    let mut segments = base.segments;
    let ghost s0 = segments@;
    let mut i: usize = from;
    while i < path.segments.len()
        invariant
            from <= i <= path.segments.len(),
            names(segments@) == names(s0) + names(path.segments@).subrange(from as int, i as int),
        decreases path.segments.len() - i,
    {
        let ghost before = segments@;
        segments.push(path.segments[i].clone());
        assert(names(segments@) =~= names(before).push(path.segments@[i as int]@));
        assert(names(path.segments@).subrange(from as int, i + 1) =~= names(path.segments@).subrange(from as int, i as int).push(
            path.segments@[i as int]@,
        ));
        i = i + 1;
    }
    AccessPath { root: base.root, segments }
}

/// Rewrite `path` into props-param-rooted form(s) by chasing single-binding
/// local chains: destructuring preambles (`let value = __p0.value`),
/// aliases, object-literal members, and derived bindings. A name bound more
/// than once is uncertain and not chased; a right-hand side the chase cannot
/// select through widens to every path it reads, and those forms are
/// inexact. `seen` is this branch's visited roots: a sibling branch does
/// not share it.
pub fn normalize_to_prop(path: &AccessPath, param: &Var, bindings: &Vec<(Var, Vec<&Expr>)>, seen: &Vec<Var>) -> (r: Vec<NormPath>)
    ensures
        forall|x: ((Seq<char>, Seq<Seq<char>>), bool)| #[trigger] norm_views(r@).contains(x) <==> norm_has(
            bind_view(bindings@),
            param@,
            names(seen@),
            path@,
            x.0,
            x.1,
        ),
        norm_sorted(r@),
    decreases unseen(bind_view(bindings@), names(seen@)),
{
    let ghost bv = bind_view(bindings@);
    let ghost sv = names(seen@);
    if str_eq(path.root.as_str(), param.as_str()) {
        let mut r: Vec<NormPath> = Vec::new();
        r.push(NormPath { path: copy_path(path), exact: true });
        proof {
            assert forall|x: ((Seq<char>, Seq<Seq<char>>), bool)| #[trigger] norm_views(r@).contains(x) <==> norm_has(bv, param@, sv, path@, x.0, x.1) by {
                if norm_views(r@).contains(x) {
                    assert(norm_views(r@)[0] == x);
                }
                if norm_has(bv, param@, sv, path@, x.0, x.1) {
                    assert(norm_views(r@)[0] == x);
                }
            }
        }
        return r;
    }
    if holds_var(seen, &path.root) {
        let r: Vec<NormPath> = Vec::new();
        assert(norm_views(r@) =~= Seq::<((Seq<char>, Seq<Seq<char>>), bool)>::empty());
        return r;
    }
    let single = match single_binding(bindings, &path.root) {
        Some(e) => e,
        None => {
            let r: Vec<NormPath> = Vec::new();
            assert(norm_views(r@) =~= Seq::<((Seq<char>, Seq<Seq<char>>), bool)>::empty());
            return r;
        },
    };
    let mut seen2 = crate::expr::copy_strings(seen);
    seen2.push(path.root.clone());
    let ghost sv2 = names(seen2@);
    assert(sv2 =~= sv.push(path.root@));
    proof {
        lemma_unseen_push(bv, sv, path.root@);
    }
    match as_member_chain(single) {
        Some(base) => {
            let combined = splice_segments(base, path, 0);
            assert(path@.1.subrange(0, path@.1.len() as int) =~= path@.1);
            return normalize_to_prop(&combined, param, bindings, &seen2);
        },
        None => {},
    }
    if path.segments.len() > 0 {
        match single.peel_ts() {
            Expr::ObjectLit { fields, .. } => {
                match object_member(fields, path.segments[0].as_str()) {
                    Some(member) => {
                        match as_member_chain(member) {
                            Some(base) => {
                                let combined = splice_segments(base, path, 1);
                                assert(path@.1.subrange(1, path@.1.len() as int) =~= path@.1.drop_first());
                                return normalize_to_prop(&combined, param, bindings, &seen2);
                            },
                            None => {},
                        }
                    },
                    None => {},
                }
            },
            _ => {},
        }
    }
    assert(selected_member(*single, path@.1) is None);
    let mut set: Vec<AccessPath> = Vec::new();
    collect_used_paths(single, &mut set);
    assert(path_set(Seq::<AccessPath>::empty()) =~= Set::<PathView>::empty());
    let mut out: Vec<NormPath> = Vec::new();
    let mut i: usize = 0;
    while i < set.len()
        invariant
            i <= set.len(),
            bv == bind_view(bindings@),
            sv2 == names(seen2@),
            sv == names(seen@),
            unseen(bv, sv2) < unseen(bv, sv),
            forall|x: ((Seq<char>, Seq<Seq<char>>), bool)| #[trigger] norm_views(out@).contains(x) <==> !x.1 && exists|k: int|
                0 <= k < i && (norm_has(bv, param@, sv2, #[trigger] set@[k]@, x.0, true) || norm_has(bv, param@, sv2, set@[k]@, x.0, false)),
        decreases set.len() - i,
    {
        let sub = normalize_to_prop(&set[i], param, bindings, &seen2);
        let ghost o0 = out@;
        let mut j: usize = 0;
        while j < sub.len()
            invariant
                j <= sub.len(),
                forall|x: ((Seq<char>, Seq<Seq<char>>), bool)| #[trigger] norm_views(out@).contains(x) <==> norm_views(o0).contains(x)
                    || (!x.1 && exists|t: int| 0 <= t < j && #[trigger] sub@[t].path@ == x.0),
            decreases sub.len() - j,
        {
            let ghost ob = out@;
            out.push(NormPath { path: copy_path(&sub[j].path), exact: false });
            proof {
                assert forall|x: ((Seq<char>, Seq<Seq<char>>), bool)| #[trigger] norm_views(out@).contains(x) <==> norm_views(o0).contains(x)
                    || (!x.1 && exists|t: int| 0 <= t < j + 1 && #[trigger] sub@[t].path@ == x.0) by {
                    let no = norm_views(out@);
                    let nb = norm_views(ob);
                    assert(no =~= nb.push((sub@[j as int].path@, false)));
                    if no.contains(x) {
                        let q = choose|q: int| 0 <= q < no.len() && no[q] == x;
                        if q < nb.len() {
                            assert(nb[q] == x);
                        }
                    }
                    if nb.contains(x) {
                        let q = choose|q: int| 0 <= q < nb.len() && nb[q] == x;
                        assert(no[q] == x);
                    }
                    if !x.1 && exists|t: int| 0 <= t < j + 1 && #[trigger] sub@[t].path@ == x.0 {
                        let t = choose|t: int| 0 <= t < j + 1 && #[trigger] sub@[t].path@ == x.0;
                        if t == j {
                            assert(no[nb.len() as int] == x);
                        } else {
                            assert(!x.1 && exists|t2: int| 0 <= t2 < j && #[trigger] sub@[t2].path@ == x.0);
                        }
                    }
                }
            }
            j = j + 1;
        }
        proof {
            assert forall|x: ((Seq<char>, Seq<Seq<char>>), bool)| #[trigger] norm_views(out@).contains(x) <==> !x.1 && exists|k: int|
                0 <= k < i + 1 && (norm_has(bv, param@, sv2, #[trigger] set@[k]@, x.0, true) || norm_has(bv, param@, sv2, set@[k]@, x.0, false)) by {
                let here = exists|t: int| 0 <= t < sub.len() && #[trigger] sub@[t].path@ == x.0;
                assert(here <==> (norm_has(bv, param@, sv2, set@[i as int]@, x.0, true) || norm_has(bv, param@, sv2, set@[i as int]@, x.0, false))) by {
                    if here {
                        let t = choose|t: int| 0 <= t < sub.len() && #[trigger] sub@[t].path@ == x.0;
                        assert(norm_views(sub@)[t] == sub@[t]@);
                        assert(norm_views(sub@).contains(sub@[t]@));
                    }
                    if norm_has(bv, param@, sv2, set@[i as int]@, x.0, true) {
                        assert(norm_views(sub@).contains((x.0, true)));
                        let t = choose|t: int| 0 <= t < norm_views(sub@).len() && norm_views(sub@)[t] == (x.0, true);
                        assert(sub@[t].path@ == x.0);
                    }
                    if norm_has(bv, param@, sv2, set@[i as int]@, x.0, false) {
                        assert(norm_views(sub@).contains((x.0, false)));
                        let t = choose|t: int| 0 <= t < norm_views(sub@).len() && norm_views(sub@)[t] == (x.0, false);
                        assert(sub@[t].path@ == x.0);
                    }
                }
                if !x.1 && exists|k: int| 0 <= k < i + 1 && (norm_has(bv, param@, sv2, #[trigger] set@[k]@, x.0, true) || norm_has(bv, param@, sv2, set@[k]@, x.0, false)) {
                    let k = choose|k: int| 0 <= k < i + 1 && (norm_has(bv, param@, sv2, #[trigger] set@[k]@, x.0, true) || norm_has(bv, param@, sv2, set@[k]@, x.0, false));
                    if k < i {
                        assert(norm_views(o0).contains(x));
                    }
                }
            }
        }
        i = i + 1;
    }
    let r = dedup_norm(out);
    proof {
        assert forall|x: ((Seq<char>, Seq<Seq<char>>), bool)| #[trigger] norm_views(r@).contains(x) <==> norm_has(bv, param@, sv, path@, x.0, x.1) by {
            assert(norm_views(out@).contains(x) == norm_views(r@).contains(x));
            if !x.1 && exists|p2: PathView| #[trigger] path_reads(*single, p2) && (norm_has(bv, param@, sv2, p2, x.0, true) || norm_has(bv, param@, sv2, p2, x.0, false)) {
                let p2 = choose|p2: PathView| #[trigger] path_reads(*single, p2) && (norm_has(bv, param@, sv2, p2, x.0, true) || norm_has(bv, param@, sv2, p2, x.0, false));
                assert(path_set(set@).contains(p2));
                let k = choose|k: int| 0 <= k < set@.len() && #[trigger] set@[k]@ == p2;
                assert(norm_has(bv, param@, sv2, set@[k]@, x.0, true) || norm_has(bv, param@, sv2, set@[k]@, x.0, false));
            }
            if norm_views(out@).contains(x) {
                let k = choose|k: int| 0 <= k < set.len() && (norm_has(bv, param@, sv2, #[trigger] set@[k]@, x.0, true) || norm_has(bv, param@, sv2, set@[k]@, x.0, false));
                assert(path_set(set@).contains(set@[k]@));
                assert(path_reads(*single, set@[k]@));
            }
        }
    }
    r
}

/// `p` is a seed read of `init`: a path the initializer reads that has at
/// least one props-rooted form.
pub open spec fn is_seed_read(init: Expr, b: BindView, param: Seq<char>, p: PathView) -> bool {
    path_reads(init, p) && exists|q: PathView, e: bool| norm_has(b, param, Seq::empty(), p, q, e)
}

/// `s` is the row of a seed read: its forms are exactly the props-rooted
/// forms of its path, sorted.
pub open spec fn seed_row(init: Expr, b: BindView, param: Seq<char>, s: SeedPath) -> bool {
    &&& path_reads(init, s.orig@)
    &&& s.normalized.len() > 0
    &&& forall|x: ((Seq<char>, Seq<Seq<char>>), bool)| #[trigger] norm_views(s.normalized@).contains(x) <==> norm_has(
        b,
        param,
        Seq::empty(),
        s.orig@,
        x.0,
        x.1,
    )
    &&& norm_sorted(s.normalized@)
}

/// Prop paths read by a `useState` initializer, one row each, ordered by
/// displayed path; empty when the initializer reads no prop.
pub fn seed_paths(init: &Expr, param: &Var, bindings: &Vec<(Var, Vec<&Expr>)>) -> (r: Vec<SeedPath>)
    ensures
        forall|i: int| 0 <= i < r.len() ==> seed_row(*init, bind_view(bindings@), param@, #[trigger] r@[i]),
        forall|p: PathView| #[trigger] is_seed_read(*init, bind_view(bindings@), param@, p) ==> exists|i: int| 0 <= i < r.len() && r@[i].orig@ == p,
        forall|i: int, j: int| 0 <= i < j < r.len() ==> r@[i].orig@ != r@[j].orig@,
        forall|i: int, j: int| 0 <= i < j < r.len() ==> !seq_lt(#[trigger] shown(r@[j].orig), #[trigger] shown(r@[i].orig)),
{
    let ghost bv = bind_view(bindings@);
    let mut used: Vec<AccessPath> = Vec::new();
    collect_used_paths(init, &mut used);
    assert(path_set(Seq::<AccessPath>::empty()) =~= Set::<PathView>::empty());
    let none_seen: Vec<Var> = Vec::new();
    assert(names(none_seen@) =~= Seq::<Seq<char>>::empty());
    let mut seeds: Vec<SeedPath> = Vec::new();
    let mut i: usize = 0;
    while i < used.len()
        invariant
            i <= used.len(),
            bv == bind_view(bindings@),
            names(none_seen@) == Seq::<Seq<char>>::empty(),
            forall|p: PathView| #[trigger] path_set(used@).contains(p) <==> path_reads(*init, p),
            forall|k: int| 0 <= k < seeds.len() ==> seed_row(*init, bv, param@, #[trigger] seeds@[k]),
            forall|k: int| 0 <= k < seeds.len() ==> exists|t: int| 0 <= t < i && #[trigger] used@[t]@ == (#[trigger] seeds@[k]).orig@,
            forall|t: int| 0 <= t < i ==> #[trigger] is_seed_read(*init, bv, param@, used@[t]@) ==> exists|k: int|
                0 <= k < seeds.len() && seeds@[k].orig@ == used@[t]@,
            forall|a: int, c: int| 0 <= a < c < seeds.len() ==> seeds@[a].orig@ != seeds@[c].orig@,
            forall|a: int, c: int| 0 <= a < c < seeds.len() ==> !seq_lt(#[trigger] shown(seeds@[c].orig), #[trigger] shown(seeds@[a].orig)),
        decreases used.len() - i,
    {
        let mut dup = false;
        let mut k: usize = 0;
        while k < seeds.len()
            invariant
                k <= seeds.len(),
                i < used.len(),
                !dup ==> forall|q: int| 0 <= q < k ==> seeds@[q].orig@ != used@[i as int]@,
                dup ==> exists|q: int| 0 <= q < seeds.len() && seeds@[q].orig@ == used@[i as int]@,
            decreases seeds.len() - k,
        {
            if same_path(&seeds[k].orig, &used[i]) {
                dup = true;
            }
            k = k + 1;
        }
        let ghost before = seeds@;
        if !dup {
            assert(path_reads(*init, used@[i as int]@)) by {
                assert(path_set(used@).contains(used@[i as int]@));
            }
            let normalized = normalize_to_prop(&used[i], param, bindings, &none_seen);
            if normalized.len() > 0 {
                let orig = copy_path(&used[i]);
                let shown_new = orig.display();
                let mut p: usize = 0;
                while p < seeds.len() && !str_lt(shown_new.as_str(), seeds[p].orig.display().as_str())
                    invariant
                        p <= seeds.len(),
                        seeds@ == before,
                        shown_new@ == shown(orig),
                        forall|q: int| 0 <= q < p ==> !seq_lt(shown(orig), #[trigger] shown(before[q].orig)),
                    decreases seeds.len() - p,
                {
                    p = p + 1;
                }
                let row = SeedPath { orig, normalized };
                proof {
                    assert(seed_row(*init, bv, param@, row));
                }
                seeds.insert(p, row);
                proof {
                    assert(seeds@ =~= before.subrange(0, p as int).push(row) + before.subrange(p as int, before.len() as int));
                    assert forall|k2: int| 0 <= k2 < seeds.len() implies seed_row(*init, bv, param@, #[trigger] seeds@[k2]) by {
                        if k2 < p {
                            assert(seeds@[k2] == before[k2]);
                        } else if k2 > p {
                            assert(seeds@[k2] == before[k2 - 1]);
                        }
                    }
                    assert forall|k2: int| 0 <= k2 < seeds.len() implies exists|t: int| 0 <= t < i + 1 && #[trigger] used@[t]@ == (#[trigger] seeds@[k2]).orig@ by {
                        if k2 < p {
                            assert(seeds@[k2] == before[k2]);
                        } else if k2 > p {
                            assert(seeds@[k2] == before[k2 - 1]);
                        } else {
                            assert(used@[i as int]@ == seeds@[k2].orig@);
                        }
                    }
                    assert forall|t: int| 0 <= t < i + 1 && #[trigger] is_seed_read(*init, bv, param@, used@[t]@) implies exists|k2: int|
                        0 <= k2 < seeds.len() && seeds@[k2].orig@ == used@[t]@ by {
                        if t < i {
                            let k2 = choose|k2: int| 0 <= k2 < before.len() && before[k2].orig@ == used@[t]@;
                            if k2 < p {
                                assert(seeds@[k2] == before[k2]);
                            } else {
                                assert(seeds@[k2 + 1] == before[k2]);
                            }
                        } else {
                            assert(seeds@[p as int].orig@ == used@[t]@);
                        }
                    }
                    assert forall|a: int, c: int| 0 <= a < c < seeds.len() implies seeds@[a].orig@ != seeds@[c].orig@ by {
                        let oa = if a < p { a } else { a - 1 };
                        let oc = if c < p { c } else { c - 1 };
                        if a != p && c != p {
                            assert(seeds@[a] == before[oa] && seeds@[c] == before[oc]);
                        } else if a == p {
                            assert(seeds@[c] == before[oc]);
                        } else {
                            assert(seeds@[a] == before[oa]);
                        }
                    }
                    assert forall|a: int, c: int| 0 <= a < c < seeds.len() implies !seq_lt(#[trigger] shown(seeds@[c].orig), #[trigger] shown(seeds@[a].orig)) by {
                        if c < p {
                            assert(seeds@[a] == before[a] && seeds@[c] == before[c]);
                        } else if c == p {
                            assert(seeds@[a] == before[a]);
                        } else if a == p {
                            assert(seeds@[c] == before[c - 1]);
                            if p < before.len() {
                                assert(seq_lt(shown(row.orig), shown(before[p as int].orig)));
                                lemma_seq_lt_order(shown(row.orig), shown(before[p as int].orig), shown(before[c - 1].orig));
                                lemma_seq_lt_order(shown(before[c - 1].orig), shown(before[p as int].orig), shown(row.orig));
                                lemma_seq_lt_order(shown(before[c - 1].orig), shown(row.orig), shown(before[p as int].orig));
                            }
                        } else if a < p {
                            assert(seeds@[a] == before[a] && seeds@[c] == before[c - 1]);
                        } else {
                            assert(seeds@[a] == before[a - 1] && seeds@[c] == before[c - 1]);
                        }
                    }
                }
            } else {
                proof {
                    assert(!is_seed_read(*init, bv, param@, used@[i as int]@)) by {
                        if is_seed_read(*init, bv, param@, used@[i as int]@) {
                            let (q, e) = choose|q: PathView, e: bool| norm_has(bv, param@, Seq::empty(), used@[i as int]@, q, e);
                            assert(norm_views(normalized@).contains((q, e)));
                        }
                    }
                }
            }
        }
        proof {
            assert forall|t: int| 0 <= t < i + 1 && #[trigger] is_seed_read(*init, bv, param@, used@[t]@) implies exists|k2: int|
                0 <= k2 < seeds.len() && seeds@[k2].orig@ == used@[t]@ by {
                if t == i && dup {
                    let q = choose|q: int| 0 <= q < seeds.len() && seeds@[q].orig@ == used@[i as int]@;
                }
            }
        }
        i = i + 1;
    }
    proof {
        assert forall|p: PathView| #[trigger] is_seed_read(*init, bv, param@, p) implies exists|k: int| 0 <= k < seeds.len() && seeds@[k].orig@ == p by {
            assert(path_set(used@).contains(p));
            let t = choose|t: int| 0 <= t < used@.len() && #[trigger] used@[t]@ == p;
            assert(is_seed_read(*init, bv, param@, used@[t]@));
        }
    }
    seeds
}

/// `q` is an exact props-rooted form of one of the declared paths `ds`.
pub open spec fn exact_form_of(b: BindView, param: Seq<char>, ds: Seq<PathView>, q: PathView) -> bool {
    exists|k: int| 0 <= k < ds.len() && norm_has(b, param, Seq::empty(), #[trigger] ds[k], q, true)
}

/// The exact form at position `i` of `normalized` is covered by `q`, an
/// exact form of a declared path.
pub open spec fn form_covered(b: BindView, param: Seq<char>, ds: Seq<PathView>, normalized: Seq<NormPath>, i: int, q: PathView) -> bool {
    0 <= i < normalized.len() && normalized[i].exact && exact_form_of(b, param, ds, q) && covers(q, normalized[i].path@)
}

/// Some declared dep covers the seed: its path as written, or one of its
/// exact props-rooted forms against an exact form of a dep. A widened form
/// stands for possibilities and is credited on neither side.
pub open spec fn deps_cover(b: BindView, param: Seq<char>, deps: Seq<Expr>, orig: PathView, normalized: Seq<NormPath>) -> bool {
    ||| exists|k: int| 0 <= k < declared_paths(deps).len() && covers(#[trigger] declared_paths(deps)[k], orig)
    ||| exists|i: int, q: PathView| #[trigger] form_covered(b, param, declared_paths(deps), normalized, i, q)
}

/// `true` when some declared dep covers `seed`, matched on the path as
/// written and on the exact props-rooted forms of both sides, so `[value]`,
/// `[props.value]` and `[props]` all cover a seed read as `value`.
pub fn deps_cover_seed(deps: &Vec<&Expr>, seed: &SeedPath, param: &Var, bindings: &Vec<(Var, Vec<&Expr>)>) -> (r: bool)
    ensures
        r == deps_cover(bind_view(bindings@), param@, derefs(deps@), seed.orig@, seed.normalized@),
{
    let ghost bv = bind_view(bindings@);
    let declared = dep_paths_of(deps);
    let ghost ds = declared_paths(derefs(deps@));
    assert(declared@.map_values(|p: AccessPath| p@) == ds);
    let none_seen: Vec<Var> = Vec::new();
    assert(names(none_seen@) =~= Seq::<Seq<char>>::empty());
    let mut declared_norm: Vec<AccessPath> = Vec::new();
    assert(path_set(declared_norm@) =~= Set::<PathView>::empty());
    let mut i: usize = 0;
    while i < declared.len()
        invariant
            i <= declared.len(),
            bv == bind_view(bindings@),
            declared@.map_values(|p: AccessPath| p@) == ds,
            names(none_seen@) == Seq::<Seq<char>>::empty(),
            forall|q: PathView| #[trigger] path_set(declared_norm@).contains(q) <==> exists|k: int|
                0 <= k < i && norm_has(bv, param@, Seq::empty(), #[trigger] ds[k], q, true),
        decreases declared.len() - i,
    {
        assert(ds[i as int] == declared@[i as int]@);
        let forms = normalize_to_prop(&declared[i], param, bindings, &none_seen);
        let ghost d0 = declared_norm@;
        let mut j: usize = 0;
        while j < forms.len()
            invariant
                j <= forms.len(),
                forall|q: PathView| #[trigger] path_set(declared_norm@).contains(q) <==> path_set(d0).contains(q) || exists|t: int|
                    0 <= t < j && (#[trigger] forms@[t]).exact && forms@[t].path@ == q,
            decreases forms.len() - j,
        {
            if forms[j].exact {
                let ghost db = declared_norm@;
                let c = copy_path(&forms[j].path);
                declared_norm.push(c);
                proof {
                    assert forall|q: PathView| #[trigger] path_set(declared_norm@).contains(q) <==> path_set(d0).contains(q) || exists|t: int|
                        0 <= t < j + 1 && (#[trigger] forms@[t]).exact && forms@[t].path@ == q by {
                        if path_set(declared_norm@).contains(q) {
                            let a = choose|a: int| 0 <= a < declared_norm@.len() && #[trigger] declared_norm@[a]@ == q;
                            if a < db.len() {
                                assert(db[a]@ == q);
                                assert(path_set(db).contains(q));
                            }
                        }
                        if path_set(db).contains(q) {
                            let a = choose|a: int| 0 <= a < db.len() && #[trigger] db[a]@ == q;
                            assert(declared_norm@[a]@ == q);
                        }
                        if exists|t: int| 0 <= t < j + 1 && (#[trigger] forms@[t]).exact && forms@[t].path@ == q {
                            let t = choose|t: int| 0 <= t < j + 1 && (#[trigger] forms@[t]).exact && forms@[t].path@ == q;
                            if t == j {
                                assert(declared_norm@[db.len() as int]@ == q);
                            } else {
                                assert(path_set(db).contains(q));
                            }
                        }
                    }
                }
            } else {
                proof {
                    assert forall|q: PathView| #[trigger] path_set(declared_norm@).contains(q) <==> path_set(d0).contains(q) || exists|t: int|
                        0 <= t < j + 1 && (#[trigger] forms@[t]).exact && forms@[t].path@ == q by {
                        if exists|t: int| 0 <= t < j + 1 && (#[trigger] forms@[t]).exact && forms@[t].path@ == q {
                            let t = choose|t: int| 0 <= t < j + 1 && (#[trigger] forms@[t]).exact && forms@[t].path@ == q;
                            assert(t != j);
                        }
                    }
                }
            }
            j = j + 1;
        }
        proof {
            assert forall|q: PathView| #[trigger] path_set(declared_norm@).contains(q) <==> exists|k: int|
                0 <= k < i + 1 && norm_has(bv, param@, Seq::empty(), #[trigger] ds[k], q, true) by {
                let here = exists|t: int| 0 <= t < forms.len() && (#[trigger] forms@[t]).exact && forms@[t].path@ == q;
                assert(here <==> norm_has(bv, param@, Seq::empty(), ds[i as int], q, true)) by {
                    if here {
                        let t = choose|t: int| 0 <= t < forms.len() && (#[trigger] forms@[t]).exact && forms@[t].path@ == q;
                        assert(norm_views(forms@)[t] == (q, true));
                        assert(norm_views(forms@).contains((q, true)));
                    }
                    if norm_has(bv, param@, Seq::empty(), ds[i as int], q, true) {
                        assert(norm_views(forms@).contains((q, true)));
                        let t = choose|t: int| 0 <= t < norm_views(forms@).len() && norm_views(forms@)[t] == (q, true);
                        assert(forms@[t].exact && forms@[t].path@ == q);
                    }
                }
                if exists|k: int| 0 <= k < i + 1 && norm_has(bv, param@, Seq::empty(), #[trigger] ds[k], q, true) {
                    let k = choose|k: int| 0 <= k < i + 1 && norm_has(bv, param@, Seq::empty(), #[trigger] ds[k], q, true);
                    if k < i {
                        assert(path_set(d0).contains(q));
                    }
                }
            }
        }
        i = i + 1;
    }
    proof {
        assert forall|k: int| 0 <= k < declared@.len() implies #[trigger] declared@[k]@ == ds[k] by {}
    }
    if path_covered(&seed.orig, declared.as_slice()) {
        proof {
            let k = choose|k: int| 0 <= k < declared@.len() && covers(#[trigger] declared@[k]@, seed.orig@);
            assert(covers(ds[k], seed.orig@));
        }
        return true;
    }
    proof {
        assert forall|k: int| 0 <= k < ds.len() implies !covers(#[trigger] ds[k], seed.orig@) by {
            assert(ds[k] == declared@[k]@);
        }
    }
    let mut n: usize = 0;
    while n < seed.normalized.len()
        invariant
            n <= seed.normalized.len(),
            bv == bind_view(bindings@),
            ds == declared_paths(derefs(deps@)),
            forall|q: PathView| #[trigger] path_set(declared_norm@).contains(q) <==> exact_form_of(bv, param@, ds, q),
            forall|t: int, q: PathView| 0 <= t < n ==> !#[trigger] form_covered(bv, param@, ds, seed.normalized@, t, q),
        decreases seed.normalized.len() - n,
    {
        if seed.normalized[n].exact && path_covered(&seed.normalized[n].path, declared_norm.as_slice()) {
            proof {
                let k = choose|k: int| 0 <= k < declared_norm@.len() && covers(#[trigger] declared_norm@[k]@, seed.normalized@[n as int].path@);
                let q = declared_norm@[k]@;
                assert(path_set(declared_norm@).contains(q));
                assert(exact_form_of(bv, param@, ds, q));
                assert(seed.normalized@[n as int].exact);
                assert(covers(q, seed.normalized@[n as int].path@));
                assert(form_covered(bv, param@, ds, seed.normalized@, n as int, q));
            }
            return true;
        }
        proof {
            assert forall|t: int, q: PathView| 0 <= t < n + 1 implies !#[trigger] form_covered(bv, param@, ds, seed.normalized@, t, q) by {
                if t == n && form_covered(bv, param@, ds, seed.normalized@, t, q) {
                    assert(path_set(declared_norm@).contains(q));
                    let k = choose|k: int| 0 <= k < declared_norm@.len() && #[trigger] declared_norm@[k]@ == q;
                    assert(covers(declared_norm@[k]@, seed.normalized@[n as int].path@));
                }
            }
        }
        n = n + 1;
    }
    false
}

/// `al` without the names in `params`: the aliases a function body with
/// those parameters still sees.
pub open spec fn unshadowed(al: Seq<Seq<char>>, params: Seq<Seq<char>>) -> Seq<Seq<char>>
    decreases al.len(),
{
    if al.len() == 0 {
        Seq::empty()
    } else {
        let prev = unshadowed(al.drop_last(), params);
        if params.contains(al.last()) {
            prev
        } else {
            prev.push(al.last())
        }
    }
}

pub proof fn lemma_unshadowed(al: Seq<Seq<char>>, params: Seq<Seq<char>>)
    ensures
        forall|x: Seq<char>| #[trigger] unshadowed(al, params).contains(x) <==> al.contains(x) && !params.contains(x),
    decreases al.len(),
{
    if al.len() > 0 {
        lemma_unshadowed(al.drop_last(), params);
        assert forall|x: Seq<char>| #[trigger] unshadowed(al, params).contains(x) <==> al.contains(x) && !params.contains(x) by {
            lemma_push_contains(unshadowed(al.drop_last(), params), al.last(), x);
            lemma_push_contains(al.drop_last(), al.last(), x);
            assert(al.drop_last().push(al.last()) =~= al);
        }
    } else {
        assert forall|x: Seq<char>| #[trigger] unshadowed(al, params).contains(x) <==> al.contains(x) && !params.contains(x) by {
            assert(unshadowed(al, params) =~= Seq::<Seq<char>>::empty());
        }
    }
}

/// The callee of a call is one of the aliases itself.
pub open spec fn callee_alias(f: Expr, al: Seq<Seq<char>>) -> bool {
    match peeled(f) {
        Expr::Var(v) => al.contains(v@),
        _ => false,
    }
}

/// An alias in `al` is used in `e` other than as the callee of a direct
/// call: passed as an argument, stored in a literal, read into an
/// expression. A function literal's parameters shadow the aliases of the
/// same name in its body.
pub open spec fn escapes_expr(e: Expr, al: Seq<Seq<char>>) -> bool
    decreases e,
{
    match e {
        Expr::Var(v) => al.contains(v@),
        Expr::Call { fn_, args } => (!callee_alias(*fn_, al) && escapes_expr(*fn_, al)) || exists|i: int|
            0 <= i < args.len() && escapes_expr(#[trigger] args@[i], al),
        Expr::FnLit { params, body_cfg, .. } => unshadowed(al, names(params@)).len() > 0 && escapes_cfg(
            *body_cfg,
            unshadowed(al, names(params@)),
        ),
        Expr::ObjectLit { fields, .. } => exists|i: int| 0 <= i < fields.len() && escapes_expr(#[trigger] fields@[i].1, al),
        Expr::ArrayLit { elems, .. } => exists|i: int| 0 <= i < elems.len() && escapes_expr(#[trigger] elems@[i], al),
        Expr::FieldAccess { obj, .. } => escapes_expr(*obj, al),
        Expr::IndexAccess { arr, idx } => escapes_expr(*arr, al) || escapes_expr(*idx, al),
        Expr::BinOp { lhs, rhs, .. } => escapes_expr(*lhs, al) || escapes_expr(*rhs, al),
        Expr::UnaryOp { arg, .. } => escapes_expr(*arg, al),
        Expr::CompApp { props, .. } => escapes_expr(*props, al),
        Expr::NativeElem { props, children, .. } => escapes_expr(*props, al) || exists|i: int|
            0 <= i < children.len() && escapes_expr(#[trigger] children@[i], al),
        Expr::TSAnnotated(inner) => escapes_expr(*inner, al),
        _ => false,
    }
}

/// Calling an alias directly is the only use that is no escape: a callee
/// is "the alias itself" exactly when, annotations aside, it is a variable
/// named by one of the aliases; a member call `x.f(...)` or any other
/// callee is not.
pub proof fn lemma_callee_alias(f: Expr, al: Seq<Seq<char>>)
    ensures
        peeled(f) matches Expr::Var(v) ==> (callee_alias(f, al) <==> al.contains(v@)),
        !(peeled(f) is Var) ==> !callee_alias(f, al),
{
}

/// Position `k` of `children_of(e)` is the callee of a call and that callee
/// is one of the aliases itself: calling the setter there is no escape.
pub open spec fn alias_callee_slot(e: Expr, k: int, al: Seq<Seq<char>>) -> bool {
    match e {
        Expr::Call { fn_, .. } => k == 0 && callee_alias(*fn_, al),
        _ => false,
    }
}

/// An alias escapes through any use other than calling it: `e` lets an
/// alias escape exactly when it is an alias read, when one of the
/// expressions directly inside it (an argument, a member or element, a
/// component element's props, a native element's props or children, an
/// operand, a callee other than the bare alias) lets one escape, or when
/// it is a function literal whose body lets one escape that its own
/// parameters do not shadow.
pub proof fn lemma_escapes_structure(e: Expr, al: Seq<Seq<char>>)
    ensures
        escapes_expr(e, al) <==> {
            ||| (e matches Expr::Var(v) && al.contains(v@))
            ||| (e matches Expr::FnLit { params, body_cfg, .. } && unshadowed(al, names(params@)).len() > 0
                && escapes_cfg(*body_cfg, unshadowed(al, names(params@))))
            ||| exists|k: int|
                0 <= k < children_of(e).len() && !alias_callee_slot(e, k, al) && escapes_expr(#[trigger] children_of(e)[k], al)
        },
{
    let c = children_of(e);
    match e {
        Expr::Call { fn_, args } => {
            assert(c[0] == *fn_);
            if exists|k: int| 0 <= k < c.len() && !alias_callee_slot(e, k, al) && escapes_expr(#[trigger] c[k], al) {
                let k = choose|k: int| 0 <= k < c.len() && !alias_callee_slot(e, k, al) && escapes_expr(#[trigger] c[k], al);
                if k > 0 {
                    assert(c[k] == args@[k - 1]);
                }
            }
            if exists|i: int| 0 <= i < args.len() && escapes_expr(#[trigger] args@[i], al) {
                let i = choose|i: int| 0 <= i < args.len() && escapes_expr(#[trigger] args@[i], al);
                assert(c[i + 1] == args@[i]);
                assert(!alias_callee_slot(e, i + 1, al));
            }
            if !callee_alias(*fn_, al) && escapes_expr(*fn_, al) {
                assert(!alias_callee_slot(e, 0, al));
            }
        },
        Expr::NativeElem { props, children, .. } => {
            assert(c[0] == *props);
            if exists|k: int| 0 <= k < c.len() && !alias_callee_slot(e, k, al) && escapes_expr(#[trigger] c[k], al) {
                let k = choose|k: int| 0 <= k < c.len() && !alias_callee_slot(e, k, al) && escapes_expr(#[trigger] c[k], al);
                if k > 0 {
                    assert(c[k] == children@[k - 1]);
                }
            }
            if exists|i: int| 0 <= i < children.len() && escapes_expr(#[trigger] children@[i], al) {
                let i = choose|i: int| 0 <= i < children.len() && escapes_expr(#[trigger] children@[i], al);
                assert(c[i + 1] == children@[i]);
            }
        },
        Expr::CompApp { props, .. } => {
            assert(c[0] == *props);
        },
        Expr::ObjectLit { fields, .. } => {
            if exists|k: int| 0 <= k < c.len() && !alias_callee_slot(e, k, al) && escapes_expr(#[trigger] c[k], al) {
                let k = choose|k: int| 0 <= k < c.len() && !alias_callee_slot(e, k, al) && escapes_expr(#[trigger] c[k], al);
                assert(c[k] == fields@[k].1);
            }
            if exists|i: int| 0 <= i < fields.len() && escapes_expr(#[trigger] fields@[i].1, al) {
                let i = choose|i: int| 0 <= i < fields.len() && escapes_expr(#[trigger] fields@[i].1, al);
                assert(c[i] == fields@[i].1);
            }
        },
        Expr::ArrayLit { elems, .. } => {
            if exists|i: int| 0 <= i < elems.len() && escapes_expr(#[trigger] elems@[i], al) {
                let i = choose|i: int| 0 <= i < elems.len() && escapes_expr(#[trigger] elems@[i], al);
                assert(c[i] == elems@[i]);
            }
        },
        Expr::FieldAccess { obj, .. } => {
            assert(c[0] == *obj);
        },
        Expr::IndexAccess { arr, idx } => {
            assert(c[0] == *arr && c[1] == *idx);
        },
        Expr::BinOp { lhs, rhs, .. } => {
            assert(c[0] == *lhs && c[1] == *rhs);
        },
        Expr::UnaryOp { arg, .. } => {
            assert(c[0] == *arg);
        },
        Expr::TSAnnotated(inner) => {
            assert(c[0] == *inner);
        },
        _ => {},
    }
}

/// A binding statement whose right-hand side is an alias only extends the
/// alias chain when its target is an alias too; any other statement lets
/// an alias escape through one of its expressions.
pub open spec fn escapes_stmt(s: Stmt, al: Seq<Seq<char>>) -> bool
    decreases s,
{
    match s {
        Stmt::Let { var, rhs, .. } => match peeled(rhs) {
            Expr::Var(v) => if al.contains(v@) {
                !al.contains(var@)
            } else {
                escapes_expr(rhs, al)
            },
            _ => escapes_expr(rhs, al),
        },
        Stmt::Assign { var, rhs, .. } => match peeled(rhs) {
            Expr::Var(v) => if al.contains(v@) {
                !al.contains(var@)
            } else {
                escapes_expr(rhs, al)
            },
            _ => escapes_expr(rhs, al),
        },
        Stmt::MemberWrite { obj, key, rhs, .. } => escapes_expr(obj, al) || (match key {
            MemberKey::Index(i) => escapes_expr(i, al),
            _ => false,
        }) || escapes_expr(rhs, al),
        Stmt::ExprStmt(e, _) => escapes_expr(e, al),
    }
}

/// The name a statement binds when its value is (annotations aside) one
/// of the aliases itself: a copy of the setter.
pub open spec fn alias_copy_target(s: Stmt, al: Seq<Seq<char>>) -> Option<Seq<char>> {
    match s {
        Stmt::Let { var, rhs, .. } => match peeled(rhs) {
            Expr::Var(v) => if al.contains(v@) { Some(var@) } else { None },
            _ => None,
        },
        Stmt::Assign { var, rhs, .. } => match peeled(rhs) {
            Expr::Var(v) => if al.contains(v@) { Some(var@) } else { None },
            _ => None,
        },
        _ => None,
    }
}

/// A copy of an alias into another alias keeps it tracked, and into any
/// other name lets it escape; every other statement, and every terminator,
/// lets an alias escape exactly when one of the expressions it evaluates
/// does.
pub proof fn lemma_escapes_stmts(s: Stmt, t: Terminator, al: Seq<Seq<char>>)
    ensures
        alias_copy_target(s, al) matches Some(x) ==> (escapes_stmt(s, al) <==> !al.contains(x)),
        alias_copy_target(s, al) is None ==> (escapes_stmt(s, al) <==> exists|k: int|
            0 <= k < stmt_exprs(s).len() && escapes_expr(#[trigger] stmt_exprs(s)[k], al)),
        escapes_term(t, al) <==> exists|k: int| 0 <= k < term_exprs(t).len() && escapes_expr(#[trigger] term_exprs(t)[k], al),
{
    let es = stmt_exprs(s);
    match s {
        Stmt::MemberWrite { obj, key, rhs, .. } => {
            assert(es[0] == obj && es[1] == rhs);
            if let MemberKey::Index(i) = key {
                assert(es[2] == i);
            }
        },
        Stmt::Let { rhs, .. } => {
            assert(es[0] == rhs);
        },
        Stmt::Assign { rhs, .. } => {
            assert(es[0] == rhs);
        },
        Stmt::ExprStmt(e, _) => {
            assert(es[0] == e);
        },
    }
    let ts = term_exprs(t);
    match t {
        Terminator::Return(e) => {
            assert(ts[0] == e);
        },
        Terminator::Branch { cond, .. } => {
            assert(ts[0] == cond);
        },
        _ => {},
    }
}

/// What escapes in a render body escapes the component: a setter passed
/// anywhere in the render body (a prop, an argument, a stored value) makes
/// the slot's writers unknown.
pub proof fn lemma_render_escape_escapes(render: CFG, hooks: Seq<HookEntry>, al: Seq<Seq<char>>, i: int, j: int)
    requires
        0 <= i < render.blocks.len(),
        0 <= j < render.blocks@[i].stmts.len() && escapes_stmt(render.blocks@[i].stmts@[j], al) || j == -1
            && escapes_term(render.blocks@[i].term, al),
    ensures
        setter_escapes_in(render, hooks, al),
{
    assert(escapes_block(render.blocks@[i], al));
}

/// [`escapes_expr`] for a terminator's expression.
pub open spec fn escapes_term(t: Terminator, al: Seq<Seq<char>>) -> bool
    decreases t,
{
    match t {
        Terminator::Return(e) => escapes_expr(e, al),
        Terminator::Branch { cond, .. } => escapes_expr(cond, al),
        _ => false,
    }
}

/// A statement or the terminator of `b` lets an alias escape.
pub open spec fn escapes_block(b: BasicBlock, al: Seq<Seq<char>>) -> bool
    decreases b,
{
    ||| exists|j: int| 0 <= j < b.stmts.len() && escapes_stmt(#[trigger] b.stmts@[j], al)
    ||| escapes_term(b.term, al)
}

/// Some block of `c` lets an alias escape.
pub open spec fn escapes_cfg(c: CFG, al: Seq<Seq<char>>) -> bool
    decreases c,
{
    exists|i: int| 0 <= i < c.blocks.len() && escapes_block(#[trigger] c.blocks@[i], al)
}

/// `true` iff `v` is one of the aliases.
fn is_alias(al: &Vec<Var>, v: &Var) -> (r: bool)
    ensures
        r == names(al@).contains(v@),
{
    holds_var(al, v)
}

/// The aliases a body with parameters `params` still sees.
fn unshadowed_exec(al: &Vec<Var>, params: &Vec<Var>) -> (r: Vec<Var>)
    ensures
        names(r@) == unshadowed(names(al@), names(params@)),
{
    let mut r: Vec<Var> = Vec::new();
    let mut i: usize = 0;
    assert(names(al@).subrange(0, 0) =~= Seq::<Seq<char>>::empty());
    while i < al.len()
        invariant
            i <= al.len(),
            names(r@) == unshadowed(names(al@).subrange(0, i as int), names(params@)),
        decreases al.len() - i,
    {
        let ghost before = r@;
        assert(names(al@).subrange(0, i + 1).drop_last() =~= names(al@).subrange(0, i as int));
        assert(names(al@).subrange(0, i + 1).last() == al@[i as int]@);
        if !holds_var(params, &al[i]) {
            r.push(al[i].clone());
            assert(names(r@) =~= names(before).push(al@[i as int]@));
        }
        i = i + 1;
    }
    assert(names(al@).subrange(0, al.len() as int) =~= names(al@));
    r
}

/// [`escapes_expr`], computed.
#[verifier::loop_isolation(false)]
fn escapes_in_expr(e: &Expr, al: &Vec<Var>) -> (r: bool)
    ensures
        r == escapes_expr(*e, names(al@)),
    decreases e,
{
    match e {
        Expr::Var(v) => is_alias(al, v),
        Expr::Call { fn_, args } => {
            let callee_is_alias = match (**fn_).peel_ts() {
                Expr::Var(v) => is_alias(al, v),
                _ => false,
            };
            (!callee_is_alias && escapes_in_expr(&**fn_, al)) || escapes_in_exprs(args, al)
        },
        Expr::FnLit { params, body_cfg, .. } => {
            let inner = unshadowed_exec(al, params);
            proof {
                assert(decreases_to!(*e => **body_cfg));
            }
            inner.len() > 0 && escapes_in_cfg(&**body_cfg, &inner)
        },
        Expr::ObjectLit { fields, .. } => {
            let mut i: usize = 0;
            while i < fields.len()
                invariant
                    i <= fields.len(),
                    forall|k: int| 0 <= k < i ==> !escapes_expr(#[trigger] fields@[k].1, names(al@)),
                decreases fields.len() - i,
            {
                proof {
                    assert(decreases_to!(*e => *fields));
                    assert(decreases_to!(*fields => fields@));
                    assert(decreases_to!(fields@ => fields@[i as int]));
                    assert(decreases_to!(fields@[i as int] => fields@[i as int].1));
                }
                if escapes_in_expr(&fields[i].1, al) {
                    return true;
                }
                i = i + 1;
            }
            false
        },
        Expr::ArrayLit { elems, .. } => escapes_in_exprs(elems, al),
        Expr::FieldAccess { obj, .. } => escapes_in_expr(&**obj, al),
        Expr::IndexAccess { arr, idx } => escapes_in_expr(&**arr, al) || escapes_in_expr(&**idx, al),
        Expr::BinOp { lhs, rhs, .. } => escapes_in_expr(&**lhs, al) || escapes_in_expr(&**rhs, al),
        Expr::UnaryOp { arg, .. } => escapes_in_expr(&**arg, al),
        Expr::CompApp { props, .. } => escapes_in_expr(&**props, al),
        Expr::NativeElem { props, children, .. } => escapes_in_expr(&**props, al) || escapes_in_exprs(children, al),
        Expr::TSAnnotated(inner) => escapes_in_expr(&**inner, al),
        _ => false,
    }
}

/// [`escapes_expr`] for any of `es`.
fn escapes_in_exprs(es: &Vec<Expr>, al: &Vec<Var>) -> (r: bool)
    ensures
        r == exists|k: int| 0 <= k < es.len() && escapes_expr(#[trigger] es@[k], names(al@)),
    decreases es,
{
    let mut i: usize = 0;
    while i < es.len()
        invariant
            i <= es.len(),
            forall|k: int| 0 <= k < i ==> !escapes_expr(#[trigger] es@[k], names(al@)),
        decreases es.len() - i,
    {
        proof {
            assert(decreases_to!(*es => es@));
            assert(decreases_to!(es@ => es@[i as int]));
        }
        if escapes_in_expr(&es[i], al) {
            return true;
        }
        i = i + 1;
    }
    false
}

/// [`escapes_stmt`], computed.
fn escapes_in_stmt(st: &Stmt, al: &Vec<Var>) -> (r: bool)
    ensures
        r == escapes_stmt(*st, names(al@)),
    decreases st,
{
    match st {
        Stmt::Let { var, rhs, .. } => match rhs.peel_ts() {
            Expr::Var(v) => {
                if is_alias(al, v) {
                    !is_alias(al, var)
                } else {
                    escapes_in_expr(rhs, al)
                }
            },
            _ => escapes_in_expr(rhs, al),
        },
        Stmt::Assign { var, rhs, .. } => match rhs.peel_ts() {
            Expr::Var(v) => {
                if is_alias(al, v) {
                    !is_alias(al, var)
                } else {
                    escapes_in_expr(rhs, al)
                }
            },
            _ => escapes_in_expr(rhs, al),
        },
        Stmt::MemberWrite { obj, key, rhs, .. } => {
            let in_key = match key {
                MemberKey::Index(i) => escapes_in_expr(i, al),
                _ => false,
            };
            escapes_in_expr(obj, al) || in_key || escapes_in_expr(rhs, al)
        },
        Stmt::ExprStmt(e, _) => escapes_in_expr(e, al),
    }
}

/// [`escapes_cfg`], computed.
fn escapes_in_cfg(cfg: &CFG, al: &Vec<Var>) -> (r: bool)
    ensures
        r == escapes_cfg(*cfg, names(al@)),
    decreases cfg,
{
    let mut i: usize = 0;
    while i < cfg.blocks.len()
        invariant
            i <= cfg.blocks.len(),
            forall|k: int| 0 <= k < i ==> !escapes_block(#[trigger] cfg.blocks@[k], names(al@)),
        decreases cfg.blocks.len() - i,
    {
        let b = &cfg.blocks[i];
        let mut j: usize = 0;
        while j < b.stmts.len()
            invariant
                i < cfg.blocks.len(),
                *b == cfg.blocks@[i as int],
                j <= b.stmts.len(),
                forall|jj: int| 0 <= jj < j ==> !escapes_stmt(#[trigger] b.stmts@[jj], names(al@)),
            decreases b.stmts.len() - j,
        {
            proof {
                assert(decreases_to!(*cfg => cfg.blocks));
                assert(decreases_to!(cfg.blocks => cfg.blocks@));
                assert(decreases_to!(cfg.blocks@ => cfg.blocks@[i as int]));
                assert(decreases_to!(cfg.blocks@[i as int] => cfg.blocks@[i as int].stmts));
                assert(decreases_to!(cfg.blocks@[i as int].stmts => cfg.blocks@[i as int].stmts@));
                assert(decreases_to!(cfg.blocks@[i as int].stmts@ => cfg.blocks@[i as int].stmts@[j as int]));
            }
            if escapes_in_stmt(&b.stmts[j], al) {
                assert(escapes_block(cfg.blocks@[i as int], names(al@)));
                return true;
            }
            j = j + 1;
        }
        proof {
            assert(decreases_to!(*cfg => cfg.blocks));
            assert(decreases_to!(cfg.blocks => cfg.blocks@));
            assert(decreases_to!(cfg.blocks@ => cfg.blocks@[i as int]));
            assert(decreases_to!(cfg.blocks@[i as int] => cfg.blocks@[i as int].term));
        }
        let in_term = match &b.term {
            Terminator::Return(e) => escapes_in_expr(e, al),
            Terminator::Branch { cond, .. } => escapes_in_expr(cond, al),
            _ => false,
        };
        if in_term {
            assert(escapes_block(cfg.blocks@[i as int], names(al@)));
            return true;
        }
        i = i + 1;
    }
    false
}

/// The body a hook call carries, if its kind has one.
pub open spec fn hook_body(h: HookEntry) -> Option<CFG> {
    match h {
        HookEntry::Effect { body_cfg, .. } => Some(body_cfg),
        HookEntry::Memo { body_cfg, .. } => Some(body_cfg),
        HookEntry::Callback { body_cfg, .. } => Some(body_cfg),
        HookEntry::Handler { body_cfg, .. } => Some(body_cfg),
        _ => None,
    }
}

/// The hook body, if any, lets an alias escape.
pub open spec fn body_escapes(b: Option<CFG>, al: Seq<Seq<char>>) -> bool {
    match b {
        Some(c) => escapes_cfg(c, al),
        None => false,
    }
}

/// A custom hook's argument, or a state or ref initializer that is not the
/// setter itself, lets an alias escape.
pub open spec fn hook_smuggles(h: HookEntry, al: Seq<Seq<char>>) -> bool {
    match h {
        HookEntry::Custom { args, .. } => exists|j: int| 0 <= j < args.len() && escapes_expr(#[trigger] args@[j], al),
        HookEntry::State { init, .. } => !(peeled(init) is StateSetter) && escapes_expr(init, al),
        HookEntry::Ref { init, .. } => !(peeled(init) is StateSetter) && escapes_expr(init, al),
        _ => false,
    }
}

/// An alias of the setter is used somewhere other than a direct call or a
/// pure alias binding: in the render body, in a hook body, or smuggled
/// through a hook's arguments or initializer.
pub open spec fn setter_escapes_in(render: CFG, hooks: Seq<HookEntry>, al: Seq<Seq<char>>) -> bool {
    ||| escapes_cfg(render, al)
    ||| exists|i: int| 0 <= i < hooks.len() && body_escapes(#[trigger] hook_body(hooks[i]), al)
    ||| exists|i: int| 0 <= i < hooks.len() && hook_smuggles(#[trigger] hooks[i], al)
}

/// `true` when an alias of the slot's setter is used anywhere outside a
/// direct call or a pure alias binding: something unseen may then sync the
/// slot, and a no-sync claim loses its certainty.
pub fn setter_escapes(render_cfg: &CFG, hooks: &Vec<HookEntry>, aliases: &Vec<Var>) -> (r: bool)
    ensures
        r == setter_escapes_in(*render_cfg, hooks@, names(aliases@)),
{
    let ghost al = names(aliases@);
    if escapes_in_cfg(render_cfg, aliases) {
        return true;
    }
    let mut i: usize = 0;
    while i < hooks.len()
        invariant
            i <= hooks.len(),
            al == names(aliases@),
            forall|k: int| 0 <= k < i ==> !body_escapes(#[trigger] hook_body(hooks@[k]), al),
        decreases hooks.len() - i,
    {
        match hooks[i].body_cfg() {
            Some(b) => {
                if escapes_in_cfg(b, aliases) {
                    assert(hook_body(hooks@[i as int]) == Some(*b));
                    return true;
                }
            },
            None => {},
        }
        i = i + 1;
    }
    let mut i: usize = 0;
    while i < hooks.len()
        invariant
            i <= hooks.len(),
            al == names(aliases@),
            forall|k: int| 0 <= k < i ==> !hook_smuggles(#[trigger] hooks@[k], al),
        decreases hooks.len() - i,
    {
        let hit = match &hooks[i] {
            HookEntry::Custom { args, .. } => escapes_in_exprs(args, aliases),
            HookEntry::State { init, .. } => {
                let is_setter = match init.peel_ts() {
                    Expr::StateSetter(_) => true,
                    _ => false,
                };
                !is_setter && escapes_in_expr(init, aliases)
            },
            HookEntry::Ref { init, .. } => {
                let is_setter = match init.peel_ts() {
                    Expr::StateSetter(_) => true,
                    _ => false,
                };
                !is_setter && escapes_in_expr(init, aliases)
            },
            _ => false,
        };
        if hit {
            return true;
        }
        i = i + 1;
    }
    false
}

/// When every entry for `v` holds `rs`, the single right-hand side of `v` is
/// the one `rs` holds, if it holds one and there is an entry at all.
proof fn lemma_single_rhs_of(b: BindView, v: Seq<char>, rs: Seq<Expr>)
    requires
        forall|i: int| 0 <= i < b.len() && (#[trigger] b[i]).0 == v ==> b[i].1 == rs,
    ensures
        single_rhs(b, v) == if (exists|i: int| 0 <= i < b.len() && (#[trigger] b[i]).0 == v) && rs.len() == 1 {
            Some(rs[0])
        } else {
            None::<Expr>
        },
    decreases b.len(),
{
    if b.len() > 0 {
        if b[0].0 != v {
            assert forall|i: int| 0 <= i < b.drop_first().len() && (#[trigger] b.drop_first()[i]).0 == v implies b.drop_first()[i].1 == rs by {
                assert(b.drop_first()[i] == b[i + 1]);
            }
            lemma_single_rhs_of(b.drop_first(), v, rs);
            if exists|i: int| 0 <= i < b.len() && (#[trigger] b[i]).0 == v {
                let i = choose|i: int| 0 <= i < b.len() && (#[trigger] b[i]).0 == v;
                assert(b.drop_first()[i - 1] == b[i]);
            }
            if exists|i: int| 0 <= i < b.drop_first().len() && (#[trigger] b.drop_first()[i]).0 == v {
                let i = choose|i: int| 0 <= i < b.drop_first().len() && (#[trigger] b.drop_first()[i]).0 == v;
                assert(b[i + 1] == b.drop_first()[i]);
            }
        } else {
            assert(b[0].1 == rs);
        }
    }
}

/// The single right-hand side of `v` in a body: its only binding.
pub open spec fn body_single(c: CFG, v: Seq<char>) -> Option<Expr> {
    if bound_rhss(c, v).len() == 1 {
        Some(bound_rhss(c, v)[0])
    } else {
        None
    }
}

/// In a body's own table a name's single right-hand side is its only
/// binding.
pub proof fn lemma_body_table(c: CFG, v: Seq<char>)
    ensures
        single_rhs(body_table(c), v) == body_single(c, v),
{
    let t = body_table(c);
    lemma_single_rhs_of(t, v, bound_rhss(c, v));
    lemma_bound_names(c, v);
    if bound_names(c).contains(v) {
        let k = choose|k: int| 0 <= k < bound_names(c).len() && bound_names(c)[k] == v;
        assert(t[k].0 == v);
    }
    if exists|i: int| 0 <= i < t.len() && (#[trigger] t[i]).0 == v {
        let i = choose|i: int| 0 <= i < t.len() && (#[trigger] t[i]).0 == v;
        assert(bound_names(c)[i] == v);
    }
}

/// A table with the properties [`local_bindings`] promises gives every name
/// the single right-hand side of the body.
pub proof fn lemma_local_table(c: CFG, bs: Seq<(Var, Vec<&Expr>)>, v: Seq<char>)
    requires
        forall|i: int| 0 <= i < bs.len() ==> derefs(bs[i].1@) == bound_rhss(c, #[trigger] bs[i].0@),
        forall|w: Seq<char>| (exists|i: int| 0 <= i < bs.len() && bs[i].0@ == w) <==> #[trigger] bound_rhss(c, w).len() > 0,
    ensures
        single_rhs(bind_view(bs), v) == body_single(c, v),
{
    let t = bind_view(bs);
    assert forall|i: int| 0 <= i < t.len() && (#[trigger] t[i]).0 == v implies t[i].1 == bound_rhss(c, v) by {
        assert(t[i] == (bs[i].0@, derefs(bs[i].1@)));
    }
    lemma_single_rhs_of(t, v, bound_rhss(c, v));
    if bound_rhss(c, v).len() > 0 {
        let i = choose|i: int| 0 <= i < bs.len() && bs[i].0@ == v;
        assert(t[i].0 == v);
    }
    if exists|i: int| 0 <= i < t.len() && (#[trigger] t[i]).0 == v {
        let i = choose|i: int| 0 <= i < t.len() && (#[trigger] t[i]).0 == v;
        assert(bs[i].0@ == v);
    }
}

/// Two tables that agree on every name's single right-hand side give every
/// path the same props-rooted forms.
pub proof fn lemma_norm_congruent(b1: BindView, b2: BindView, param: Seq<char>, seen: Seq<Seq<char>>, p: PathView, q: PathView, ex: bool)
    requires
        forall|v: Seq<char>| #[trigger] single_rhs(b1, v) == single_rhs(b2, v),
    ensures
        norm_has(b1, param, seen, p, q, ex) == norm_has(b2, param, seen, p, q, ex),
    decreases unseen(b1, seen),
{
    if p.0 != param && !seen.contains(p.0) {
        match single_rhs(b1, p.0) {
            None => {},
            Some(rhs) => {
                assert(single_rhs(b2, p.0) == Some(rhs));
                let seen2 = seen.push(p.0);
                lemma_unseen_push(b1, seen, p.0);
                lemma_unseen_push(b2, seen, p.0);
                match member_chain(rhs) {
                    Some(base) => {
                        lemma_norm_congruent(b1, b2, param, seen2, (base.0, base.1 + p.1), q, ex);
                    },
                    None => match selected_member(rhs, p.1) {
                        Some(base) => {
                            lemma_norm_congruent(b1, b2, param, seen2, (base.0, base.1 + p.1.drop_first()), q, ex);
                        },
                        None => {
                            assert forall|p2: PathView| path_reads(rhs, p2) implies (norm_has(b1, param, seen2, p2, q, true) == norm_has(
                                b2,
                                param,
                                seen2,
                                p2,
                                q,
                                true,
                            ) && norm_has(b1, param, seen2, p2, q, false) == norm_has(b2, param, seen2, p2, q, false)) by {
                                lemma_norm_congruent(b1, b2, param, seen2, p2, q, true);
                                lemma_norm_congruent(b1, b2, param, seen2, p2, q, false);
                            }
                        },
                    },
                }
            },
        }
    }
}

/// The names the label table gives the label `l`.
pub open spec fn aliases_of(labels: Seq<(Var, HookLabel)>, l: HookLabel) -> Seq<Seq<char>>
    decreases labels.len(),
{
    if labels.len() == 0 {
        Seq::empty()
    } else {
        let prev = aliases_of(labels.drop_last(), l);
        if labels.last().1 == l {
            prev.push(labels.last().0@)
        } else {
            prev
        }
    }
}

/// The variables the label table gives the label `l`.
fn aliases_exec(labels: &LabelMap, l: HookLabel) -> (r: Vec<Var>)
    ensures
        names(r@) == aliases_of(labels@, l),
{
    let mut r: Vec<Var> = Vec::new();
    let mut i: usize = 0;
    assert(labels@.subrange(0, 0) =~= Seq::<(Var, HookLabel)>::empty());
    while i < labels.len()
        invariant
            i <= labels.len(),
            names(r@) == aliases_of(labels@.subrange(0, i as int), l),
        decreases labels.len() - i,
    {
        let ghost before = r@;
        assert(labels@.subrange(0, i + 1).drop_last() =~= labels@.subrange(0, i as int));
        if labels[i].1 == l {
            r.push(labels[i].0.clone());
            assert(names(r@) =~= names(before).push(labels@[i as int].0@));
        }
        i = i + 1;
    }
    assert(labels@.subrange(0, labels.len() as int) =~= labels@);
    r
}

/// The deps facts recorded for the hook labelled `l`, the first if several.
pub open spec fn info_of(infos: Seq<EffectInfo>, l: HookLabel) -> Option<EffectInfo>
    decreases infos.len(),
{
    if infos.len() == 0 {
        None
    } else if infos[0].label == l {
        Some(infos[0])
    } else {
        info_of(infos.drop_first(), l)
    }
}

/// The deps facts recorded for the hook labelled `l`.
fn effect_info_of(infos: &Vec<EffectInfo>, l: HookLabel) -> (r: Option<&EffectInfo>)
    ensures
        r is Some <==> info_of(infos@, l) is Some,
        r matches Some(i) ==> info_of(infos@, l) == Some(*i),
{
    let mut k: usize = 0;
    assert(infos@.subrange(0, infos@.len() as int) =~= infos@);
    while k < infos.len()
        invariant
            k <= infos.len(),
            info_of(infos@, l) == info_of(infos@.subrange(k as int, infos@.len() as int), l),
        decreases infos.len() - k,
    {
        let ghost rest = infos@.subrange(k as int, infos@.len() as int);
        assert(rest[0] == infos@[k as int]);
        assert(rest.drop_first() =~= infos@.subrange(k + 1, infos@.len() as int));
        if infos[k].label == l {
            return Some(&infos[k]);
        }
        k = k + 1;
    }
    None
}

/// Some dep of `deps` covers the seed path `p`: as written, or through an
/// exact props-rooted form of each side.
pub open spec fn seed_covered(b: BindView, param: Seq<char>, deps: Seq<Expr>, p: PathView) -> bool {
    ||| exists|k: int| 0 <= k < declared_paths(deps).len() && covers(#[trigger] declared_paths(deps)[k], p)
    ||| exists|q: PathView, q2: PathView|
        #![trigger norm_has(b, param, Seq::empty(), p, q, true), exact_form_of(b, param, declared_paths(deps), q2)]
        norm_has(b, param, Seq::empty(), p, q, true) && exact_form_of(b, param, declared_paths(deps), q2) && covers(q2, q)
}

/// For a row whose forms are the path's props-rooted forms, covering its
/// forms is covering its path.
proof fn lemma_deps_cover_row(b: BindView, param: Seq<char>, deps: Seq<Expr>, s: SeedPath)
    requires
        forall|x: ((Seq<char>, Seq<Seq<char>>), bool)| #[trigger] norm_views(s.normalized@).contains(x) <==> norm_has(
            b,
            param,
            Seq::empty(),
            s.orig@,
            x.0,
            x.1,
        ),
    ensures
        deps_cover(b, param, deps, s.orig@, s.normalized@) == seed_covered(b, param, deps, s.orig@),
{
    let ds = declared_paths(deps);
    if exists|i: int, q: PathView| #[trigger] form_covered(b, param, ds, s.normalized@, i, q) {
        let (i, q) = choose|i: int, q: PathView| #[trigger] form_covered(b, param, ds, s.normalized@, i, q);
        assert(norm_views(s.normalized@)[i] == s.normalized@[i]@);
        assert(norm_views(s.normalized@).contains((s.normalized@[i].path@, true)));
        assert(norm_has(b, param, Seq::empty(), s.orig@, s.normalized@[i].path@, true));
        assert(exact_form_of(b, param, ds, q));
    }
    if exists|q: PathView, q2: PathView|
        #![trigger norm_has(b, param, Seq::empty(), s.orig@, q, true), exact_form_of(b, param, ds, q2)]
        norm_has(b, param, Seq::empty(), s.orig@, q, true) && exact_form_of(b, param, ds, q2) && covers(q2, q) {
        let (q, q2) = choose|q: PathView, q2: PathView|
            #![trigger norm_has(b, param, Seq::empty(), s.orig@, q, true), exact_form_of(b, param, ds, q2)]
            norm_has(b, param, Seq::empty(), s.orig@, q, true) && exact_form_of(b, param, ds, q2) && covers(q2, q);
        assert(norm_views(s.normalized@).contains((q, true)));
        let i = choose|i: int| 0 <= i < norm_views(s.normalized@).len() && norm_views(s.normalized@)[i] == (q, true);
        assert(form_covered(b, param, ds, s.normalized@, i, q2));
    }
}

/// Tables that agree on every single right-hand side agree on coverage.
proof fn lemma_seed_covered_congruent(b1: BindView, b2: BindView, param: Seq<char>, deps: Seq<Expr>, p: PathView)
    requires
        forall|v: Seq<char>| #[trigger] single_rhs(b1, v) == single_rhs(b2, v),
    ensures
        seed_covered(b1, param, deps, p) == seed_covered(b2, param, deps, p),
{
    let ds = declared_paths(deps);
    assert forall|q: PathView| #[trigger] exact_form_of(b1, param, ds, q) == exact_form_of(b2, param, ds, q) by {
        assert forall|k: int| 0 <= k < ds.len() implies norm_has(b1, param, Seq::empty(), #[trigger] ds[k], q, true) == norm_has(
            b2,
            param,
            Seq::empty(),
            ds[k],
            q,
            true,
        ) by {
            lemma_norm_congruent(b1, b2, param, Seq::empty(), ds[k], q, true);
        }
    }
    assert forall|q: PathView| #[trigger] norm_has(b1, param, Seq::empty(), p, q, true) == norm_has(b2, param, Seq::empty(), p, q, true) by {
        lemma_norm_congruent(b1, b2, param, Seq::empty(), p, q, true);
    }
    if seed_covered(b1, param, deps, p) {
        if exists|q: PathView, q2: PathView|
            #![trigger norm_has(b1, param, Seq::empty(), p, q, true), exact_form_of(b1, param, ds, q2)]
            norm_has(b1, param, Seq::empty(), p, q, true) && exact_form_of(b1, param, ds, q2) && covers(q2, q) {
            let (q, q2) = choose|q: PathView, q2: PathView|
                #![trigger norm_has(b1, param, Seq::empty(), p, q, true), exact_form_of(b1, param, ds, q2)]
                norm_has(b1, param, Seq::empty(), p, q, true) && exact_form_of(b1, param, ds, q2) && covers(q2, q);
            assert(norm_has(b2, param, Seq::empty(), p, q, true) && exact_form_of(b2, param, ds, q2));
        }
    }
    if seed_covered(b2, param, deps, p) {
        if exists|q: PathView, q2: PathView|
            #![trigger norm_has(b2, param, Seq::empty(), p, q, true), exact_form_of(b2, param, ds, q2)]
            norm_has(b2, param, Seq::empty(), p, q, true) && exact_form_of(b2, param, ds, q2) && covers(q2, q) {
            let (q, q2) = choose|q: PathView, q2: PathView|
                #![trigger norm_has(b2, param, Seq::empty(), p, q, true), exact_form_of(b2, param, ds, q2)]
                norm_has(b2, param, Seq::empty(), p, q, true) && exact_form_of(b2, param, ds, q2) && covers(q2, q);
            assert(norm_has(b1, param, Seq::empty(), p, q, true) && exact_form_of(b1, param, ds, q2));
        }
    }
}

/// The effect labelled `l` re-runs when the prop behind `p` moves: it
/// declares no deps list, or a readable one that covers `p`. A list the
/// engine cannot read proves nothing.
pub open spec fn effect_reruns(infos: Seq<EffectInfo>, l: HookLabel, b: BindView, param: Seq<char>, p: PathView) -> bool {
    match info_of(infos, l) {
        Some(i) => match i.deps {
            DepsArg::Absent => true,
            DepsArg::Opaque => false,
            DepsArg::List(d) => seed_covered(b, param, covering_spec(d.elems@, d.spread_at@), p),
        },
        None => false,
    }
}

/// A writer row of slot `l` whose phase says its effect runs it, in the
/// effect labelled `e`.
pub open spec fn effect_writer(w: SlotWriter, l: HookLabel, e: HookLabel) -> bool {
    w.slot == l && (w.phase == WriterPhase::Effect || w.phase == WriterPhase::Deferred || w.phase == WriterPhase::Cleanup)
        && w.region == WriterRegion::Effect(e)
}

/// Something visibly re-syncs slot `l` when the prop behind its seed path
/// `p` moves: a write that runs during render, or an effect that writes the
/// slot and re-runs when that prop moves.
pub open spec fn synced(b: BindView, param: Seq<char>, writers: Seq<SlotWriter>, infos: Seq<EffectInfo>, l: HookLabel, p: PathView) -> bool {
    ||| exists|w: int| 0 <= w < writers.len() && (#[trigger] writers[w]).slot == l && writers[w].phase == WriterPhase::Render
    ||| exists|w: int, e: HookLabel| 0 <= w < writers.len() && #[trigger] effect_writer(writers[w], l, e) && effect_reruns(infos, e, b, param, p)
}

/// `h` is the state hook labelled `l` and `p` a seed read of its
/// initializer.
pub open spec fn state_seed_of(h: HookEntry, l: HookLabel, b: BindView, param: Seq<char>, p: PathView) -> bool {
    match h {
        HookEntry::State { label, init, .. } => label == l && is_seed_read(init, b, param, p),
        _ => false,
    }
}

/// One row of the seed relation of a component with render body `render`.
pub open spec fn slot_row(
    render: CFG,
    hooks: Seq<HookEntry>,
    param: Seq<char>,
    labels: Seq<(Var, HookLabel)>,
    writers: Seq<SlotWriter>,
    infos: Seq<EffectInfo>,
    row: SlotSeed,
) -> bool {
    let t = body_table(render);
    &&& exists|j: int| 0 <= j < hooks.len() && state_seed_of(#[trigger] hooks[j], row.slot, t, param, row.path@)
    &&& forall|q: PathView| (exists|k: int| 0 <= k < row.normalized.len() && #[trigger] row.normalized@[k]@ == q) <==> (norm_has(
        t,
        param,
        Seq::empty(),
        row.path@,
        q,
        true,
    ) || norm_has(t, param, Seq::empty(), row.path@, q, false))
    &&& row.setter_escapes == setter_escapes_in(render, hooks, aliases_of(labels, row.slot))
    &&& (row.sync == SeedSync::Synced) == synced(t, param, writers, infos, row.slot, row.path@)
}

/// Rows order by slot, then by displayed path.
pub open spec fn row_lt(a: SlotSeed, b: SlotSeed) -> bool {
    a.slot < b.slot || (a.slot == b.slot && seq_lt(shown(a.path), shown(b.path)))
}

proof fn lemma_row_lt(a: SlotSeed, b: SlotSeed, c: SlotSeed)
    ensures
        !row_lt(a, a),
        row_lt(a, b) && row_lt(b, c) ==> row_lt(a, c),
        !row_lt(a, b) && !row_lt(b, c) ==> !row_lt(a, c),
{
    lemma_seq_lt_order(shown(a.path), shown(b.path), shown(c.path));
    lemma_seq_lt_order(shown(b.path), shown(c.path), shown(a.path));
    lemma_seq_lt_order(shown(c.path), shown(a.path), shown(b.path));
    lemma_seq_lt_order(shown(a.path), shown(c.path), shown(b.path));
}

/// Some writer of slot `l` runs during render.
fn any_render_write(writers: &Vec<SlotWriter>, l: HookLabel) -> (r: bool)
    ensures
        r == exists|w: int| 0 <= w < writers.len() && (#[trigger] writers@[w]).slot == l && writers@[w].phase == WriterPhase::Render,
{
    let mut w: usize = 0;
    while w < writers.len()
        invariant
            w <= writers.len(),
            forall|k: int| 0 <= k < w ==> !((#[trigger] writers@[k]).slot == l && writers@[k].phase == WriterPhase::Render),
        decreases writers.len() - w,
    {
        if writers[w].slot == l && writers[w].phase == WriterPhase::Render {
            return true;
        }
        w = w + 1;
    }
    false
}

/// The effects whose own run writes slot `l`, one entry per writer row.
fn effect_labels(writers: &Vec<SlotWriter>, l: HookLabel) -> (r: Vec<HookLabel>)
    ensures
        forall|e: HookLabel| #[trigger] r@.contains(e) <==> exists|w: int| 0 <= w < writers.len() && effect_writer(#[trigger] writers@[w], l, e),
{
    let mut r: Vec<HookLabel> = Vec::new();
    let mut w: usize = 0;
    while w < writers.len()
        invariant
            w <= writers.len(),
            forall|e: HookLabel| #[trigger] r@.contains(e) <==> exists|k: int| 0 <= k < w && effect_writer(#[trigger] writers@[k], l, e),
        decreases writers.len() - w,
    {
        let ghost before = r@;
        if writers[w].slot == l && effect_triggered(writers[w].phase) {
            match writers[w].region {
                WriterRegion::Effect(e) => {
                    r.push(e);
                },
                _ => {},
            }
        }
        proof {
            assert forall|e: HookLabel| #[trigger] r@.contains(e) <==> exists|k: int| 0 <= k < w + 1 && effect_writer(#[trigger] writers@[k], l, e) by {
                if r@.contains(e) {
                    let q = choose|q: int| 0 <= q < r@.len() && r@[q] == e;
                    if q < before.len() {
                        assert(before.contains(e));
                    } else {
                        assert(effect_writer(writers@[w as int], l, e));
                    }
                }
                if exists|k: int| 0 <= k < w + 1 && effect_writer(#[trigger] writers@[k], l, e) {
                    let k = choose|k: int| 0 <= k < w + 1 && effect_writer(#[trigger] writers@[k], l, e);
                    if k < w {
                        assert(before.contains(e));
                        let q = choose|q: int| 0 <= q < before.len() && before[q] == e;
                        assert(r@[q] == e);
                    } else {
                        assert(r@[before.len() as int] == e);
                    }
                }
            }
        }
        w = w + 1;
    }
    r
}

/// The recorded hook declares no deps list at all.
pub open spec fn declares_no_deps(i: Option<EffectInfo>) -> bool {
    match i {
        Some(info) => info.deps is Absent,
        None => false,
    }
}

/// One of `effects` declares no deps list at all: it re-runs after every
/// render.
fn any_unconditional(effects: &Vec<HookLabel>, infos: &Vec<EffectInfo>) -> (r: bool)
    ensures
        r == exists|k: int| 0 <= k < effects.len() && declares_no_deps(#[trigger] info_of(infos@, effects@[k])),
{
    let mut k: usize = 0;
    while k < effects.len()
        invariant
            k <= effects.len(),
            forall|q: int| 0 <= q < k ==> !declares_no_deps(#[trigger] info_of(infos@, effects@[q])),
        decreases effects.len() - k,
    {
        match effect_info_of(infos, effects[k]) {
            Some(i) => {
                match &i.deps {
                    DepsArg::Absent => return true,
                    _ => {},
                }
            },
            None => {},
        }
        k = k + 1;
    }
    false
}

/// One of `effects` re-runs when the prop behind `seed` moves.
fn effects_cover(effects: &Vec<HookLabel>, infos: &Vec<EffectInfo>, seed: &SeedPath, param: &Var, bindings: &Vec<(Var, Vec<&Expr>)>) -> (r: bool)
    requires
        forall|x: ((Seq<char>, Seq<Seq<char>>), bool)| #[trigger] norm_views(seed.normalized@).contains(x) <==> norm_has(
            bind_view(bindings@),
            param@,
            Seq::empty(),
            seed.orig@,
            x.0,
            x.1,
        ),
    ensures
        r == exists|k: int| 0 <= k < effects.len() && effect_reruns(infos@, #[trigger] effects@[k], bind_view(bindings@), param@, seed.orig@),
{
    let ghost bv = bind_view(bindings@);
    let mut k: usize = 0;
    while k < effects.len()
        invariant
            k <= effects.len(),
            bv == bind_view(bindings@),
            forall|x: ((Seq<char>, Seq<Seq<char>>), bool)| #[trigger] norm_views(seed.normalized@).contains(x) <==> norm_has(
                bv,
                param@,
                Seq::empty(),
                seed.orig@,
                x.0,
                x.1,
            ),
            forall|q: int| 0 <= q < k ==> !effect_reruns(infos@, #[trigger] effects@[q], bv, param@, seed.orig@),
        decreases effects.len() - k,
    {
        let hit = match effect_info_of(infos, effects[k]) {
            Some(i) => match &i.deps {
                DepsArg::Absent => true,
                DepsArg::Opaque => false,
                DepsArg::List(d) => {
                    let cov = d.covering();
                    let c = deps_cover_seed(&cov, seed, param, bindings);
                    proof {
                        lemma_deps_cover_row(bv, param@, derefs(cov@), *seed);
                        assert(derefs(cov@) == cov@.map_values(|x: &Expr| *x));
                    }
                    c
                },
            },
            None => false,
        };
        if hit {
            return true;
        }
        k = k + 1;
    }
    false
}

/// Insert `row` into the ordered rows `out` after every row that does not
/// sort after it; answers where it went.
fn insert_row(out: &mut Vec<SlotSeed>, row: SlotSeed) -> (p: usize)
    requires
        forall|i: int, j: int| 0 <= i < j < old(out).len() ==> !row_lt(#[trigger] old(out)@[j], #[trigger] old(out)@[i]),
    ensures
        p <= old(out).len(),
        final(out)@ == old(out)@.insert(p as int, row),
        forall|i: int, j: int| 0 <= i < j < final(out).len() ==> !row_lt(#[trigger] final(out)@[j], #[trigger] final(out)@[i]),
{
    let ghost before = out@;
    let shown_new = row.path.display();
    let mut p: usize = 0;
    while p < out.len() && (out[p].slot < row.slot || (out[p].slot == row.slot && !str_lt(shown_new.as_str(), out[p].path.display().as_str())))
        invariant
            p <= out.len(),
            out@ == before,
            shown_new@ == shown(row.path),
            forall|q: int| 0 <= q < p ==> !row_lt(row, #[trigger] before[q]),
        decreases out.len() - p,
    {
        p = p + 1;
    }
    proof {
        if p < before.len() {
            assert(row_lt(row, before[p as int]));
        }
    }
    out.insert(p, row);
    proof {
        assert forall|i: int, j: int| 0 <= i < j < out.len() implies !row_lt(#[trigger] out@[j], #[trigger] out@[i]) by {
            if j < p {
                assert(out@[i] == before[i] && out@[j] == before[j]);
            } else if j == p {
                assert(out@[i] == before[i]);
            } else if i == p {
                assert(out@[j] == before[j - 1]);
                lemma_row_lt(row, before[p as int], before[j - 1]);
                lemma_row_lt(before[j - 1], before[p as int], row);
                lemma_row_lt(before[j - 1], row, before[p as int]);
                if j - 1 > p {
                    assert(!row_lt(before[j - 1], before[p as int]));
                }
            } else if i < p {
                assert(out@[i] == before[i] && out@[j] == before[j - 1]);
            } else {
                assert(out@[i] == before[i - 1] && out@[j] == before[j - 1]);
            }
        }
    }
    p
}

/// The row of one seed read of the state hook at `j`, given the facts the
/// caller gathered about its slot.
#[verifier::rlimit(40)]
#[verifier::spinoff_prover]
fn make_row(
    render_cfg: &CFG,
    hooks: &Vec<HookEntry>,
    param: &Var,
    setter_labels: &LabelMap,
    slot_writers: &Vec<SlotWriter>,
    effect_info: &Vec<EffectInfo>,
    bindings: &Vec<(Var, Vec<&Expr>)>,
    j: usize,
    label: HookLabel,
    init: &Expr,
    seed: &SeedPath,
    aliases: &Vec<Var>,
    render_write: bool,
    effects: &Vec<HookLabel>,
    unconditional: bool,
    escapes: bool,
) -> (row: SlotSeed)
    requires
        j < hooks.len(),
        hooks@[j as int] matches HookEntry::State { label: l0, init: i0, .. } && l0 == label && i0 == *init,
        forall|v: Seq<char>| #[trigger] single_rhs(bind_view(bindings@), v) == single_rhs(body_table(*render_cfg), v),
        seed_row(*init, bind_view(bindings@), param@, *seed),
        names(aliases@) == aliases_of(setter_labels@, label),
        render_write == exists|w: int| 0 <= w < slot_writers.len() && (#[trigger] slot_writers@[w]).slot == label
            && slot_writers@[w].phase == WriterPhase::Render,
        forall|e: HookLabel| #[trigger] effects@.contains(e) <==> exists|w: int|
            0 <= w < slot_writers.len() && effect_writer(#[trigger] slot_writers@[w], label, e),
        unconditional == exists|k: int| 0 <= k < effects.len() && declares_no_deps(#[trigger] info_of(effect_info@, effects@[k])),
        escapes == setter_escapes_in(*render_cfg, hooks@, names(aliases@)),
    ensures
        slot_row(*render_cfg, hooks@, param@, setter_labels@, slot_writers@, effect_info@, row),
        row.slot == label,
        row.path@ == seed.orig@,
{
    let ghost bv = bind_view(bindings@);
    let ghost t = body_table(*render_cfg);
    let covered = effects_cover(effects, effect_info, seed, param, bindings);
    let sync = if render_write || unconditional || covered {
        SeedSync::Synced
    } else {
        SeedSync::NoneSeen
    };
    let row = SlotSeed { slot: label, normalized: seed.paths(), path: copy_path(&seed.orig), sync, setter_escapes: escapes };
        proof {
            let p = seed.orig@;
            assert forall|q: PathView, e: bool| #[trigger] norm_has(bv, param@, Seq::empty(), p, q, e) == norm_has(t, param@, Seq::empty(), p, q, e) by {
                lemma_norm_congruent(bv, t, param@, Seq::empty(), p, q, e);
            }
            // The row's slot and path come from the state hook at `j`.
            assert(norm_views(seed.normalized@)[0] == seed.normalized@[0]@);
            assert(norm_views(seed.normalized@).contains(seed.normalized@[0]@));
            assert(norm_has(bv, param@, Seq::empty(), p, seed.normalized@[0].path@, seed.normalized@[0].exact));
            assert(norm_has(t, param@, Seq::empty(), p, seed.normalized@[0].path@, seed.normalized@[0].exact));
            assert(is_seed_read(*init, t, param@, p));
            assert(state_seed_of(hooks@[j as int], label, t, param@, p));
            // Its forms.
            assert forall|q: PathView| (exists|k: int| 0 <= k < row.normalized.len() && #[trigger] row.normalized@[k]@ == q) <==> (norm_has(
                t,
                param@,
                Seq::empty(),
                p,
                q,
                true,
            ) || norm_has(t, param@, Seq::empty(), p, q, false)) by {
                if exists|k: int| 0 <= k < row.normalized.len() && #[trigger] row.normalized@[k]@ == q {
                    let k = choose|k: int| 0 <= k < row.normalized.len() && #[trigger] row.normalized@[k]@ == q;
                    assert(norm_views(seed.normalized@)[k] == seed.normalized@[k]@);
                    assert(norm_views(seed.normalized@).contains(seed.normalized@[k]@));
                }
                if norm_has(t, param@, Seq::empty(), p, q, true) {
                    assert(norm_views(seed.normalized@).contains((q, true)));
                    let k = choose|k: int| 0 <= k < norm_views(seed.normalized@).len() && norm_views(seed.normalized@)[k] == (q, true);
                    assert(row.normalized@[k]@ == q);
                }
                if norm_has(t, param@, Seq::empty(), p, q, false) {
                    assert(norm_views(seed.normalized@).contains((q, false)));
                    let k = choose|k: int| 0 <= k < norm_views(seed.normalized@).len() && norm_views(seed.normalized@)[k] == (q, false);
                    assert(row.normalized@[k]@ == q);
                }
            }
            // Its sync.
            assert forall|e: HookLabel| #[trigger] effect_reruns(effect_info@, e, bv, param@, p) == effect_reruns(effect_info@, e, t, param@, p) by {
                match info_of(effect_info@, e) {
                    Some(i) => match i.deps {
                        DepsArg::List(d) => {
                            lemma_seed_covered_congruent(bv, t, param@, covering_spec(d.elems@, d.spread_at@), p);
                        },
                        _ => {},
                    },
                    None => {},
                }
            }
            let sy = synced(t, param@, slot_writers@, effect_info@, label, p);
            if unconditional {
                let k = choose|k: int| 0 <= k < effects.len() && declares_no_deps(#[trigger] info_of(effect_info@, effects@[k]));
                assert(effects@.contains(effects@[k]));
                let w = choose|w: int| 0 <= w < slot_writers.len() && effect_writer(#[trigger] slot_writers@[w], label, effects@[k]);
                assert(effect_reruns(effect_info@, effects@[k], t, param@, p));
                assert(sy);
            }
            if covered {
                let k = choose|k: int| 0 <= k < effects.len() && effect_reruns(effect_info@, #[trigger] effects@[k], bv, param@, p);
                assert(effects@.contains(effects@[k]));
                let w = choose|w: int| 0 <= w < slot_writers.len() && effect_writer(#[trigger] slot_writers@[w], label, effects@[k]);
                assert(effect_reruns(effect_info@, effects@[k], t, param@, p));
                assert(sy);
            }
            if sy && !render_write {
                let (w, e) = choose|w: int, e: HookLabel|
                    0 <= w < slot_writers.len() && #[trigger] effect_writer(slot_writers@[w], label, e) && effect_reruns(effect_info@, e, t, param@, p);
                assert(effects@.contains(e));
                let k = choose|k: int| 0 <= k < effects@.len() && effects@[k] == e;
                assert(effect_reruns(effect_info@, effects@[k], bv, param@, p));
                assert(covered);
            }
            assert(slot_row(*render_cfg, hooks@, param@, setter_labels@, slot_writers@, effect_info@, row));
        }
    row
}

/// Every prop-seeded slot of a component, with whether anything visibly
/// re-syncs it: one row per `(state slot, prop path its initializer reads)`,
/// ordered by slot, then by displayed path.
///
/// The render-time write and the effect write are read off the writer
/// relation by phase; an effect counts when it declares no deps list, or a
/// readable one whose entries cover the seed path (exact forms only).
pub fn collect_slot_seeds(
    render_cfg: &CFG,
    hooks: &Vec<HookEntry>,
    param: &Var,
    setter_labels: &LabelMap,
    slot_writers: &Vec<SlotWriter>,
    effect_info: &Vec<EffectInfo>,
) -> (r: Vec<SlotSeed>)
    ensures
        forall|i: int| 0 <= i < r.len() ==> slot_row(*render_cfg, hooks@, param@, setter_labels@, slot_writers@, effect_info@, #[trigger] r@[i]),
        forall|j: int, l: HookLabel, p: PathView|
            0 <= j < hooks.len() && #[trigger] state_seed_of(hooks@[j], l, body_table(*render_cfg), param@, p) ==> exists|i: int|
                0 <= i < r.len() && r@[i].slot == l && r@[i].path@ == p,
        forall|i: int, j: int| 0 <= i < j < r.len() ==> !row_lt(#[trigger] r@[j], #[trigger] r@[i]),
{
    let bindings = local_bindings(render_cfg);
    let ghost bv = bind_view(bindings@);
    let ghost t = body_table(*render_cfg);
    proof {
        assert forall|v: Seq<char>| #[trigger] single_rhs(bv, v) == single_rhs(t, v) by {
            lemma_local_table(*render_cfg, bindings@, v);
            lemma_body_table(*render_cfg, v);
        }
    }
    let ghost rw = (*render_cfg, hooks@, param@, setter_labels@, slot_writers@, effect_info@);
    let mut out: Vec<SlotSeed> = Vec::new();
    let mut j: usize = 0;
    while j < hooks.len()
        invariant
            j <= hooks.len(),
            bv == bind_view(bindings@),
            t == body_table(*render_cfg),
            forall|v: Seq<char>| #[trigger] single_rhs(bv, v) == single_rhs(t, v),
            forall|i: int| 0 <= i < out.len() ==> slot_row(*render_cfg, hooks@, param@, setter_labels@, slot_writers@, effect_info@, #[trigger] out@[i]),
            forall|jj: int, l: HookLabel, p: PathView|
                0 <= jj < j && #[trigger] state_seed_of(hooks@[jj], l, t, param@, p) ==> exists|i: int|
                    0 <= i < out.len() && out@[i].slot == l && out@[i].path@ == p,
            forall|a: int, c: int| 0 <= a < c < out.len() ==> !row_lt(#[trigger] out@[c], #[trigger] out@[a]),
        decreases hooks.len() - j,
    {
        match &hooks[j] {
            HookEntry::State { label, init, .. } => {
                let seeds = seed_paths(init, param, &bindings);
                if seeds.len() > 0 {
                    let aliases = aliases_exec(setter_labels, *label);
                    let render_write = any_render_write(slot_writers, *label);
                    let effects = effect_labels(slot_writers, *label);
                    let unconditional = any_unconditional(&effects, effect_info);
                    let escapes = setter_escapes(render_cfg, hooks, &aliases);
                    let mut s: usize = 0;
                    while s < seeds.len()
                        invariant
                            s <= seeds.len(),
                            j < hooks.len(),
                            hooks@[j as int] matches HookEntry::State { label: l0, init: i0, .. } && l0 == *label && i0 == *init,
                            bv == bind_view(bindings@),
                            t == body_table(*render_cfg),
                            forall|v: Seq<char>| #[trigger] single_rhs(bv, v) == single_rhs(t, v),
                            forall|k: int| 0 <= k < seeds.len() ==> seed_row(*init, bv, param@, #[trigger] seeds@[k]),
                            names(aliases@) == aliases_of(setter_labels@, *label),
                            render_write == exists|w: int| 0 <= w < slot_writers.len() && (#[trigger] slot_writers@[w]).slot == *label
                                && slot_writers@[w].phase == WriterPhase::Render,
                            forall|e: HookLabel| #[trigger] effects@.contains(e) <==> exists|w: int|
                                0 <= w < slot_writers.len() && effect_writer(#[trigger] slot_writers@[w], *label, e),
                            unconditional == exists|k: int| 0 <= k < effects.len() && declares_no_deps(#[trigger] info_of(effect_info@, effects@[k])),
                            escapes == setter_escapes_in(*render_cfg, hooks@, names(aliases@)),
                            forall|i: int| 0 <= i < out.len() ==> slot_row(*render_cfg, hooks@, param@, setter_labels@, slot_writers@, effect_info@, #[trigger] out@[i]),
                            forall|jj: int, l: HookLabel, p: PathView|
                                0 <= jj < j && #[trigger] state_seed_of(hooks@[jj], l, t, param@, p) ==> exists|i: int|
                                    0 <= i < out.len() && out@[i].slot == l && out@[i].path@ == p,
                            forall|k: int| 0 <= k < s ==> exists|i: int| 0 <= i < out.len() && out@[i].slot == *label && out@[i].path@ == (#[trigger] seeds@[k]).orig@,
                            forall|a: int, c: int| 0 <= a < c < out.len() ==> !row_lt(#[trigger] out@[c], #[trigger] out@[a]),
                        decreases seeds.len() - s,
                    {
                        let seed = &seeds[s];
                        let row = make_row(
                            render_cfg,
                            hooks,
                            param,
                            setter_labels,
                            slot_writers,
                            effect_info,
                            &bindings,
                            j,
                            *label,
                            init,
                            seed,
                            &aliases,
                            render_write,
                            &effects,
                            unconditional,
                            escapes,
                        );
                        let ghost ob = out@;
                        let at = insert_row(&mut out, row);
                        proof {
                            assert forall|i: int| 0 <= i < out.len() implies slot_row(*render_cfg, hooks@, param@, setter_labels@, slot_writers@, effect_info@, #[trigger] out@[i]) by {
                                if i < at {
                                    assert(out@[i] == ob[i]);
                                } else if i > at {
                                    assert(out@[i] == ob[i - 1]);
                                }
                            }
                            assert forall|jj: int, l: HookLabel, p: PathView|
                                0 <= jj < j && #[trigger] state_seed_of(hooks@[jj], l, t, param@, p) implies exists|i: int|
                                    0 <= i < out.len() && out@[i].slot == l && out@[i].path@ == p by {
                                let i = choose|i: int| 0 <= i < ob.len() && ob[i].slot == l && ob[i].path@ == p;
                                if i < at {
                                    assert(out@[i] == ob[i]);
                                } else {
                                    assert(out@[i + 1] == ob[i]);
                                }
                            }
                            assert forall|k: int| 0 <= k < s + 1 implies exists|i: int| 0 <= i < out.len() && out@[i].slot == *label && out@[i].path@ == (#[trigger] seeds@[k]).orig@ by {
                                if k < s {
                                    let i = choose|i: int| 0 <= i < ob.len() && ob[i].slot == *label && ob[i].path@ == seeds@[k].orig@;
                                    if i < at {
                                        assert(out@[i] == ob[i]);
                                    } else {
                                        assert(out@[i + 1] == ob[i]);
                                    }
                                } else {
                                    assert(out@[at as int] == row);
                                }
                            }
                        }
                        s = s + 1;
                    }
                    proof {
                        assert forall|l: HookLabel, p: PathView| #[trigger] state_seed_of(hooks@[j as int], l, t, param@, p) implies exists|i: int|
                            0 <= i < out.len() && out@[i].slot == l && out@[i].path@ == p by {
                            assert forall|q: PathView, e: bool| #[trigger] norm_has(bv, param@, Seq::empty(), p, q, e) == norm_has(t, param@, Seq::empty(), p, q, e) by {
                                lemma_norm_congruent(bv, t, param@, Seq::empty(), p, q, e);
                            }
                            let (q, e) = choose|q: PathView, e: bool| norm_has(t, param@, Seq::empty(), p, q, e);
                            assert(norm_has(bv, param@, Seq::empty(), p, q, e));
                            assert(is_seed_read(*init, bv, param@, p));
                            let k = choose|k: int| 0 <= k < seeds.len() && seeds@[k].orig@ == p;
                            assert(exists|i: int| 0 <= i < out.len() && out@[i].slot == *label && out@[i].path@ == seeds@[k].orig@);
                        }
                    }
                } else {
                    proof {
                        assert forall|l: HookLabel, p: PathView| !#[trigger] state_seed_of(hooks@[j as int], l, t, param@, p) by {
                            if state_seed_of(hooks@[j as int], l, t, param@, p) {
                                assert forall|q: PathView, e: bool| #[trigger] norm_has(bv, param@, Seq::empty(), p, q, e) == norm_has(t, param@, Seq::empty(), p, q, e) by {
                                    lemma_norm_congruent(bv, t, param@, Seq::empty(), p, q, e);
                                }
                                let (q, e) = choose|q: PathView, e: bool| norm_has(t, param@, Seq::empty(), p, q, e);
                                assert(norm_has(bv, param@, Seq::empty(), p, q, e));
                                assert(is_seed_read(*init, bv, param@, p));
                            }
                        }
                    }
                }
            },
            _ => {
                assert forall|l: HookLabel, p: PathView| !#[trigger] state_seed_of(hooks@[j as int], l, t, param@, p) by {}
            },
        }
        proof {
            assert forall|jj: int, l: HookLabel, p: PathView|
                0 <= jj < j + 1 && #[trigger] state_seed_of(hooks@[jj], l, t, param@, p) implies exists|i: int|
                    0 <= i < out.len() && out@[i].slot == l && out@[i].path@ == p by {
                if jj == j {
                    assert(state_seed_of(hooks@[j as int], l, t, param@, p));
                }
            }
        }
        j = j + 1;
    }
    out
}

} // verus!
