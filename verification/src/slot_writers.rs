//! The slot → writers relation: every write of a state slot in a component,
//! one row per call site, with its region, phase and provenance.
use std::sync::Arc;

use vstd::prelude::*;

use crate::cfg::CFG;
use crate::expr::{peeled, Expr};
use crate::hooks::{HookEntry, HookProvenance};
use crate::remap::copy_cfg;
use crate::setter_walk::{all_cfg_emit, binders_cfg, binds_from, block_fn_lets, callback_body, cfg_covered, collect_fn_bindings, collect_write_sites, fn_views, keeps_bindings, keys_of, lemma_cfg_covered_mono, lookup_callback, share, site_row, sites_of_walk, sites_sound, FoundSite, SiteKey, WriteSite};
use crate::splice::names;
use crate::bindings::certified_fn_binding;
use crate::setters::{bindings_in_blocks, class_phase, get_label, grows, label_of, label_table, label_wf, resolve_setter_aliases, setter_var_labels, BindingKind, InlineRegions, LabelMap, Reachability, SlotWriter, WalkClass, WriteProvenance, WriterPhase, WriterRegion};
use crate::source_range::SourceRange;
use crate::stmt::Stmt;
use crate::text::{lemma_seq_lt_order, seq_lt, str_eq, str_lt};
use crate::types::{BlockId, HookLabel, Symbol, Var};

verus! {

/// The label a right-hand side names when it is a memoized callback.
pub open spec fn callback_label(e: Expr) -> Option<HookLabel> {
    match peeled(e) {
        Expr::CallbackVal(l) => Some(l),
        _ => None,
    }
}

fn callback_label_exec(e: &Expr) -> (r: Option<HookLabel>)
    ensures
        r == callback_label(*e),
{
    match e.peel_ts() {
        Expr::CallbackVal(l) => Some(*l),
        _ => None,
    }
}

/// Record one binding of `var` to `rhs`: the count saturates at two, and a
/// name bound once keeps the callback label of its only right-hand side.
fn note_bind(out: &mut Vec<(Var, u8, Option<HookLabel>)>, var: &Var, rhs: &Expr) {
    let mut i: usize = 0;
    while i < out.len()
        invariant
            i <= out.len(),
        decreases out.len() - i,
    {
        if str_eq(out[i].0.as_str(), var.as_str()) {
            let entry = (out[i].0.clone(), 2u8, None);
            out.set(i, entry);
            return;
        }
        i = i + 1;
    }
    out.push((var.clone(), 1u8, callback_label_exec(rhs)));
}

/// Every `let` and assignment of `cfg`, and of the function literals that
/// are a right-hand side or one of its immediate operands, recursively.
fn scan_binds(cfg: &CFG, out: &mut Vec<(Var, u8, Option<HookLabel>)>)
    decreases cfg,
{
    let mut b: usize = 0;
    while b < cfg.blocks.len()
        invariant
            b <= cfg.blocks.len(),
        decreases cfg.blocks.len() - b,
    {
        proof {
            assert(decreases_to!(*cfg => cfg.blocks));
            assert(decreases_to!(cfg.blocks => cfg.blocks@));
            assert(decreases_to!(cfg.blocks@ => cfg.blocks@[b as int]));
        }
        let block = &cfg.blocks[b];
        let mut j: usize = 0;
        while j < block.stmts.len()
            invariant
                j <= block.stmts.len(),
                block == &cfg.blocks@[b as int],
                b < cfg.blocks.len(),
            decreases block.stmts.len() - j,
        {
            proof {
                assert(decreases_to!(cfg.blocks@[b as int] => cfg.blocks@[b as int].stmts));
                assert(decreases_to!(block.stmts => block.stmts@));
                assert(decreases_to!(block.stmts@ => block.stmts@[j as int]));
            }
            match &block.stmts[j] {
                Stmt::Let { var, rhs, .. } => {
                    note_bind(out, var, rhs);
                    scan_operands(rhs, out);
                    scan_if_literal(rhs, out);
                },
                Stmt::Assign { var, rhs, .. } => {
                    note_bind(out, var, rhs);
                    scan_operands(rhs, out);
                    scan_if_literal(rhs, out);
                },
                _ => {},
            }
            j = j + 1;
        }
        b = b + 1;
    }
}

/// Scan the body of `e` when it is a function literal.
fn scan_if_literal(e: &Expr, out: &mut Vec<(Var, u8, Option<HookLabel>)>)
    decreases e,
{
    match e {
        Expr::FnLit { body_cfg, .. } => scan_binds(&**body_cfg, out),
        _ => {},
    }
}

/// Scan the bodies of the function literals among `e`'s immediate operands.
fn scan_list(es: &Vec<Expr>, out: &mut Vec<(Var, u8, Option<HookLabel>)>)
    decreases es,
{
    let mut i: usize = 0;
    while i < es.len()
        invariant
            i <= es.len(),
        decreases es.len() - i,
    {
        proof {
            assert(decreases_to!(*es => es@));
            assert(decreases_to!(es@ => es@[i as int]));
        }
        scan_if_literal(&es[i], out);
        i = i + 1;
    }
}

/// Scan the bodies of the function literals among an object's members.
fn scan_fields(fields: &Vec<(crate::types::Symbol, Expr)>, out: &mut Vec<(Var, u8, Option<HookLabel>)>)
    decreases fields,
{
    let mut i: usize = 0;
    while i < fields.len()
        invariant
            i <= fields.len(),
        decreases fields.len() - i,
    {
        proof {
            assert(decreases_to!(*fields => fields@));
            assert(decreases_to!(fields@ => fields@[i as int]));
            assert(decreases_to!(fields@[i as int] => fields@[i as int].1));
        }
        scan_if_literal(&fields[i].1, out);
        i = i + 1;
    }
}

/// Scan the function-literal operands of `e` (one level down).
fn scan_operands(e: &Expr, out: &mut Vec<(Var, u8, Option<HookLabel>)>)
    decreases e,
{
    match e {
        Expr::ObjectLit { fields, .. } => scan_fields(fields, out),
        Expr::ArrayLit { elems, .. } => scan_list(elems, out),
        Expr::FieldAccess { obj, .. } => scan_if_literal(&**obj, out),
        Expr::IndexAccess { arr, idx } => {
            scan_if_literal(&**arr, out);
            scan_if_literal(&**idx, out);
        },
        Expr::BinOp { lhs, rhs, .. } => {
            scan_if_literal(&**lhs, out);
            scan_if_literal(&**rhs, out);
        },
        Expr::UnaryOp { arg, .. } => scan_if_literal(&**arg, out),
        Expr::Call { fn_, args } => {
            scan_if_literal(&**fn_, out);
            scan_list(args, out);
        },
        Expr::CompApp { props, .. } => scan_if_literal(&**props, out),
        Expr::NativeElem { props, children, .. } => {
            scan_if_literal(&**props, out);
            scan_list(children, out);
        },
        Expr::TSAnnotated(inner) => scan_if_literal(&**inner, out),
        _ => {},
    }
}

/// The body bound to a name is a memoized callback's body.
pub open spec fn is_callback_body(cb: Seq<(HookLabel, Arc<CFG>)>, e: (Var, Arc<CFG>)) -> bool {
    exists|l: HookLabel| callback_body(cb, l) == Some(*e.1)
}

/// Names bound exactly once, anywhere below `root` or a body of `also`, to
/// the result of a `useCallback` — each with that callback's body.
pub fn callback_bound_vars(
    root: &CFG,
    also: &Vec<&CFG>,
    callback_bodies: &Vec<(HookLabel, Arc<CFG>)>,
) -> (r: Vec<(Var, Arc<CFG>)>)
    ensures
        forall|i: int| 0 <= i < r.len() ==> is_callback_body(callback_bodies@, #[trigger] r@[i]),
{
    let mut binds: Vec<(Var, u8, Option<HookLabel>)> = Vec::new();
    scan_binds(root, &mut binds);
    let mut k: usize = 0;
    while k < also.len()
        invariant
            k <= also.len(),
        decreases also.len() - k,
    {
        scan_binds(also[k], &mut binds);
        k = k + 1;
    }
    let mut r: Vec<(Var, Arc<CFG>)> = Vec::new();
    let mut i: usize = 0;
    while i < binds.len()
        invariant
            i <= binds.len(),
            forall|q: int| 0 <= q < r.len() ==> is_callback_body(callback_bodies@, #[trigger] r@[q]),
        decreases binds.len() - i,
    {
        if binds[i].1 == 1 {
            match binds[i].2 {
                Some(l) => match lookup_callback(callback_bodies, l) {
                    Some(b) => {
                        let shared = share(b);
                        r.push((binds[i].0.clone(), shared));
                        proof {
                            assert(callback_body(callback_bodies@, l) == Some(*r@[r.len() - 1].1));
                            assert(is_callback_body(callback_bodies@, r@[r.len() - 1]));
                        }
                    },
                    None => {},
                },
                None => {},
            }
        }
        i = i + 1;
    }
    r
}


/// `w` stands for the site `s`: same setter, span, class and block.
pub open spec fn stands_for(w: WriteSite, s: WriteSite) -> bool {
    &&& w.var@ == s.var@
    &&& w.span == s.span
    &&& w.class == s.class
    &&& w.prov_block == s.prov_block
}

/// `a` and `b` are the same source write: same setter, same span (a site
/// with no span is never the same as another) and same class.
pub open spec fn same_write(a: WriteSite, b: WriteSite) -> bool {
    a.span is Some && a.var@ == b.var@ && a.span == b.span && a.class == b.class
}

fn span_eq(a: Option<SourceRange>, b: Option<SourceRange>) -> (r: bool)
    ensures
        r == (a == b),
{
    match (a, b) {
        (Some(x), Some(y)) => x.file.0 == y.file.0 && x.line == y.line && x.col == y.col,
        (None, None) => true,
        _ => false,
    }
}

fn same_write_exec(a: &WriteSite, b: &WriteSite) -> (r: bool)
    ensures
        r == same_write(*a, *b),
{
    a.span.is_some() && str_eq(a.var.as_str(), b.var.as_str()) && span_eq(a.span, b.span) && a.class == b.class
}

/// `w` is the row kept for the site `s`: `s` itself, or the first site of
/// the same write.
pub open spec fn covers_site(w: WriteSite, s: WriteSite) -> bool {
    stands_for(w, s) || same_write(s, w)
}

/// Two sites naming the same span in the same class are one write, which a
/// local helper called twice produces: they collapse into the first, which
/// is marked as repeating. A site with no span is kept as it is.
/// Which sites stay (`keep`) and which kept sites absorb a later copy of
/// their write (`rep`).
fn dedup_plan(sites: &Vec<WriteSite>) -> (res: (Vec<bool>, Vec<bool>))
    ensures
        res.0.len() == sites.len(),
        res.1.len() == sites.len(),
        forall|a: int|
            0 <= a < sites.len() && !res.0@[a] ==> exists|j: int|
                0 <= j < a && res.0@[j] && #[trigger] same_write(sites@[j], sites@[a]),
{
    let n = sites.len();
    let mut keep: Vec<bool> = Vec::new();
    let mut rep: Vec<bool> = Vec::new();
    let mut i: usize = 0;
    while i < n
        invariant
            n == sites.len(),
            i <= n,
            keep.len() == i,
            rep.len() == i,
            forall|a: int| 0 <= a < i && !keep@[a] ==> exists|j: int| 0 <= j < a && keep@[j] && #[trigger] same_write(sites@[j], sites@[a]),
        decreases n - i,
    {
        let mut found: Option<usize> = None;
        if sites[i].span.is_some() {
            let mut j: usize = 0;
            while j < i && found.is_none()
                invariant
                    j <= i,
                    i < n,
                    n == sites.len(),
                    keep.len() == i,
                    found matches Some(f) ==> f < i && keep@[f as int] && same_write(sites@[f as int], sites@[i as int]),
                decreases i - j,
            {
                if keep[j] && same_write_exec(&sites[j], &sites[i]) {
                    found = Some(j);
                }
                j = j + 1;
            }
        }
        let ghost kb = keep@;
        match found {
            Some(f) => {
                keep.push(false);
                rep.set(f, true);
                rep.push(false);
            },
            None => {
                keep.push(true);
                rep.push(false);
            },
        }
        proof {
            assert forall|a: int| 0 <= a < i + 1 && !keep@[a] implies exists|j: int|
                0 <= j < a && keep@[j] && #[trigger] same_write(sites@[j], sites@[a]) by {
                if a < i {
                    let j = choose|j: int| 0 <= j < a && kb[j] && #[trigger] same_write(sites@[j], sites@[a]);
                    assert(keep@[j]);
                } else {
                    let f = found->0 as int;
                    assert(keep@[f]);
                    assert(same_write(sites@[f], sites@[a]));
                }
            }
        }
        i = i + 1;
    }
    (keep, rep)
}

/// Build the rows the plan keeps, in order, each kept site marked as
/// repeating where the plan says so; `src` maps each row to its site and
/// `pos` each kept site to its row.
fn dedup_apply(sites: Vec<WriteSite>, keep: &Vec<bool>, rep: &Vec<bool>, Ghost(orig): Ghost<Seq<WriteSite>>) -> (res: (
    Vec<WriteSite>,
    Ghost<Seq<int>>,
    Ghost<Seq<int>>,
))
    requires
        sites@ == orig,
        keep.len() == orig.len(),
        rep.len() == orig.len(),
    ensures
        res.1@.len() == res.0.len(),
        res.2@.len() == orig.len(),
        forall|q: int| 0 <= q < res.0.len() ==> 0 <= #[trigger] res.1@[q] < orig.len() && stands_for(res.0@[q], orig[res.1@[q]]),
        forall|a: int|
            0 <= a < orig.len() && keep@[a] ==> 0 <= #[trigger] res.2@[a] < res.0.len() && stands_for(res.0@[res.2@[a]], orig[a]),
{
    let n = sites.len();
    let mut rest = sites;
    let mut out: Vec<WriteSite> = Vec::new();
    let ghost mut pos: Seq<int> = Seq::empty();
    let ghost mut src: Seq<int> = Seq::empty();
    let mut t: usize = 0;
    while t < n
        invariant
            n == orig.len(),
            t <= n,
            keep.len() == n,
            rep.len() == n,
            rest@ == orig.subrange(t as int, n as int),
            pos.len() == t,
            src.len() == out.len(),
            forall|q: int| 0 <= q < out.len() ==> 0 <= #[trigger] src[q] < t && stands_for(out@[q], orig[src[q]]),
            forall|a: int| 0 <= a < t && keep@[a] ==> 0 <= #[trigger] pos[a] < out.len() && stands_for(out@[pos[a]], orig[a]),
        decreases n - t,
    {
        let ghost ob = out@;
        assert(rest@[0] == orig[t as int]);
        let s = rest.remove(0);
        if keep[t] {
            let repeats = s.repeats || rep[t];
            out.push(WriteSite {
                var: s.var,
                span: s.span,
                class: s.class,
                prov_block: s.prov_block,
                repeats,
                updater: s.updater,
            });
            proof {
                pos = pos.push(ob.len() as int);
                src = src.push(t as int);
            }
        } else {
            proof {
                pos = pos.push(0);
            }
        }
        proof {
            assert(rest@ =~= orig.subrange(t + 1, n as int));
            assert forall|q: int| 0 <= q < out.len() implies 0 <= #[trigger] src[q] < t + 1 && stands_for(out@[q], orig[src[q]]) by {
                if q < ob.len() {
                    assert(out@[q] == ob[q]);
                }
            }
            assert forall|a: int| 0 <= a < t + 1 && keep@[a] implies 0 <= #[trigger] pos[a] < out.len() && stands_for(out@[pos[a]], orig[a]) by {
                if a < t {
                    assert(out@[pos[a]] == ob[pos[a]]);
                }
            }
        }
        t = t + 1;
    }
    (out, Ghost(src), Ghost(pos))
}

/// Two sites naming the same span in the same class are one write, which a
/// local helper called twice produces: they collapse into the first, which
/// is marked as repeating. A site with no span is kept as it is. `src` maps
/// each row to the site it stands for, `cov` each site to its row.
fn dedup_source_sites(sites: Vec<WriteSite>, Ghost(orig): Ghost<Seq<WriteSite>>) -> (res: (
    Vec<WriteSite>,
    Ghost<Seq<int>>,
    Ghost<Seq<int>>,
))
    requires
        sites@ == orig,
    ensures
        res.1@.len() == res.0.len(),
        forall|q: int| 0 <= q < res.0.len() ==> 0 <= #[trigger] res.1@[q] < orig.len() && stands_for(res.0@[q], orig[res.1@[q]]),
        res.2@.len() == orig.len(),
        forall|a: int| 0 <= a < orig.len() ==> 0 <= #[trigger] res.2@[a] < res.0.len() && covers_site(res.0@[res.2@[a]], orig[a]),
{
    let (keep, rep) = dedup_plan(&sites);
    let (out, Ghost(src), Ghost(pos)) = dedup_apply(sites, &keep, &rep, Ghost(orig));
    let ghost cov = Seq::new(
        orig.len(),
        |a: int|
            if keep@[a] {
                pos[a]
            } else {
                pos[choose|j: int| 0 <= j < a && keep@[j] && #[trigger] same_write(orig[j], orig[a])]
            },
    );
    proof {
        assert forall|a: int| 0 <= a < orig.len() implies 0 <= #[trigger] cov[a] < out.len() && covers_site(out@[cov[a]], orig[a]) by {
            if !keep@[a] {
                let j = choose|j: int| 0 <= j < a && keep@[j] && #[trigger] same_write(orig[j], orig[a]);
                assert(stands_for(out@[pos[j]], orig[j]));
            }
        }
    }
    (out, Ghost(src), Ghost(cov))
}


// ── The relation ────────────────────────────────────────────────────────────

/// The region a hook's body is, for the kinds that have a body.
pub open spec fn hook_region(h: HookEntry) -> Option<WriterRegion> {
    match h {
        HookEntry::Effect { label, .. } => Some(WriterRegion::Effect(label)),
        HookEntry::Memo { label, .. } => Some(WriterRegion::Memo(label)),
        HookEntry::Callback { label, .. } => Some(WriterRegion::Callback(label)),
        HookEntry::Handler { label, .. } => Some(WriterRegion::Handler(label)),
        _ => None,
    }
}

/// A region a row may carry: the render body, or the body of one of `hooks`.
pub open spec fn region_of_hooks(hooks: Seq<HookEntry>, r: WriterRegion) -> bool {
    r is Render || exists|h: int| 0 <= h < hooks.len() && hook_region(#[trigger] hooks[h]) == Some(r)
}

/// The phase of a write synchronous in `r`.
pub open spec fn sync_phase_of(r: WriterRegion) -> WriterPhase {
    match r {
        WriterRegion::Render => WriterPhase::Render,
        WriterRegion::Effect(_) => WriterPhase::Effect,
        WriterRegion::Memo(_) => WriterPhase::Memo,
        WriterRegion::Callback(_) => WriterPhase::Callback,
        WriterRegion::Handler(_) => WriterPhase::Handler,
    }
}

/// A phase a write in `r` may have: its region's synchronous phase, or
/// deferred, handler, cleanup or unknown.
pub open spec fn phase_fits(r: WriterRegion, p: WriterPhase) -> bool {
    p == sync_phase_of(r) || p is Deferred || p is Handler || p is Cleanup || p is Unknown
}

/// Rank of a region's kind, in declaration order.
pub open spec fn region_rank(r: WriterRegion) -> int {
    match r {
        WriterRegion::Render => 0,
        WriterRegion::Effect(_) => 1,
        WriterRegion::Memo(_) => 2,
        WriterRegion::Callback(_) => 3,
        WriterRegion::Handler(_) => 4,
    }
}

/// The label of a hook region; 0 for the render body.
pub open spec fn region_label(r: WriterRegion) -> int {
    match r {
        WriterRegion::Render => 0,
        WriterRegion::Effect(l) => l as int,
        WriterRegion::Memo(l) => l as int,
        WriterRegion::Callback(l) => l as int,
        WriterRegion::Handler(l) => l as int,
    }
}

/// Rank of a phase, in declaration order.
pub open spec fn phase_rank(p: WriterPhase) -> int {
    match p {
        WriterPhase::Render => 0,
        WriterPhase::Effect => 1,
        WriterPhase::Memo => 2,
        WriterPhase::Callback => 3,
        WriterPhase::Handler => 4,
        WriterPhase::Deferred => 5,
        WriterPhase::Cleanup => 6,
        WriterPhase::Unknown => 7,
    }
}

/// A span's position key: `(line, col)`, or past every position for none.
pub open spec fn span_line(s: Option<SourceRange>) -> int {
    match s {
        Some(r) => r.line as int,
        None => u32::MAX as int,
    }
}

/// See [`span_line`].
pub open spec fn span_col(s: Option<SourceRange>) -> int {
    match s {
        Some(r) => r.col as int,
        None => u32::MAX as int,
    }
}

/// `a` sorts strictly before `b` by (slot, region, phase, span position,
/// setter).
pub open spec fn writer_lt(a: SlotWriter, b: SlotWriter) -> bool {
    if a.slot != b.slot {
        a.slot < b.slot
    } else if region_rank(a.region) != region_rank(b.region) {
        region_rank(a.region) < region_rank(b.region)
    } else if region_label(a.region) != region_label(b.region) {
        region_label(a.region) < region_label(b.region)
    } else if phase_rank(a.phase) != phase_rank(b.phase) {
        phase_rank(a.phase) < phase_rank(b.phase)
    } else if span_line(a.span) != span_line(b.span) {
        span_line(a.span) < span_line(b.span)
    } else if span_col(a.span) != span_col(b.span) {
        span_col(a.span) < span_col(b.span)
    } else {
        seq_lt(a.setter@, b.setter@)
    }
}

/// The order is irreflexive and transitive.
pub proof fn lemma_writer_lt(a: SlotWriter, b: SlotWriter, c: SlotWriter)
    ensures
        !writer_lt(a, a),
        writer_lt(a, b) && writer_lt(b, c) ==> writer_lt(a, c),
{
    lemma_seq_lt_order(a.setter@, b.setter@, c.setter@);
    lemma_seq_lt_order(a.setter@, a.setter@, a.setter@);
}

/// Rows in (slot, region, phase, span position, setter) order.
pub open spec fn writers_sorted(r: Seq<SlotWriter>) -> bool {
    forall|i: int, j: int| 0 <= i < j < r.len() ==> !writer_lt(#[trigger] r[j], #[trigger] r[i])
}

fn region_rank_exec(r: WriterRegion) -> (x: (u8, usize))
    ensures
        x.0 as int == region_rank(r),
        x.1 as int == region_label(r),
{
    match r {
        WriterRegion::Render => (0, 0),
        WriterRegion::Effect(l) => (1, l),
        WriterRegion::Memo(l) => (2, l),
        WriterRegion::Callback(l) => (3, l),
        WriterRegion::Handler(l) => (4, l),
    }
}

fn phase_rank_exec(p: WriterPhase) -> (x: u8)
    ensures
        x as int == phase_rank(p),
{
    match p {
        WriterPhase::Render => 0,
        WriterPhase::Effect => 1,
        WriterPhase::Memo => 2,
        WriterPhase::Callback => 3,
        WriterPhase::Handler => 4,
        WriterPhase::Deferred => 5,
        WriterPhase::Cleanup => 6,
        WriterPhase::Unknown => 7,
    }
}

fn span_key_exec(s: Option<SourceRange>) -> (x: (u32, u32))
    ensures
        x.0 as int == span_line(s),
        x.1 as int == span_col(s),
{
    match s {
        Some(r) => (r.line, r.col),
        None => (u32::MAX, u32::MAX),
    }
}

fn writer_lt_exec(a: &SlotWriter, b: &SlotWriter) -> (r: bool)
    ensures
        r == writer_lt(*a, *b),
{
    if a.slot != b.slot {
        return a.slot < b.slot;
    }
    let ra = region_rank_exec(a.region);
    let rb = region_rank_exec(b.region);
    if ra.0 != rb.0 {
        return ra.0 < rb.0;
    }
    if ra.1 != rb.1 {
        return ra.1 < rb.1;
    }
    let pa = phase_rank_exec(a.phase);
    let pb = phase_rank_exec(b.phase);
    if pa != pb {
        return pa < pb;
    }
    let sa = span_key_exec(a.span);
    let sb = span_key_exec(b.span);
    if sa.0 != sb.0 {
        return sa.0 < sb.0;
    }
    if sa.1 != sb.1 {
        return sa.1 < sb.1;
    }
    str_lt(a.setter.as_str(), b.setter.as_str())
}

/// Insert `w` into the sorted `out` after every row not after it.
fn insert_sorted(out: &mut Vec<SlotWriter>, w: SlotWriter)
    requires
        writers_sorted(old(out)@),
    ensures
        writers_sorted(final(out)@),
        final(out)@.len() == old(out)@.len() + 1,
        forall|x: SlotWriter| #[trigger] final(out)@.contains(x) <==> old(out)@.contains(x) || x == w,
{
    let mut p: usize = 0;
    while p < out.len() && !writer_lt_exec(&w, &out[p])
        invariant
            p <= out.len(),
            forall|k: int| 0 <= k < p ==> !writer_lt(w, #[trigger] out@[k]),
        decreases out.len() - p,
    {
        p = p + 1;
    }
    let ghost o = out@;
    out.insert(p, w);
    proof {
        assert forall|i: int, j: int| 0 <= i < j < out@.len() implies !writer_lt(#[trigger] out@[j], #[trigger] out@[i]) by {
            if j < p {
                assert(out@[i] == o[i] && out@[j] == o[j]);
            } else if j == p {
                assert(out@[i] == o[i]);
            } else if i == p {
                assert(out@[j] == o[j - 1]);
                if writer_lt(o[j - 1], w) {
                    if p < o.len() {
                        assert(writer_lt(w, o[p as int]));
                        lemma_writer_lt(o[j - 1], w, o[p as int]);
                        if j - 1 > p {
                            assert(!writer_lt(o[j - 1], o[p as int]));
                        } else {
                            lemma_writer_lt(o[p as int], o[p as int], o[p as int]);
                        }
                    }
                }
            } else if i < p {
                assert(out@[i] == o[i] && out@[j] == o[j - 1]);
            } else {
                assert(out@[i] == o[i - 1] && out@[j] == o[j - 1]);
            }
        }
        assert(out@ == o.insert(p as int, w));
        assert forall|x: SlotWriter| #[trigger] out@.contains(x) <==> o.contains(x) || x == w by {
            if out@.contains(x) {
                let k = choose|k: int| 0 <= k < out@.len() && out@[k] == x;
                if k < p {
                    assert(o[k] == x);
                } else if k > p {
                    assert(o[k - 1] == x);
                }
            }
            if o.contains(x) {
                let k = choose|k: int| 0 <= k < o.len() && o[k] == x;
                if k < p {
                    assert(out@[k] == x);
                } else {
                    assert(out@[k + 1] == x);
                }
            }
            if x == w {
                assert(out@[p as int] == x);
            }
        }
    }
}


/// `x` is a row of `region`: its slot is the label of its setter in
/// `labels`, its phase fits the region, and a render row under a poisoned
/// render body is never `Direct`.
pub open spec fn row_ok(x: SlotWriter, region: WriterRegion, labels: Seq<(Var, HookLabel)>, poisoned: bool) -> bool {
    &&& x.region == region
    &&& phase_fits(region, x.phase)
    &&& label_of(labels, x.setter@) == Some(x.slot)
    &&& (poisoned && region is Render ==> !(x.via is Direct))
}

/// The (setter, span) pairs of the rows of `region`.
pub open spec fn row_keys(rows: Seq<SlotWriter>, region: WriterRegion) -> Set<SiteKey> {
    Set::new(|p: SiteKey| exists|x: SlotWriter| #[trigger] rows.contains(x) && x.region == region && x.setter@ == p.0 && x.span == p.1)
}

/// The setters a label table names.
pub open spec fn label_names(lm: Seq<(Var, HookLabel)>) -> Seq<Seq<char>> {
    lm.map_values(|e: (Var, HookLabel)| e.0@)
}

/// Every setter a label table names has a label.
pub proof fn lemma_label_names(lm: Seq<(Var, HookLabel)>, v: Seq<char>)
    requires
        label_names(lm).contains(v),
    ensures
        label_of(lm, v) is Some,
    decreases lm.len(),
{
    let k = choose|k: int| 0 <= k < label_names(lm).len() && label_names(lm)[k] == v;
    if lm.last().0@ != v {
        assert(k < lm.len() - 1);
        assert(label_names(lm.drop_last())[k] == v);
        lemma_label_names(lm.drop_last(), v);
    }
}

/// Rows kept stay kept: a larger row list has every key of a smaller one.
proof fn lemma_row_keys_grow(a: Seq<SlotWriter>, b: Seq<SlotWriter>, region: WriterRegion)
    requires
        forall|x: SlotWriter| a.contains(x) ==> #[trigger] b.contains(x),
    ensures
        row_keys(a, region).subset_of(row_keys(b, region)),
{
    assert forall|p: SiteKey| row_keys(a, region).contains(p) implies row_keys(b, region).contains(p) by {
        let x = choose|x: SlotWriter| #[trigger] a.contains(x) && x.region == region && x.setter@ == p.0 && x.span == p.1;
        assert(b.contains(x));
    }
}

/// The origin hook of the first inlined provenance recorded for `label`.
fn inlined_origin(prov: &Vec<HookProvenance>, label: HookLabel) -> (r: Option<Symbol>) {
    let mut i: usize = 0;
    while i < prov.len()
        invariant
            i <= prov.len(),
        decreases prov.len() - i,
    {
        if prov[i].label == label && prov[i].inlined {
            return Some(prov[i].origin_hook.clone());
        }
        i = i + 1;
    }
    None
}

/// Whether another synchronous write of `slot` in this region may land in
/// the same tick as a synchronous write at block `b`: two sites in `b`, `b`
/// on a cycle, or a path between `b` and another site of the slot.
fn same_tick_at(sync_blocks: &Vec<(HookLabel, BlockId)>, slot: HookLabel, b: BlockId, reach: &Reachability) -> bool {
    if reach.reaches(b, b) {
        return true;
    }
    let mut count: usize = 0;
    let mut i: usize = 0;
    while i < sync_blocks.len()
        invariant
            i <= sync_blocks.len(),
            count <= i,
        decreases sync_blocks.len() - i,
    {
        if sync_blocks[i].0 == slot {
            let t = sync_blocks[i].1;
            if t == b {
                count = count + 1;
            }
            if reach.reaches(b, t) || reach.reaches(t, b) {
                return true;
            }
        }
        i = i + 1;
    }
    count > 1
}

/// Add the rows of one region to `out`, in order.
fn region_rows(
    region: WriterRegion,
    cfg: &CFG,
    cfg_key: Option<HookLabel>,
    hook_origin: Option<Symbol>,
    labels: &LabelMap,
    setter_vars: &Vec<Var>,
    shadowed: &Vec<Var>,
    outer_fns: &Vec<(Var, Arc<CFG>)>,
    callback_bodies: &Vec<(HookLabel, Arc<CFG>)>,
    regions: &InlineRegions,
    out: &mut Vec<SlotWriter>,
)
    requires
        regions.wf(),
        writers_sorted(old(out)@),
        region is Render <==> cfg_key is None,
        region is Render ==> hook_origin is None,
        forall|v: Seq<char>| #[trigger] names(setter_vars@).contains(v) ==> label_of(labels@, v) is Some,
    ensures
        writers_sorted(final(out)@),
        !(region is Effect) ==> exists|fbs: Seq<(Seq<char>, CFG)>|
            #[trigger] keeps_bindings(fbs, block_fn_lets(cfg.blocks@)) && cfg_covered(
                names(setter_vars@),
                fbs,
                *cfg,
                2,
                Seq::empty(),
                row_keys(final(out)@, region),
            ),
        forall|x: SlotWriter| old(out)@.contains(x) ==> #[trigger] final(out)@.contains(x),
        forall|x: SlotWriter|
            #[trigger] final(out)@.contains(x) ==> old(out)@.contains(x) || row_ok(x, region, labels@, regions.render_poisoned),
{
    let effect_body = match region {
        WriterRegion::Effect(_) => true,
        _ => false,
    };
    let sites = collect_write_sites(cfg, setter_vars, 2, effect_body, shadowed, outer_fns, callback_bodies);
    let ghost sv = sites@;
    let ghost (found, fbs) = choose|found: Seq<FoundSite>, fbs: Seq<(Seq<char>, CFG)>|
        #[trigger] sites_of_walk(found, sv) && #[trigger] keeps_bindings(fbs, block_fn_lets(cfg.blocks@))
            && sites_sound(found, names(setter_vars@)) && binds_from(fbs, block_fn_lets(cfg.blocks@), fn_views(outer_fns@))
            && all_cfg_emit(found, 0, names(setter_vars@), fbs, *cfg, 2, Seq::empty(), effect_body)
            && (!effect_body ==> cfg_covered(names(setter_vars@), fbs, *cfg, 2, Seq::empty(), keys_of(found, 0)));
    let (sites, Ghost(src), Ghost(cov)) = dedup_source_sites(sites, Ghost(sv));
    let ghost dd = sites@;
    proof {
        assert forall|q: int| 0 <= q < dd.len() implies names(setter_vars@).contains(#[trigger] dd[q].var@) by {
            assert(stands_for(dd[q], sv[src[q]]));
        }
    }
    let mut sync_blocks: Vec<(HookLabel, BlockId)> = Vec::new();
    let mut i: usize = 0;
    while i < sites.len()
        invariant
            i <= sites.len(),
        decreases sites.len() - i,
    {
        if sites[i].class == WalkClass::Sync {
            match (get_label(labels, &sites[i].var), sites[i].prov_block) {
                (Some(slot), Some(b)) => sync_blocks.push((slot, b)),
                _ => {},
            }
        }
        i = i + 1;
    }
    let reach = Reachability::of(cfg);
    let n = sites.len();
    let mut rest = sites;
    let mut t: usize = 0;
    let ghost o0 = out@;
    while t < n
        invariant
            t <= n,
            n == dd.len(),
            rest@ == dd.subrange(t as int, n as int),
            forall|v: Seq<char>| #[trigger] names(setter_vars@).contains(v) ==> label_of(labels@, v) is Some,
            forall|q: int| 0 <= q < dd.len() ==> names(setter_vars@).contains(#[trigger] dd[q].var@),
            forall|q: int| 0 <= q < t ==> row_keys(out@, region).contains(key_of_site(#[trigger] dd[q])),
            regions.wf(),
            writers_sorted(out@),
            region is Render <==> cfg_key is None,
            region is Render ==> hook_origin is None,
            forall|x: SlotWriter| old(out)@.contains(x) ==> #[trigger] out@.contains(x),
            forall|x: SlotWriter|
                #[trigger] out@.contains(x) ==> old(out)@.contains(x) || row_ok(x, region, labels@, regions.render_poisoned),
        decreases n - t,
    {
        proof {
            assert(rest@[0] == dd[t as int]);
        }
        let site = rest.remove(0);
        proof {
            assert(rest@ =~= dd.subrange(t + 1, n as int));
            assert(names(setter_vars@).contains(dd[t as int].var@));
        }
        t = t + 1;
        let slot = match get_label(labels, &site.var) {
            Some(l) => l,
            None => continue,
        };
        let same_tick = site.repeats || (site.class == WalkClass::Sync && match site.prov_block {
            Some(b) => same_tick_at(&sync_blocks, slot, b, &reach),
            None => false,
        });
        let mut chain: Vec<Symbol> = Vec::new();
        match &hook_origin {
            Some(o) => chain.push(o.clone()),
            None => {},
        }
        let via = match site.prov_block {
            Some(b) => {
                let c = regions.chain(cfg_key, b);
                let mut k: usize = 0;
                while k < c.len()
                    invariant
                        k <= c.len(),
                        chain.len() >= k,
                        hook_origin is Some ==> chain.len() >= 1,
                    decreases c.len() - k,
                {
                    chain.push(c[k].clone());
                    k = k + 1;
                }
                if chain.len() == 0 {
                    if cfg_key.is_none() && regions.render_poisoned {
                        WriteProvenance::Unknown
                    } else {
                        WriteProvenance::Direct
                    }
                } else {
                    WriteProvenance::Via(chain)
                }
            },
            None => if chain.len() == 0 {
                WriteProvenance::Unknown
            } else {
                WriteProvenance::Via(chain)
            },
        };
        let row = SlotWriter {
            slot,
            setter: site.var,
            span: site.span,
            region,
            phase: class_phase(site.class, region),
            via,
            updater: site.updater,
            same_tick,
        };
        let ghost ob = out@;
        let ghost rw = row;
        insert_sorted(out, row);
        proof {
            assert(out@.contains(rw));
            lemma_row_keys_grow(ob, out@, region);
            assert(row_keys(out@, region).contains(key_of_site(dd[t - 1])));
            assert forall|x: SlotWriter| #[trigger] out@.contains(x) implies old(out)@.contains(x) || row_ok(
                x,
                region,
                labels@,
                regions.render_poisoned,
            ) by {
                if x != row {
                    assert(ob.contains(x));
                }
            }
            assert forall|x: SlotWriter| old(out)@.contains(x) implies #[trigger] out@.contains(x) by {
                assert(ob.contains(x));
            }
        }
    }
    proof {
        if !effect_body {
            assert forall|p: SiteKey| keys_of(found, 0).contains(p) implies row_keys(out@, region).contains(p) by {
                let k = choose|k: int| 0 <= k < found.len() && #[trigger] found[k].var@ == p.0 && found[k].span == p.1;
                assert(site_row(sv[k], found[k]));
                assert(covers_site(dd[cov[k]], sv[k]));
                assert(row_keys(out@, region).contains(key_of_site(dd[cov[k]])));
            }
            lemma_cfg_covered_mono(names(setter_vars@), fbs, *cfg, 2, Seq::empty(), keys_of(found, 0), row_keys(out@, region));
        }
    }
}

/// A site's (setter, span) pair.
pub open spec fn key_of_site(s: WriteSite) -> SiteKey {
    (s.var@, s.span)
}

/// Every write of a state slot in the component, one row per call site,
/// sorted by (slot, region, phase, span position, setter): the slot is the
/// label its setter carries once aliases are resolved through the render
/// body and every hook body; the region is the body the write sits in; the
/// phase is the walk's class read in that region; the provenance names the
/// inlined wrappers the site sits in (never `Direct` where the render body
/// was grafted by a fallback); a write of the same slot in the same region
/// that may land in the same tick is flagged.
pub fn collect_slot_writers(
    render_cfg: &CFG,
    hooks: &Vec<HookEntry>,
    regions: &InlineRegions,
    hook_provenance: &Vec<HookProvenance>,
) -> (r: Vec<SlotWriter>)
    requires
        regions.wf(),
    ensures
        writers_sorted(r@),
        forall|q: int| 0 <= q < r.len() ==> region_of_hooks(hooks@, #[trigger] r@[q].region),
        forall|q: int| 0 <= q < r.len() ==> phase_fits(#[trigger] r@[q].region, r@[q].phase),
        forall|q: int| 0 <= q < r.len() && regions.render_poisoned && (#[trigger] r@[q]).region is Render ==> !(r@[q].via is Direct),
        exists|lm: Seq<(Var, HookLabel)>|
            #[trigger] slot_labels_ok(lm, *render_cfg) && (forall|q: int|
                0 <= q < r.len() ==> label_of(lm, (#[trigger] r@[q]).setter@) == Some(r@[q].slot)) && region_covered(
                lm,
                *render_cfg,
                WriterRegion::Render,
                r@,
            ) && forall|h: int| 0 <= h < hooks.len() ==> hook_covered(lm, #[trigger] hooks@[h], r@),
{
    let mut labels = setter_var_labels(render_cfg);
    let ghost base = labels@;
    labels = resolve_setter_aliases(render_cfg, &labels);
    let mut h: usize = 0;
    while h < hooks.len()
        invariant
            h <= hooks.len(),
            label_wf(labels@),
            grows(base, labels@),
        decreases hooks.len() - h,
    {
        match hooks[h].body_cfg() {
            Some(body) => {
                let ghost before = labels@;
                labels = resolve_setter_aliases(body, &labels);
                assert forall|v: Seq<char>| #[trigger] label_of(base, v) is Some implies label_of(labels@, v) == label_of(base, v) by {
                    assert(label_of(before, v) == label_of(base, v));
                }
            },
            None => {},
        }
        h = h + 1;
    }
    let mut shadowed: Vec<Var> = Vec::new();
    binders_cfg(render_cfg, &mut shadowed);
    let mut hook_bodies: Vec<&CFG> = Vec::new();
    let mut callback_bodies: Vec<(HookLabel, Arc<CFG>)> = Vec::new();
    let mut h: usize = 0;
    while h < hooks.len()
        invariant
            h <= hooks.len(),
        decreases hooks.len() - h,
    {
        match &hooks[h] {
            HookEntry::Callback { label, body_cfg, .. } => {
                callback_bodies.push((*label, Arc::new(copy_cfg(body_cfg))));
            },
            _ => {},
        }
        match hooks[h].body_cfg() {
            Some(body) => {
                binders_cfg(body, &mut shadowed);
                hook_bodies.push(body);
            },
            None => {},
        }
        h = h + 1;
    }
    let render_fns = collect_fn_bindings(render_cfg);
    let mut outer_fns: Vec<(Var, Arc<CFG>)> = Vec::new();
    let mut k: usize = 0;
    while k < render_fns.len()
        invariant
            k <= render_fns.len(),
        decreases render_fns.len() - k,
    {
        if certified_fn_binding(render_fns[k].0.as_str(), render_cfg, hook_bodies.as_slice()).is_some() {
            outer_fns.push((render_fns[k].0.clone(), share(&render_fns[k].1)));
        }
        k = k + 1;
    }
    let bound = callback_bound_vars(render_cfg, &hook_bodies, &callback_bodies);
    let mut k: usize = 0;
    while k < bound.len()
        invariant
            k <= bound.len(),
        decreases bound.len() - k,
    {
        outer_fns.push((bound[k].0.clone(), share(&bound[k].1)));
        k = k + 1;
    }
    let mut setter_vars: Vec<Var> = Vec::new();
    let mut i: usize = 0;
    while i < labels.len()
        invariant
            i <= labels.len(),
            setter_vars.len() == i,
            forall|j: int| 0 <= j < i ==> #[trigger] setter_vars@[j]@ == labels@[j].0@,
        decreases labels.len() - i,
    {
        setter_vars.push(labels[i].0.clone());
        i = i + 1;
    }
    proof {
        assert(names(setter_vars@) =~= label_names(labels@));
        assert forall|v: Seq<char>| #[trigger] names(setter_vars@).contains(v) implies label_of(labels@, v) is Some by {
            let k = choose|k: int| 0 <= k < names(setter_vars@).len() && names(setter_vars@)[k] == v;
            assert(setter_vars@[k]@ == labels@[k].0@);
            assert(label_names(labels@)[k] == v);
            lemma_label_names(labels@, v);
        }
    }
    let mut out: Vec<SlotWriter> = Vec::new();
    region_rows(
        WriterRegion::Render,
        render_cfg,
        None,
        None,
        &labels,
        &setter_vars,
        &shadowed,
        &outer_fns,
        &callback_bodies,
        regions,
        &mut out,
    );
    let mut h: usize = 0;
    while h < hooks.len()
        invariant
            h <= hooks.len(),
            regions.wf(),
            writers_sorted(out@),
            forall|x: SlotWriter| #[trigger] out@.contains(x) ==> region_of_hooks(hooks@, x.region) && row_ok(x, x.region, labels@, regions.render_poisoned),
            forall|v: Seq<char>| #[trigger] names(setter_vars@).contains(v) ==> label_of(labels@, v) is Some,
            names(setter_vars@) == label_names(labels@),
            region_covered(labels@, *render_cfg, WriterRegion::Render, out@),
            forall|h2: int| 0 <= h2 < h ==> hook_covered(labels@, #[trigger] hooks@[h2], out@),
        decreases hooks.len() - h,
    {
        let region = match &hooks[h] {
            HookEntry::Effect { label, .. } => Some(WriterRegion::Effect(*label)),
            HookEntry::Memo { label, .. } => Some(WriterRegion::Memo(*label)),
            HookEntry::Callback { label, .. } => Some(WriterRegion::Callback(*label)),
            HookEntry::Handler { label, .. } => Some(WriterRegion::Handler(*label)),
            _ => None,
        };
        match (region, hooks[h].body_cfg()) {
            (Some(rg), Some(body)) => {
                let key = match rg {
                    WriterRegion::Effect(l) => l,
                    WriterRegion::Memo(l) => l,
                    WriterRegion::Callback(l) => l,
                    WriterRegion::Handler(l) => l,
                    WriterRegion::Render => 0,
                };
                let origin = inlined_origin(hook_provenance, key);
                let ghost ob = out@;
                region_rows(rg, body, Some(key), origin, &labels, &setter_vars, &shadowed, &outer_fns, &callback_bodies, regions, &mut out);
                proof {
                    assert(hook_region(hooks@[h as int]) == Some(rg));
                    assert(*body == region_body(hooks@[h as int]));
                    lemma_region_covered_grow(labels@, *render_cfg, WriterRegion::Render, ob, out@);
                    assert forall|h2: int| 0 <= h2 < h + 1 implies hook_covered(labels@, #[trigger] hooks@[h2], out@) by {
                        if h2 < h {
                            match hook_region(hooks@[h2]) {
                                Some(rg2) => {
                                    if !(rg2 is Effect) {
                                        lemma_region_covered_grow(labels@, region_body(hooks@[h2]), rg2, ob, out@);
                                    }
                                },
                                None => {},
                            }
                        }
                    }
                    assert forall|x: SlotWriter| #[trigger] out@.contains(x) implies region_of_hooks(hooks@, x.region) && row_ok(
                        x,
                        x.region,
                        labels@,
                        regions.render_poisoned,
                    ) by {
                        if !ob.contains(x) {
                            assert(row_ok(x, rg, labels@, regions.render_poisoned));
                        }
                    }
                }
            },
            _ => {
                proof {
                    assert(hook_region(hooks@[h as int]) is None);
                }
            },
        }
        h = h + 1;
    }
    proof {
        assert forall|q: int| 0 <= q < out.len() implies region_of_hooks(hooks@, #[trigger] out@[q].region) by {
            assert(out@.contains(out@[q]));
        }
        assert forall|q: int| 0 <= q < out.len() implies phase_fits(#[trigger] out@[q].region, out@[q].phase) by {
            assert(out@.contains(out@[q]));
        }
        assert forall|q: int| 0 <= q < out.len() && regions.render_poisoned && (#[trigger] out@[q]).region is Render implies !(out@[q].via is Direct) by {
            assert(out@.contains(out@[q]));
        }
        assert forall|q: int| 0 <= q < out.len() implies label_of(labels@, (#[trigger] out@[q]).setter@) == Some(out@[q].slot) by {
            assert(out@.contains(out@[q]));
        }
        assert(slot_labels_ok(labels@, *render_cfg));
    }
    out
}

/// The body of a hook that has one.
pub open spec fn region_body(h: HookEntry) -> CFG {
    match h {
        HookEntry::Effect { body_cfg, .. } => body_cfg,
        HookEntry::Memo { body_cfg, .. } => body_cfg,
        HookEntry::Callback { body_cfg, .. } => body_cfg,
        HookEntry::Handler { body_cfg, .. } => body_cfg,
        _ => arbitrary(),
    }
}

/// Every write a walk of `body` (two levels of descent, its own helpers
/// followed) must meet has a row of `region`.
pub open spec fn region_covered(lm: Seq<(Var, HookLabel)>, body: CFG, region: WriterRegion, rows: Seq<SlotWriter>) -> bool {
    exists|fbs: Seq<(Seq<char>, CFG)>|
        #[trigger] keeps_bindings(fbs, block_fn_lets(body.blocks@)) && cfg_covered(
            label_names(lm),
            fbs,
            body,
            2,
            Seq::empty(),
            row_keys(rows, region),
        )
}

/// The writes of the body of hook `h` have rows, unless it is an effect
/// (whose listeners and cleanup another pass handles).
pub open spec fn hook_covered(lm: Seq<(Var, HookLabel)>, h: HookEntry, rows: Seq<SlotWriter>) -> bool {
    match hook_region(h) {
        Some(rg) => !(rg is Effect) ==> region_covered(lm, region_body(h), rg, rows),
        None => true,
    }
}

/// Coverage survives adding rows.
proof fn lemma_region_covered_grow(lm: Seq<(Var, HookLabel)>, body: CFG, region: WriterRegion, a: Seq<SlotWriter>, b: Seq<SlotWriter>)
    requires
        region_covered(lm, body, region, a),
        forall|x: SlotWriter| a.contains(x) ==> #[trigger] b.contains(x),
    ensures
        region_covered(lm, body, region, b),
{
    let fbs = choose|fbs: Seq<(Seq<char>, CFG)>|
        #[trigger] keeps_bindings(fbs, block_fn_lets(body.blocks@)) && cfg_covered(
            label_names(lm),
            fbs,
            body,
            2,
            Seq::empty(),
            row_keys(a, region),
        );
    lemma_row_keys_grow(a, b, region);
    lemma_cfg_covered_mono(label_names(lm), fbs, body, 2, Seq::empty(), row_keys(a, region), row_keys(b, region));
}

/// `lm` is the render body's setter labels, grown by alias resolution.
pub open spec fn slot_labels_ok(lm: Seq<(Var, HookLabel)>, render: CFG) -> bool {
    &&& label_wf(lm)
    &&& exists|base: Seq<(Var, HookLabel)>|
        #[trigger] label_table(base) == bindings_in_blocks(render.blocks@, BindingKind::Setter, Map::empty()) && grows(base, lm)
}


/// A name is bound inside an expression exactly when a function literal in
/// it takes it as a parameter or binds it in its body, or one of the
/// expressions directly inside it binds it.
pub proof fn lemma_binder_structure(e: Expr, v: Seq<char>)
    ensures
        crate::setter_walk::binder_expr(e, v) <==> {
            ||| (e matches Expr::FnLit { params, body_cfg, .. } && (crate::splice::names(params@).contains(v) || crate::setter_walk::binder_cfg(*body_cfg, v)))
            ||| exists|k: int| 0 <= k < crate::expr::children_of(e).len() && crate::setter_walk::binder_expr(#[trigger] crate::expr::children_of(e)[k], v)
        },
{
    let c = crate::expr::children_of(e);
    match e {
        Expr::Call { fn_, args } => {
            assert(c[0] == *fn_);
            assert forall|i: int| 0 <= i < args.len() implies c[i + 1] == args@[i] by {}
            assert forall|k: int| 0 <= k < c.len() implies (k == 0 && c[k] == *fn_) || (k >= 1 && c[k] == args@[k - 1]) by {}
        },
        Expr::NativeElem { props, children, .. } => {
            assert(c[0] == *props);
            assert forall|i: int| 0 <= i < children.len() implies c[i + 1] == children@[i] by {}
            assert forall|k: int| 0 <= k < c.len() implies (k == 0 && c[k] == *props) || (k >= 1 && c[k] == children@[k - 1]) by {}
        },
        Expr::CompApp { props, .. } => {
            assert(c[0] == *props);
            assert forall|k: int| 0 <= k < c.len() implies c[k] == *props by {}
        },
        Expr::ObjectLit { fields, .. } => {
            assert(c.len() == fields.len());
            assert forall|k: int| 0 <= k < c.len() implies #[trigger] c[k] == fields@[k].1 by {}
            assert forall|i: int| 0 <= i < fields.len() implies #[trigger] fields@[i].1 == c[i] by {}
        },
        Expr::FieldAccess { obj, .. } => {
            assert(c[0] == *obj);
            assert forall|k: int| 0 <= k < c.len() implies c[k] == *obj by {}
        },
        Expr::IndexAccess { arr, idx } => {
            assert(c[0] == *arr && c[1] == *idx);
            assert forall|k: int| 0 <= k < c.len() implies (k == 0 && c[k] == *arr) || (k == 1 && c[k] == *idx) by {}
        },
        Expr::BinOp { lhs, rhs, .. } => {
            assert(c[0] == *lhs && c[1] == *rhs);
            assert forall|k: int| 0 <= k < c.len() implies (k == 0 && c[k] == *lhs) || (k == 1 && c[k] == *rhs) by {}
        },
        Expr::UnaryOp { arg, .. } => {
            assert(c[0] == *arg);
            assert forall|k: int| 0 <= k < c.len() implies c[k] == *arg by {}
        },
        Expr::TSAnnotated(inner) => {
            assert(c[0] == *inner);
            assert forall|k: int| 0 <= k < c.len() implies c[k] == *inner by {}
        },
        _ => {},
    }
}

} // verus!
