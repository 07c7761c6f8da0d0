//! Custom hook expansion: each custom hook a component calls whose lowered
//! body the run holds is replaced, in the component's hook table, by that
//! hook's own entries (relabelled past the component's labels and renamed
//! apart), and its body is spliced into the render body at the call's
//! marker. A hook the run does not hold keeps its entry; a library summary
//! for it, where one is known, retags its marker.
use vstd::prelude::*;

use crate::analysis_result::{InlineKind, InlineOrigin};
use crate::cfg::{has_block, term_targets, BasicBlock, Terminator, CFG};
use crate::component::HookIR;
use crate::component_registry::KeyView;
use crate::expr::{Expr, SummaryValue};
use crate::hook_calls::{block_marks, find_hook_marker, marker_binding, marker_stmt, retag_marker, retagged_stmt};
use crate::hook_registry::HookRegistry;
use crate::hooks::HookEntry;
use crate::remap::{
    cfg_fits, fits_cfg, fits_expr, fits_hook, hook_fits, lemma_fits_expr_zero, remap_hook_entry, remaps_block, remaps_cfg,
    remaps_expr, remaps_hook, shifted_cfg, shifted_expr, Offsets,
};
use crate::splice::{
    bound_name, callee_rename_map, dense_ids, fresh_name, graft_fits, graft_offset, graft_ok, let_bound, names,
    rename_hook_entry, rename_keys, rename_one, rename_vars_cfg, rename_wf, renamed, renames_cfg, renames_hook,
    splice_callee_into_cfg, spliced, subst_vars_expr, substs_expr, RenameMap, Splice, SubstMap,
};
use crate::stmt::Stmt;
use crate::text::str_eq;
use crate::types::{BlockId, Symbol, Var};

verus! {

/// One point of an expansion: the hook table, the render body, the inline
/// origins, the salt, the names expanded so far, and the position reached.
pub type ExpandState = (Seq<HookEntry>, CFG, Seq<InlineOrigin>, u32, Seq<Seq<char>>, int);

/// An optional string as plain text.
pub open spec fn opt_text(o: Option<String>) -> Option<Seq<char>> {
    match o {
        Some(s) => Some(s@),
        None => None,
    }
}

/// The highest label of `hs` plus one; 0 for none.
pub open spec fn label_offset(hs: Seq<HookEntry>) -> int
    decreases hs.len(),
{
    if hs.len() == 0 {
        0
    } else {
        let rest = label_offset(hs.drop_last());
        let here = hs.last().spec_label() + 1;
        if rest < here {
            here
        } else {
            rest
        }
    }
}

/// The position of the first key named `name`.
pub open spec fn first_named(keys: Seq<KeyView>, name: Seq<char>) -> int {
    choose|i: int| 0 <= i < keys.len() && keys[i].1 == name && forall|j: int| 0 <= j < i ==> keys[j].1 != name
}

/// The lowered hook a call resolves to: by `(file, name)` where the import
/// was resolved to a file, else the first hook of that name in key order.
pub open spec fn resolve(reg: HookRegistry, name: Seq<char>, file: Option<String>) -> Option<HookIR> {
    match file {
        Some(f) => reg.lookup((f@, name)),
        None => if exists|i: int| 0 <= i < reg.keys().len() && reg.keys()[i].1 == name {
            Some(reg.values()[first_named(reg.keys(), name)])
        } else {
            None
        },
    }
}

/// The summary of the first entry named `name` from source `src`.
pub open spec fn summary_for(
    sums: Seq<(Symbol, Option<String>, SummaryValue)>,
    name: Seq<char>,
    src: Option<Seq<char>>,
) -> Option<SummaryValue>
    decreases sums.len(),
{
    if sums.len() == 0 {
        None
    } else if sums[0].0@ == name && opt_text(sums[0].1) == src {
        Some(sums[0].2)
    } else {
        summary_for(sums.drop_first(), name, src)
    }
}

/// `new` is `old` with every marker of `l` retagged to `sv`.
pub open spec fn retag_of(old: CFG, new: CFG, l: usize, sv: SummaryValue) -> bool {
    &&& new.entry == old.entry
    &&& new.edges@ == old.edges@
    &&& new.blocks.len() == old.blocks.len()
    &&& forall|i: int|
        0 <= i < new.blocks.len() ==> (#[trigger] new.blocks@[i]).id == old.blocks@[i].id && new.blocks@[i].term
            == old.blocks@[i].term && new.blocks@[i].stmts@ == old.blocks@[i].stmts@.map_values(
            |s: Stmt| retagged_stmt(s, l, sv),
        )
}

/// `mk` is what the marker search of `l` in `cfg` finds: the block with the
/// least id holding a marker of `l`, its first such statement, and the
/// variable it binds; `None` when no block holds one.
pub open spec fn marker_found(cfg: CFG, l: usize, mk: Option<(BlockId, usize, Option<Var>)>) -> bool {
    &&& (mk is None <==> forall|i: int| 0 <= i < cfg.blocks.len() ==> !block_marks(#[trigger] cfg.blocks@[i], l))
    &&& (mk matches Some((bid, idx, v)) ==> exists|i: int|
        0 <= i < cfg.blocks.len() && cfg.blocks@[i].id == bid && idx < cfg.blocks@[i].stmts.len() && marker_stmt(
            cfg.blocks@[i].stmts@[idx as int],
            l,
        ) && (forall|k: int| 0 <= k < idx ==> !marker_stmt(#[trigger] cfg.blocks@[i].stmts@[k], l)) && v
            == marker_binding(cfg.blocks@[i].stmts@[idx as int]))
    &&& (mk matches Some((bid, _, _)) ==> forall|k: int|
        0 <= k < cfg.blocks.len() && block_marks(#[trigger] cfg.blocks@[k], l) ==> bid <= cfg.blocks@[k].id)
}

/// `sub` binds each parameter to a copy of its argument, pairwise, up to the
/// shorter of the two lists.
pub open spec fn binds_args(sub: Seq<(Var, Expr)>, params: Seq<Var>, args: Seq<Expr>) -> bool {
    &&& sub.len() == (if params.len() <= args.len() {
        params.len()
    } else {
        args.len()
    })
    &&& forall|k: int|
        0 <= k < sub.len() ==> (#[trigger] sub[k]).0@ == params[k]@ && remaps_expr(
            args[k],
            sub[k].1,
            Offsets { labels: 0, ids: 0 },
        )
}

/// `r` is `h` with, for a state entry, the parameters substituted into its
/// initial value (state inits are seeded apart from the render body, so the
/// arguments must be inlined there); any other entry is unchanged.
pub open spec fn init_substituted(h: HookEntry, r: HookEntry, sub: Seq<(Var, Expr)>) -> bool {
    match h {
        HookEntry::State { label, init, span } => match r {
            HookEntry::State { label: l2, init: i2, span: s2 } => l2 == label && s2 == span && substs_expr(
                init,
                i2,
                sub,
                Seq::empty(),
            ),
            _ => false,
        },
        _ => r == h,
    }
}

/// `r` is the callee entry `h` as the caller sees it: relabelled by `off`,
/// its state init substituted, then renamed by `ren`.
pub open spec fn imported_hook(h: HookEntry, r: HookEntry, off: Offsets, sub: Seq<(Var, Expr)>, ren: Seq<(Var, Var)>) -> bool {
    exists|a: HookEntry, b: HookEntry| remaps_hook(h, a, off) && init_substituted(a, b, sub) && renames_hook(b, r, ren)
}

/// `ren` is the fresh-name map of a callee body with `params` under `salt`.
pub open spec fn rename_for(ren: Seq<(Var, Var)>, body: CFG, params: Seq<Var>, salt: u32) -> bool {
    &&& rename_wf(ren)
    &&& forall|k: int| 0 <= k < ren.len() ==> #[trigger] ren[k].1@ == fresh_name(ren[k].0@, salt)
    &&& forall|x: Seq<char>| rename_keys(ren).contains(x) <==> (names(params).contains(x) || let_bound(body, x))
}

/// The statements of the first block of `c` carrying its entry id; none
/// when no block carries it.
pub open spec fn entry_stmts(c: CFG) -> Seq<Stmt> {
    if exists|i: int| 0 <= i < c.blocks.len() && c.blocks@[i].id == c.entry {
        c.blocks@[choose|i: int|
            0 <= i < c.blocks.len() && c.blocks@[i].id == c.entry && forall|j: int|
                0 <= j < i ==> c.blocks@[j].id != c.entry].stmts@
    } else {
        Seq::empty()
    }
}

/// `lets` binds each renamed parameter to a copy of its argument, with no
/// span.
pub open spec fn fallback_lets(lets: Seq<Stmt>, params: Seq<Var>, args: Seq<Expr>, ren: Seq<(Var, Var)>) -> bool {
    &&& lets.len() == (if params.len() <= args.len() {
        params.len()
    } else {
        args.len()
    })
    &&& forall|k: int|
        0 <= k < lets.len() ==> match #[trigger] lets[k] {
            Stmt::Let { var, rhs, span } => var@ == renamed(ren, params[k]@) && remaps_expr(
                args[k],
                rhs,
                Offsets { labels: 0, ids: 0 },
            ) && span is None,
            _ => false,
        }
}

/// With no marker to splice at, the renamed body's entry statements are
/// put in front of the render entry block's, after the parameter bindings.
pub open spec fn grafted_at_entry(old: CFG, new: CFG, body: CFG, params: Seq<Var>, args: Seq<Expr>, ren: Seq<(Var, Var)>) -> bool {
    exists|rb: CFG, lets: Seq<Stmt>|
        renames_cfg(body, rb, ren) && fallback_lets(lets, params, args, ren) && {
            &&& new.entry == old.entry
            &&& new.edges@ == old.edges@
            &&& new.blocks.len() == old.blocks.len()
            &&& if exists|i: int| 0 <= i < old.blocks.len() && old.blocks@[i].id == old.entry {
                let p = choose|i: int|
                    0 <= i < old.blocks.len() && old.blocks@[i].id == old.entry && forall|j: int|
                        0 <= j < i ==> old.blocks@[j].id != old.entry;
                &&& forall|k: int| 0 <= k < old.blocks.len() && k != p ==> #[trigger] new.blocks@[k] == old.blocks@[k]
                &&& new.blocks@[p].id == old.blocks@[p].id
                &&& new.blocks@[p].term == old.blocks@[p].term
                &&& new.blocks@[p].stmts@ == lets + entry_stmts(rb) + old.blocks@[p].stmts@
            } else {
                new.blocks@ == old.blocks@
            }
        }
}

/// Whether the expansion of `ir` into `hs` and `cfg` with `salt` stays
/// within the machine's integers: the label offset, every shifted label and
/// id, the next salt, and every grafted block id.
pub open spec fn expansion_fits(hs: Seq<HookEntry>, ir: HookIR, cfg: CFG, salt: u32) -> bool {
    let off = Offsets { labels: label_offset(hs) as usize, ids: 0 };
    &&& label_offset(hs) <= usize::MAX
    &&& forall|j: int| 0 <= j < ir.hooks.len() ==> fits_hook(#[trigger] ir.hooks@[j], off)
    &&& fits_cfg(ir.body_cfg, off)
    &&& salt < u32::MAX
    &&& graft_fits(ir.body_cfg, graft_offset(cfg.blocks@))
}

/// The entry at `s.5` is expanded from the lowered hook `ir`, with the
/// fresh-name map `ren`, the argument bindings `sub`, the imported entries
/// `imported`, the relabelled body `body` and the marker search result `mk`.
pub open spec fn expanded_with(
    s: ExpandState,
    t: ExpandState,
    ir: HookIR,
    label: usize,
    name: Seq<char>,
    args: Seq<Expr>,
    ren: Seq<(Var, Var)>,
    sub: Seq<(Var, Expr)>,
    imported: Seq<HookEntry>,
    body: CFG,
    mk: Option<(BlockId, usize, Option<Var>)>,
) -> bool {
    let off = Offsets { labels: label_offset(s.0) as usize, ids: 0 };
    &&& rename_for(ren, ir.body_cfg, ir.params@, s.3)
    &&& binds_args(sub, ir.params@, args)
    &&& imported.len() == ir.hooks.len()
    &&& (forall|j: int| 0 <= j < imported.len() ==> imported_hook(ir.hooks@[j], #[trigger] imported[j], off, sub, ren))
    &&& t.0 == s.0.subrange(0, s.5) + imported + s.0.subrange(s.5 + 1, s.0.len() as int)
    &&& remaps_cfg(ir.body_cfg, body, off)
    &&& marker_found(s.1, label, mk)
    &&& match mk {
        Some((bid, idx, v)) => if has_block(body.blocks@, body.entry) {
            spliced(s.1, t.1, bid, idx as nat, body, ir.params@, args, opt_text(v), ren)
        } else {
            t.1 == s.1
        },
        None => grafted_at_entry(s.1, t.1, body, ir.params@, args, ren),
    }
    &&& t.2.len() == s.2.len() + 1 && t.2.subrange(0, s.2.len() as int) == s.2
    &&& t.2.last().name@ == name && t.2.last().from@ == ir.file@ && t.2.last().kind == InlineKind::Hook
    &&& t.3 == s.3 + 1
    &&& t.4 == s.4.push(name)
    &&& t.5 == s.5
}

/// The entry at `s.5` is expanded from the lowered hook `ir`.
pub open spec fn expanded_from(s: ExpandState, t: ExpandState, ir: HookIR, label: usize, name: Seq<char>, args: Seq<Expr>) -> bool {
    exists|ren: Seq<(Var, Var)>, sub: Seq<(Var, Expr)>, imported: Seq<HookEntry>, body: CFG, mk: Option<(BlockId, usize, Option<Var>)>|
        #[trigger] expanded_with(s, t, ir, label, name, args, ren, sub, imported, body, mk)
}

/// One step of the expansion from `s` to `t`. An entry that is no custom
/// hook, or one whose name is already being expanded (a recursive hook, or
/// a second call), is passed over. A custom hook the registry does not
/// resolve is passed over too, its marker retagged where a summary is
/// known. A resolved one is expanded in place (its first imported entry is
/// looked at next), unless the expansion would overflow a label, an id or
/// the salt, in which case it is passed over.
pub open spec fn expand_step(
    s: ExpandState,
    t: ExpandState,
    reg: HookRegistry,
    sums: Seq<(Symbol, Option<String>, SummaryValue)>,
) -> bool {
    let pass = t == (s.0, s.1, s.2, s.3, s.4, s.5 + 1);
    0 <= s.5 < s.0.len() && match s.0[s.5] {
        HookEntry::Custom { label, name, args, import_source, resolved_file, .. } => {
            if s.4.contains(name@) {
                pass
            } else {
                match resolve(reg, name@, resolved_file) {
                    None => match summary_for(sums, name@, opt_text(import_source)) {
                        Some(sv) => retag_of(s.1, t.1, label, sv) && t == (s.0, t.1, s.2, s.3, s.4, s.5 + 1),
                        None => pass,
                    },
                    Some(ir) => if expansion_fits(s.0, ir, s.1, s.3) {
                        expanded_from(s, t, ir, label, name@, args@)
                    } else {
                        pass
                    },
                }
            }
        },
        _ => pass,
    }
}

/// `trace` runs the expansion from `first` to `last` step by step.
pub open spec fn expansion_trace(
    trace: Seq<ExpandState>,
    reg: HookRegistry,
    sums: Seq<(Symbol, Option<String>, SummaryValue)>,
) -> bool {
    &&& trace.len() >= 1
    &&& forall|k: int| 0 <= k < trace.len() - 1 ==> expand_step(#[trigger] trace[k], trace[k + 1], reg, sums)
}

/// The expansion from `a` ends in `b`: a run of steps that passes every
/// entry of the final table.
pub open spec fn expands(
    a: ExpandState,
    b: ExpandState,
    reg: HookRegistry,
    sums: Seq<(Symbol, Option<String>, SummaryValue)>,
) -> bool {
    exists|trace: Seq<ExpandState>|
        expansion_trace(trace, reg, sums) && trace[0] == a && trace.last() == b && b.5 == b.0.len()
}


/// The names of a list of strings.
pub open spec fn texts(v: Seq<String>) -> Seq<Seq<char>> {
    v.map_values(|x: String| x@)
}

/// Whether `name` is one of `v`.
fn among(v: &Vec<String>, name: &String) -> (r: bool)
    ensures
        r == texts(v@).contains(name@),
{
    let mut k: usize = 0;
    while k < v.len()
        invariant
            k <= v.len(),
            forall|q: int| 0 <= q < k ==> v@[q]@ != name@,
        decreases v.len() - k,
    {
        if str_eq(v[k].as_str(), name.as_str()) {
            assert(texts(v@)[k as int] == name@);
            return true;
        }
        k = k + 1;
    }
    proof {
        if texts(v@).contains(name@) {
            let q = choose|q: int| 0 <= q < texts(v@).len() && texts(v@)[q] == name@;
            assert(v@[q]@ == name@);
        }
    }
    false
}

/// Whether two optional strings hold the same text.
fn same_text(a: &Option<String>, b: &Option<String>) -> (r: bool)
    ensures
        r == (opt_text(*a) == opt_text(*b)),
{
    match (a, b) {
        (Some(x), Some(y)) => str_eq(x.as_str(), y.as_str()),
        (None, None) => true,
        _ => false,
    }
}

/// The summary of the first entry named `name` from source `src`.
fn find_summary(sums: &Vec<(Symbol, Option<String>, SummaryValue)>, name: &String, src: &Option<String>) -> (r: Option<
    SummaryValue,
>)
    ensures
        r == summary_for(sums@, name@, opt_text(*src)),
{
    let mut k: usize = 0;
    assert(sums@.subrange(0, sums.len() as int) =~= sums@);
    while k < sums.len()
        invariant
            k <= sums.len(),
            summary_for(sums@, name@, opt_text(*src)) == summary_for(
                sums@.subrange(k as int, sums.len() as int),
                name@,
                opt_text(*src),
            ),
        decreases sums.len() - k,
    {
        let ghost rest = sums@.subrange(k as int, sums.len() as int);
        assert(rest[0] == sums@[k as int]);
        if str_eq(sums[k].0.as_str(), name.as_str()) && same_text(&sums[k].1, src) {
            return Some(sums[k].2);
        }
        assert(rest.drop_first() =~= sums@.subrange(k + 1, sums.len() as int));
        k = k + 1;
    }
    assert(sums@.subrange(k as int, sums.len() as int) =~= Seq::<(Symbol, Option<String>, SummaryValue)>::empty());
    None
}

/// The lowered hook a call resolves to.
fn resolve_hook<'a>(reg: &'a HookRegistry, name: &Symbol, file: &Option<String>) -> (r: Option<&'a HookIR>)
    requires
        reg.wf(),
    ensures
        r matches Some(h) ==> resolve(*reg, name@, *file) == Some(*h),
        r is None ==> resolve(*reg, name@, *file) is None,
        r matches Some(h) ==> exists|i: int| 0 <= i < reg.keys().len() && reg.keys()[i].1 == name@ && *h == reg.values()[i],
{
    match file {
        Some(f) => {
            let key = (f.clone(), name.clone());
            let r = reg.get(&key);
            proof {
                if r is Some {
                    let k = (f@, name@);
                    assert(reg.keys().contains(k));
                    let i = reg.keys().index_of(k);
                    reg.lemma_lookup(i);
                }
            }
            r
        },
        None => {
            let r = reg.get_by_name(name);
            proof {
                if let Some(h) = r {
                    let i = choose|i: int|
                        0 <= i < reg.keys().len() && reg.keys()[i].1 == name@ && *h == reg.values()[i] && forall|j: int|
                            0 <= j < i ==> reg.keys()[j].1 != name@;
                    let c = first_named(reg.keys(), name@);
                    assert(0 <= c < reg.keys().len() && reg.keys()[c].1 == name@ && forall|j: int|
                        0 <= j < c ==> reg.keys()[j].1 != name@);
                    assert(c == i);
                } else {
                    assert(!exists|i: int| 0 <= i < reg.keys().len() && reg.keys()[i].1 == name@);
                }
            }
            r
        },
    }
}

/// A prefix's label offset never exceeds the whole list's.
proof fn lemma_label_offset_prefix(hs: Seq<HookEntry>, k: int)
    requires
        0 <= k <= hs.len(),
    ensures
        label_offset(hs.subrange(0, k)) <= label_offset(hs),
    decreases hs.len() - k,
{
    if k < hs.len() {
        lemma_label_offset_prefix(hs, k + 1);
        assert(hs.subrange(0, k + 1).drop_last() =~= hs.subrange(0, k));
    } else {
        assert(hs.subrange(0, k) =~= hs);
    }
}

/// The label offset of `hs`, or `None` when it is past `usize::MAX`.
fn label_offset_of(hs: &Vec<HookEntry>) -> (r: Option<usize>)
    ensures
        r matches Some(o) ==> o == label_offset(hs@),
        r is None <==> label_offset(hs@) > usize::MAX,
{
    let mut acc: usize = 0;
    let mut k: usize = 0;
    assert(hs@.subrange(0, 0).len() == 0);
    while k < hs.len()
        invariant
            k <= hs.len(),
            acc == label_offset(hs@.subrange(0, k as int)),
        decreases hs.len() - k,
    {
        assert(hs@.subrange(0, k + 1).drop_last() =~= hs@.subrange(0, k as int));
        let l = hs[k].label();
        if l == usize::MAX {
            proof {
                lemma_label_offset_prefix(hs@, k + 1);
            }
            return None;
        }
        if acc < l + 1 {
            acc = l + 1;
        }
        k = k + 1;
    }
    assert(hs@.subrange(0, k as int) =~= hs@);
    Some(acc)
}

/// Each parameter paired with a copy of its argument, up to the shorter list.
fn bind_args(params: &Vec<Var>, args: &Vec<Expr>) -> (r: SubstMap)
    ensures
        binds_args(r@, params@, args@),
{
    let mut r: SubstMap = Vec::new();
    let mut k: usize = 0;
    while k < params.len() && k < args.len()
        invariant
            k <= params.len(),
            k <= args.len(),
            r.len() == k,
            forall|q: int| 0 <= q < k ==> (#[trigger] r@[q]).0@ == params@[q]@ && remaps_expr(
                args@[q],
                r@[q].1,
                Offsets { labels: 0, ids: 0 },
            ),
        decreases params.len() - k,
    {
        proof {
            lemma_fits_expr_zero(args@[k as int]);
        }
        let e = shifted_expr(&args[k], Offsets { labels: 0, ids: 0 });
        r.push((params[k].clone(), e));
        k = k + 1;
    }
    r
}

/// The callee's entries as the caller sees them.
fn import_hooks(hs: &Vec<HookEntry>, off: Offsets, sub: &SubstMap, ren: &RenameMap) -> (r: Vec<HookEntry>)
    requires
        forall|j: int| 0 <= j < hs.len() ==> fits_hook(#[trigger] hs@[j], off),
    ensures
        r.len() == hs.len(),
        forall|j: int| 0 <= j < hs.len() ==> imported_hook(hs@[j], #[trigger] r@[j], off, sub@, ren@),
{
    let mut r: Vec<HookEntry> = Vec::new();
    let mut j: usize = 0;
    while j < hs.len()
        invariant
            j <= hs.len(),
            r.len() == j,
            forall|q: int| 0 <= q < hs.len() ==> fits_hook(#[trigger] hs@[q], off),
            forall|q: int| 0 <= q < j ==> imported_hook(hs@[q], #[trigger] r@[q], off, sub@, ren@),
        decreases hs.len() - j,
    {
        let a = remap_hook_entry(&hs[j], off);
        let ghost ga = a;
        let b = match a {
            HookEntry::State { label, init, span } => HookEntry::State { label, init: subst_vars_expr(init, sub), span },
            other => other,
        };
        assert(init_substituted(ga, b, sub@));
        let ghost gb = b;
        let c = rename_hook_entry(b, ren);
        assert(imported_hook(hs@[j as int], c, off, sub@, ren@));
        r.push(c);
        j = j + 1;
    }
    r
}

/// The renamed parameter bindings of the fallback graft.
fn fallback_lets_of(params: &Vec<Var>, args: &Vec<Expr>, ren: &RenameMap) -> (r: Vec<Stmt>)
    ensures
        fallback_lets(r@, params@, args@, ren@),
{
    let mut r: Vec<Stmt> = Vec::new();
    let mut k: usize = 0;
    while k < params.len() && k < args.len()
        invariant
            k <= params.len(),
            k <= args.len(),
            r.len() == k,
            forall|q: int|
                0 <= q < k ==> match #[trigger] r@[q] {
                    Stmt::Let { var, rhs, span } => var@ == renamed(ren@, params@[q]@) && remaps_expr(
                        args@[q],
                        rhs,
                        Offsets { labels: 0, ids: 0 },
                    ) && span is None,
                    _ => false,
                },
        decreases params.len() - k,
    {
        proof {
            lemma_fits_expr_zero(args@[k as int]);
        }
        let e = shifted_expr(&args[k], Offsets { labels: 0, ids: 0 });
        let v = rename_one(ren, &params[k]);
        r.push(Stmt::Let { var: v, rhs: e, span: None });
        k = k + 1;
    }
    r
}

/// The position of the first block of `blocks` carrying `id`, if any.
fn first_block(blocks: &Vec<BasicBlock>, id: BlockId) -> (r: Option<usize>)
    ensures
        r is None <==> !exists|i: int| 0 <= i < blocks.len() && blocks@[i].id == id,
        r matches Some(p) ==> p < blocks.len() && blocks@[p as int].id == id && forall|j: int|
            0 <= j < p ==> blocks@[j].id != id,
{
    let mut k: usize = 0;
    while k < blocks.len()
        invariant
            k <= blocks.len(),
            forall|j: int| 0 <= j < k ==> blocks@[j].id != id,
        decreases blocks.len() - k,
    {
        if blocks[k].id == id {
            return Some(k);
        }
        k = k + 1;
    }
    None
}

/// The statements of the first block of `c` carrying its entry id.
fn entry_stmts_of(c: CFG) -> (r: Vec<Stmt>)
    ensures
        r@ == entry_stmts(c),
{
    let ghost g = c;
    match first_block(&c.blocks, c.entry) {
        Some(q) => {
            let mut blocks = c.blocks;
            let b = blocks.remove(q);
            proof {
                let i = choose|i: int|
                    0 <= i < g.blocks.len() && g.blocks@[i].id == g.entry && forall|j: int|
                        0 <= j < i ==> g.blocks@[j].id != g.entry;
                assert(i == q);
            }
            b.stmts
        },
        None => Vec::new(),
    }
}

/// With no marker to splice at: the renamed body's entry statements go in
/// front of the render entry block's, after the parameter bindings.
fn graft_at_entry(cfg: &mut CFG, body: CFG, params: &Vec<Var>, args: &Vec<Expr>, ren: &RenameMap)
    requires
        old(cfg).blocks_wf(),
    ensures
        final(cfg).blocks_wf(),
        grafted_at_entry(*old(cfg), *final(cfg), body, params@, args@, ren@),
{
    let ghost c0 = *cfg;
    let rb = rename_vars_cfg(body, ren);
    let ghost grb = rb;
    let lets = fallback_lets_of(params, args, ren);
    let ghost glets = lets@;
    let mut bstmts = entry_stmts_of(rb);
    match first_block(&cfg.blocks, cfg.entry) {
        Some(p) => {
            let blk = cfg.blocks.remove(p);
            let BasicBlock { id, stmts, term } = blk;
            let mut ns = lets;
            ns.append(&mut bstmts);
            let mut st = stmts;
            ns.append(&mut st);
            cfg.blocks.insert(p, BasicBlock { id, stmts: ns, term });
            proof {
                let q = choose|i: int|
                    0 <= i < c0.blocks.len() && c0.blocks@[i].id == c0.entry && forall|j: int|
                        0 <= j < i ==> c0.blocks@[j].id != c0.entry;
                assert(q == p);
                assert forall|k: int| 0 <= k < c0.blocks.len() && k != p implies #[trigger] cfg.blocks@[k] == c0.blocks@[k] by {
                    if k < p {
                    } else {
                    }
                }
                assert(cfg.blocks@[p as int].stmts@ =~= glets + entry_stmts(grb) + c0.blocks@[p as int].stmts@);
                assert(grafted_at_entry(c0, *cfg, body, params@, args@, ren@));
            }
        },
        None => {
            assert(grafted_at_entry(c0, *cfg, body, params@, args@, ren@));
        },
    }
}


/// A shifted copy of a body has the shape the graft checks read.
proof fn lemma_remap_shape(c: CFG, r: CFG, off: Offsets, g: nat)
    requires
        remaps_cfg(c, r, off),
    ensures
        graft_fits(c, g) ==> graft_fits(r, g),
        dense_ids(c) ==> dense_ids(r),
        has_block(c.blocks@, c.entry) == has_block(r.blocks@, r.entry),
{
    assert forall|i: int| 0 <= i < c.blocks.len() implies #[trigger] r.blocks@[i].id == c.blocks@[i].id && term_targets(
        r.blocks@[i].term,
    ) == term_targets(c.blocks@[i].term) by {
        assert(remaps_block(c.blocks@[i], r.blocks@[i], off));
    }
    if graft_fits(c, g) {
        assert forall|i: int, j: int|
            0 <= i < r.blocks.len() && 0 <= j < term_targets(r.blocks@[i].term).len() implies #[trigger] term_targets(
            r.blocks@[i].term,
        )[j] + g <= usize::MAX by {
            assert(r.blocks@[i].id == c.blocks@[i].id);
            assert(term_targets(c.blocks@[i].term)[j] + g <= usize::MAX);
        }
    }
    if has_block(c.blocks@, c.entry) {
        let i = choose|i: int| 0 <= i < c.blocks@.len() && #[trigger] c.blocks@[i].id == c.entry;
        assert(r.blocks@[i].id == r.entry);
    }
    if has_block(r.blocks@, r.entry) {
        let i = choose|i: int| 0 <= i < r.blocks@.len() && #[trigger] r.blocks@[i].id == r.entry;
        assert(c.blocks@[i].id == c.entry);
    }
}

/// A trace grows by one more step.
proof fn lemma_trace_push(
    trace: Seq<ExpandState>,
    t: ExpandState,
    reg: HookRegistry,
    sums: Seq<(Symbol, Option<String>, SummaryValue)>,
)
    requires
        expansion_trace(trace, reg, sums),
        expand_step(trace.last(), t, reg, sums),
    ensures
        expansion_trace(trace.push(t), reg, sums),
        trace.push(t)[0] == trace[0],
        trace.push(t).last() == t,
{
    let u = trace.push(t);
    assert forall|k: int| 0 <= k < u.len() - 1 implies expand_step(#[trigger] u[k], u[k + 1], reg, sums) by {
        if k < trace.len() - 1 {
            assert(u[k] == trace[k] && u[k + 1] == trace[k + 1]);
        } else {
            assert(u[k] == trace.last() && u[k + 1] == t);
        }
    }
}

/// No more distinct names are being expanded than the registry has keys.
pub(crate) proof fn lemma_names_bound(ex: Seq<Seq<char>>, key_names: Seq<Seq<char>>)
    requires
        ex.no_duplicates(),
        forall|q: int| 0 <= q < ex.len() ==> key_names.contains(#[trigger] ex[q]),
    ensures
        ex.len() <= key_names.len(),
{
    ex.unique_seq_to_set();
    key_names.lemma_cardinality_of_set();
    assert(ex.to_set().subset_of(key_names.to_set())) by {
        assert forall|x: Seq<char>| ex.to_set().contains(x) implies key_names.to_set().contains(x) by {
            let q = choose|q: int| 0 <= q < ex.len() && ex[q] == x;
            assert(key_names.contains(ex[q]));
        }
    }
    vstd::set_lib::lemma_len_subset(ex.to_set(), key_names.to_set());
}

/// Whether every entry of `hs` fits the shift.
fn all_fit(hs: &Vec<HookEntry>, off: Offsets) -> (r: bool)
    ensures
        r == forall|j: int| 0 <= j < hs.len() ==> fits_hook(#[trigger] hs@[j], off),
{
    let mut j: usize = 0;
    while j < hs.len()
        invariant
            j <= hs.len(),
            forall|q: int| 0 <= q < j ==> fits_hook(#[trigger] hs@[q], off),
        decreases hs.len() - j,
    {
        if !hook_fits(&hs[j], off) {
            return false;
        }
        j = j + 1;
    }
    true
}


/// The render body with the callee `body` placed at the marker of `label`:
/// spliced there, or grafted at the entry block when no marker is found.
fn place_body(
    render_cfg: &mut CFG,
    label: usize,
    body: CFG,
    params: &Vec<Var>,
    args: &Vec<Expr>,
    ren: &RenameMap,
) -> (mk: Ghost<Option<(BlockId, usize, Option<Var>)>>)
    requires
        old(render_cfg).blocks_wf(),
        dense_ids(body),
        graft_fits(body, graft_offset(old(render_cfg).blocks@)),
    ensures
        final(render_cfg).blocks_wf(),
        marker_found(*old(render_cfg), label, mk@),
        match mk@ {
            Some((bid, idx, v)) => if has_block(body.blocks@, body.entry) {
                spliced(*old(render_cfg), *final(render_cfg), bid, idx as nat, body, params@, args@, opt_text(v), ren@)
            } else {
                *final(render_cfg) == *old(render_cfg)
            },
            None => grafted_at_entry(*old(render_cfg), *final(render_cfg), body, params@, args@, ren@),
        },
{
    let mk = find_hook_marker(render_cfg, label);
    let ghost gmk = mk;
    match mk {
        Some((bid, idx, v)) => {
            proof {
                let w = choose|w: int|
                    0 <= w < render_cfg.blocks.len() && render_cfg.blocks@[w].id == bid && idx < render_cfg.blocks@[w].stmts.len()
                        && marker_stmt(render_cfg.blocks@[w].stmts@[idx as int], label) && (forall|k: int|
                        0 <= k < idx ==> !marker_stmt(#[trigger] render_cfg.blocks@[w].stmts@[k], label)) && v == marker_binding(
                        render_cfg.blocks@[w].stmts@[idx as int],
                    );
                assert(has_block(render_cfg.blocks@, bid));
                let pp = crate::splice::block_pos(render_cfg.blocks@, bid);
                assert(pp == w);
            }
            let bv = v.as_ref();
            assert(bound_name(bv) == opt_text(v));
            let _ = splice_callee_into_cfg(
                render_cfg,
                bid,
                idx,
                Splice { callee: body, params: params.as_slice(), args: args.as_slice(), bound_var: bv, rename: ren },
            );
        },
        None => {
            graft_at_entry(render_cfg, body, params, args, ren);
        },
    }
    Ghost(gmk)
}

/// The names of the registry's keys.
pub open spec fn key_names(reg: HookRegistry) -> Seq<Seq<char>> {
    reg.keys().map_values(|k: KeyView| k.1)
}

/// One step of the expansion at position `i`; returns the next position.
#[verifier::spinoff_prover]
#[verifier::rlimit(60)]
fn expand_one(
    hooks: &mut Vec<HookEntry>,
    render_cfg: &mut CFG,
    registry: &HookRegistry,
    summaries: &Vec<(Symbol, Option<String>, SummaryValue)>,
    origins: &mut Vec<InlineOrigin>,
    salt: &mut u32,
    expanding: &mut Vec<String>,
    i: usize,
) -> (next: usize)
    requires
        old(render_cfg).blocks_wf(),
        registry.wf(),
        forall|q: int| 0 <= q < registry.values().len() ==> dense_ids(#[trigger] registry.values()[q].body_cfg),
        i < old(hooks).len(),
        texts(old(expanding)@).no_duplicates(),
        forall|q: int| 0 <= q < old(expanding).len() ==> key_names(*registry).contains(#[trigger] texts(old(expanding)@)[q]),
    ensures
        final(render_cfg).blocks_wf(),
        expand_step(
            (old(hooks)@, *old(render_cfg), old(origins)@, *old(salt), texts(old(expanding)@), i as int),
            (final(hooks)@, *final(render_cfg), final(origins)@, *final(salt), texts(final(expanding)@), next as int),
            *registry,
            summaries@,
        ),
        texts(final(expanding)@).no_duplicates(),
        forall|q: int| 0 <= q < final(expanding).len() ==> key_names(*registry).contains(#[trigger] texts(final(expanding)@)[q]),
        (next == i + 1 && final(expanding)@ == old(expanding)@) || (next == i && final(expanding).len() == old(expanding).len() + 1),
        next <= final(hooks).len(),
{
    let ghost s: ExpandState = (hooks@, *render_cfg, origins@, *salt, texts(expanding@), i as int);
    let offset = label_offset_of(hooks);
    let entry = hooks.remove(i);
    assert(entry == s.0[i as int]);
    let mut grown: Option<(Vec<HookEntry>, String)> = None;
    match &entry {
        HookEntry::Custom { label, name, args, import_source, resolved_file, .. } => {
            let label = *label;
            if !among(expanding, name) {
                match resolve_hook(registry, name, resolved_file) {
                    None => {
                        match find_summary(summaries, name, import_source) {
                            Some(sv) => {
                                retag_marker(render_cfg, label, sv);
                            },
                            None => {},
                        }
                    },
                    Some(ir) => {
                        let ghost gir = *ir;
                        let fits = match offset {
                            Some(offl) => {
                                let off = Offsets { labels: offl, ids: 0 };
                                all_fit(&ir.hooks, off) && cfg_fits(&ir.body_cfg, off) && *salt < u32::MAX && graft_ok(
                                    &ir.body_cfg,
                                    &render_cfg.blocks,
                                )
                            },
                            None => false,
                        };
                        assert(fits == expansion_fits(s.0, gir, s.1, s.3));
                        if fits {
                            let off = Offsets { labels: offset.unwrap(), ids: 0 };
                            let s0 = *salt;
                            let ren = callee_rename_map(&ir.body_cfg, ir.params.as_slice(), s0);
                            *salt = s0 + 1;
                            let sub = bind_args(&ir.params, args);
                            let imported = import_hooks(&ir.hooks, off, &sub, &ren);
                            let body = shifted_cfg(&ir.body_cfg, off);
                            let ghost gbody = body;
                            proof {
                                let q = choose|q: int|
                                    0 <= q < registry.keys().len() && registry.keys()[q].1 == name@ && gir == registry.values()[q];
                                registry.lemma_lookup(q);
                                assert(dense_ids(registry.values()[q].body_cfg));
                                lemma_remap_shape(gir.body_cfg, gbody, off, graft_offset(render_cfg.blocks@));
                            }
                            let mk = place_body(render_cfg, label, body, &ir.params, args, &ren);
                            origins.push(InlineOrigin { name: name.clone(), from: ir.file.clone(), kind: InlineKind::Hook });
                            proof {
                                let t: ExpandState = (
                                    s.0.subrange(0, i as int) + imported@ + s.0.subrange(i + 1, s.0.len() as int),
                                    *render_cfg,
                                    origins@,
                                    *salt,
                                    s.4.push(name@),
                                    i as int,
                                );
                                assert(t.2.subrange(0, s.2.len() as int) =~= s.2);
                                assert(expanded_with(s, t, gir, label, name@, args@, ren@, sub@, imported@, gbody, mk@));
                                assert(expanded_from(s, t, gir, label, name@, args@));
                                let q = choose|q: int|
                                    0 <= q < registry.keys().len() && registry.keys()[q].1 == name@ && gir == registry.values()[q];
                                assert(key_names(*registry)[q] == name@);
                            }
                            grown = Some((imported, name.clone()));
                        }
                    },
                }
            }
        },
        _ => {},
    }
    match grown {
        Some((imported, nm)) => {
            let ghost before = hooks@;
            let ghost imp = imported@;
            let mut imported = imported;
            let mut j: usize = 0;
            let n = imported.len();
            while j < n
                invariant
                    j <= n,
                    n == imp.len(),
                    i <= before.len(),
                    hooks.len() == before.len() + j,
                    imported@ == imp.subrange(j as int, n as int),
                    hooks@ == before.subrange(0, i as int) + imp.subrange(0, j as int) + before.subrange(
                        i as int,
                        before.len() as int,
                    ),
                decreases n - j,
            {
                assert(imported@[0] == imp[j as int]);
                let h = imported.remove(0);
                hooks.insert(i + j, h);
                assert(hooks@ =~= before.subrange(0, i as int) + imp.subrange(0, j + 1) + before.subrange(
                    i as int,
                    before.len() as int,
                ));
                assert(imported@ =~= imp.subrange(j + 1, n as int));
                j = j + 1;
            }
            let ghost ex0 = texts(expanding@);
            expanding.push(nm);
            proof {
                assert(hooks@ =~= s.0.subrange(0, i as int) + imp + s.0.subrange(i + 1, s.0.len() as int));
                assert(texts(expanding@) =~= ex0.push(nm@));
                assert forall|q: int| 0 <= q < expanding.len() implies key_names(*registry).contains(
                    #[trigger] texts(expanding@)[q],
                ) by {
                    if q < ex0.len() {
                        assert(texts(expanding@)[q] == ex0[q]);
                    }
                }
            }
            i
        },
        None => {
            hooks.insert(i, entry);
            assert(hooks@ =~= s.0);
            i + 1
        },
    }
}

/// Expand, in place, every custom hook of `hooks` that `registry` holds.
///
/// Entries are visited in order. A custom hook is looked up by its
/// resolved file and name, or by name alone (the first file in key order)
/// where its import was not resolved to a file. A found hook's entries,
/// relabelled past the highest label of the table, with its parameters
/// substituted into state initial values and its locals renamed apart
/// under a fresh salt, replace the custom entry, and its body is spliced
/// at the call's marker (or, with no marker in the body, its entry
/// statements are put at the head of the render entry block); the origin
/// is recorded. The first imported entry is looked at next, so a custom
/// hook called by the hook expands too; a name already expanded is not
/// expanded again. A hook the registry does not hold keeps its entry, and
/// a library summary known for its name and import source retags its
/// marker. An expansion that would overflow a label, an id or the salt is
/// passed over.
pub fn expand_custom_hooks(
    hooks: &mut Vec<HookEntry>,
    render_cfg: &mut CFG,
    registry: &HookRegistry,
    summaries: &Vec<(Symbol, Option<String>, SummaryValue)>,
    origins: &mut Vec<InlineOrigin>,
    salt: &mut u32,
)
    requires
        old(render_cfg).blocks_wf(),
        registry.wf(),
        forall|q: int| 0 <= q < registry.values().len() ==> dense_ids(#[trigger] registry.values()[q].body_cfg),
    ensures
        final(render_cfg).blocks_wf(),
        exists|done: Seq<Seq<char>>|
            expands(
                (old(hooks)@, *old(render_cfg), old(origins)@, *old(salt), Seq::empty(), 0),
                (final(hooks)@, *final(render_cfg), final(origins)@, *final(salt), done, final(hooks)@.len() as int),
                *registry,
                summaries@,
            ),
{
    let ghost init: ExpandState = (hooks@, *render_cfg, origins@, *salt, Seq::<Seq<char>>::empty(), 0int);
    let ghost mut trace: Seq<ExpandState> = seq![init];
    let mut expanding: Vec<String> = Vec::new();
    let mut i: usize = 0;
    assert(texts(expanding@) =~= Seq::<Seq<char>>::empty());
    while i < hooks.len()
        invariant
            render_cfg.blocks_wf(),
            registry.wf(),
            forall|q: int| 0 <= q < registry.values().len() ==> dense_ids(#[trigger] registry.values()[q].body_cfg),
            i <= hooks.len(),
            expansion_trace(trace, *registry, summaries@),
            trace[0] == init,
            trace.last() == (hooks@, *render_cfg, origins@, *salt, texts(expanding@), i as int),
            texts(expanding@).no_duplicates(),
            forall|q: int| 0 <= q < expanding.len() ==> key_names(*registry).contains(#[trigger] texts(expanding@)[q]),
            expanding.len() <= registry.keys().len(),
        decreases registry.keys().len() - expanding.len(), hooks.len() - i,
    {
        let ghost s = trace.last();
        let next = expand_one(hooks, render_cfg, registry, summaries, origins, salt, &mut expanding, i);
        proof {
            let t: ExpandState = (hooks@, *render_cfg, origins@, *salt, texts(expanding@), next as int);
            lemma_trace_push(trace, t, *registry, summaries@);
            trace = trace.push(t);
            lemma_names_bound(texts(expanding@), key_names(*registry));
        }
        i = next;
    }
    proof {
        assert(expands(init, trace.last(), *registry, summaries@));
    }
}


/// One step keeps the names expanded so far distinct, and records an
/// origin exactly when it expands a name.
proof fn lemma_step_records(
    s: ExpandState,
    t: ExpandState,
    reg: HookRegistry,
    sums: Seq<(Symbol, Option<String>, SummaryValue)>,
)
    requires
        expand_step(s, t, reg, sums),
        s.4.no_duplicates(),
    ensures
        t.4.no_duplicates(),
        t.2.len() - s.2.len() == t.4.len() - s.4.len(),
{
    match s.0[s.5] {
        HookEntry::Custom { label, name, args, import_source, resolved_file, .. } => {
            if !s.4.contains(name@) {
                match resolve(reg, name@, resolved_file) {
                    Some(ir) => {
                        if expansion_fits(s.0, ir, s.1, s.3) {
                            let (ren, sub, imported, body, mk) = choose|
                                ren: Seq<(Var, Var)>,
                                sub: Seq<(Var, Expr)>,
                                imported: Seq<HookEntry>,
                                body: CFG,
                                mk: Option<(BlockId, usize, Option<Var>)>,
                            | #[trigger] expanded_with(s, t, ir, label, name@, args@, ren, sub, imported, body, mk);
                            assert(t.4 == s.4.push(name@));
                            assert forall|a: int, b: int| 0 <= a < b < t.4.len() implies t.4[a] != t.4[b] by {
                                if b == s.4.len() {
                                    assert(t.4[a] == s.4[a]);
                                }
                            }
                        }
                    },
                    None => {},
                }
            }
        },
        _ => {},
    }
}

/// The recursion guard, over a whole expansion: starting from no names, no
/// hook name is expanded twice, and each expansion records exactly one
/// inline origin.
pub proof fn lemma_each_name_expanded_once(
    a: ExpandState,
    b: ExpandState,
    reg: HookRegistry,
    sums: Seq<(Symbol, Option<String>, SummaryValue)>,
)
    requires
        expands(a, b, reg, sums),
        a.4 == Seq::<Seq<char>>::empty(),
    ensures
        b.4.no_duplicates(),
        b.2.len() == a.2.len() + b.4.len(),
{
    let trace = choose|trace: Seq<ExpandState>|
        expansion_trace(trace, reg, sums) && trace[0] == a && trace.last() == b && b.5 == b.0.len();
    lemma_trace_records(trace, reg, sums, trace.len() - 1);
}

/// Along a trace from no names, up to position `k`.
proof fn lemma_trace_records(
    trace: Seq<ExpandState>,
    reg: HookRegistry,
    sums: Seq<(Symbol, Option<String>, SummaryValue)>,
    k: int,
)
    requires
        expansion_trace(trace, reg, sums),
        trace[0].4 == Seq::<Seq<char>>::empty(),
        0 <= k < trace.len(),
    ensures
        trace[k].4.no_duplicates(),
        trace[k].2.len() == trace[0].2.len() + trace[k].4.len(),
    decreases k,
{
    if k > 0 {
        lemma_trace_records(trace, reg, sums, k - 1);
        lemma_step_records(trace[k - 1], trace[k], reg, sums);
    }
}

} // verus!
