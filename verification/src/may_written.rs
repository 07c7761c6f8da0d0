//! Which state slots may ever be written: a slot whose setter (or an alias
//! of it) is referenced nowhere in the component never changes, since React
//! state only moves through its setter, so a capture of it never goes
//! stale.
use vstd::prelude::*;

use crate::cfg::{BasicBlock, Terminator, CFG};
use crate::free_vars::{collect_used_vars, collect_vars_stmt, reads_block, reads_cfg, reads_expr, reads_stmt, reads_term};
use crate::hooks::HookEntry;
use crate::setters::LabelMap;
use crate::symbol_graph::name_set;
use crate::text::str_eq;
use crate::types::{HookLabel, Var};

verus! {

/// A hook entry references `v`: its body reads it (effect, memo, callback,
/// handler), its initial value does (state, ref), or an argument does
/// (custom hook).
pub open spec fn hook_reads(h: HookEntry, v: Seq<char>) -> bool {
    match h {
        HookEntry::Effect { body_cfg, .. } => reads_cfg(body_cfg, v),
        HookEntry::Memo { body_cfg, .. } => reads_cfg(body_cfg, v),
        HookEntry::Callback { body_cfg, .. } => reads_cfg(body_cfg, v),
        HookEntry::Handler { body_cfg, .. } => reads_cfg(body_cfg, v),
        HookEntry::State { init, .. } => reads_expr(init, v),
        HookEntry::Ref { init, .. } => reads_expr(init, v),
        HookEntry::Custom { args, .. } => exists|k: int| 0 <= k < args.len() && reads_expr(#[trigger] args@[k], v),
    }
}

/// `v` is referenced anywhere in the component: its render body or one of
/// its hook entries.
pub open spec fn referenced(render: CFG, hooks: Seq<HookEntry>, v: Seq<char>) -> bool {
    reads_cfg(render, v) || exists|i: int| 0 <= i < hooks.len() && hook_reads(#[trigger] hooks[i], v)
}

/// Add to `out` every variable `cfg` reads.
#[verifier::loop_isolation(false)]
fn collect_vars_cfg(cfg: &CFG, out: &mut Vec<Var>)
    ensures
        forall|x: Seq<char>| #[trigger] name_set(final(out)@).contains(x) <==> name_set(old(out)@).contains(x) || reads_cfg(*cfg, x),
{
    let ghost o0 = out@;
    let mut i: usize = 0;
    while i < cfg.blocks.len()
        invariant
            i <= cfg.blocks.len(),
            forall|x: Seq<char>| #[trigger] name_set(out@).contains(x) <==> name_set(o0).contains(x) || exists|k: int|
                0 <= k < i && reads_block(#[trigger] cfg.blocks@[k], x),
        decreases cfg.blocks.len() - i,
    {
        let b = &cfg.blocks[i];
        let ghost o1 = out@;
        let mut j: usize = 0;
        while j < b.stmts.len()
            invariant
                j <= b.stmts.len(),
                forall|x: Seq<char>| #[trigger] name_set(out@).contains(x) <==> name_set(o1).contains(x) || exists|k: int|
                    0 <= k < j && reads_stmt(#[trigger] b.stmts@[k], x),
            decreases b.stmts.len() - j,
        {
            collect_vars_stmt(&b.stmts[j], out);
            j = j + 1;
        }
        match &b.term {
            Terminator::Return(e) => collect_used_vars(e, out),
            Terminator::Branch { cond, .. } => collect_used_vars(cond, out),
            _ => {},
        }
        assert forall|x: Seq<char>| #[trigger] name_set(out@).contains(x) <==> name_set(o0).contains(x) || exists|k: int|
            0 <= k < i + 1 && reads_block(#[trigger] cfg.blocks@[k], x) by {
            if exists|k: int| 0 <= k < i + 1 && reads_block(#[trigger] cfg.blocks@[k], x) {
                let k = choose|k: int| 0 <= k < i + 1 && reads_block(#[trigger] cfg.blocks@[k], x);
                if k == i {
                    if !reads_term(b.term, x) {
                        let q = choose|q: int| 0 <= q < b.stmts.len() && reads_stmt(#[trigger] b.stmts@[q], x);
                    }
                }
            }
        }
        i = i + 1;
    }
}

/// Add to `out` every variable the block `b` reads.
pub(crate) fn collect_vars_block(b: &BasicBlock, out: &mut Vec<Var>)
    ensures
        forall|x: Seq<char>| #[trigger] name_set(final(out)@).contains(x) <==> name_set(old(out)@).contains(x) || reads_block(*b, x),
{
    let ghost o1 = out@;
    let mut j: usize = 0;
    while j < b.stmts.len()
        invariant
            j <= b.stmts.len(),
            forall|x: Seq<char>| #[trigger] name_set(out@).contains(x) <==> name_set(o1).contains(x) || exists|k: int|
                0 <= k < j && reads_stmt(#[trigger] b.stmts@[k], x),
        decreases b.stmts.len() - j,
    {
        collect_vars_stmt(&b.stmts[j], out);
        j = j + 1;
    }
    match &b.term {
        Terminator::Return(e) => collect_used_vars(e, out),
        Terminator::Branch { cond, .. } => collect_used_vars(cond, out),
        _ => {},
    }
}

/// Whether `v` names one of `vs`.
pub(crate) fn has_name(vs: &Vec<Var>, v: &Var) -> (r: bool)
    ensures
        r == name_set(vs@).contains(v@),
{
    let mut k: usize = 0;
    while k < vs.len()
        invariant
            k <= vs.len(),
            forall|q: int| 0 <= q < k ==> vs@[q]@ != v@,
        decreases vs.len() - k,
    {
        if str_eq(vs[k].as_str(), v.as_str()) {
            return true;
        }
        k = k + 1;
    }
    false
}

/// Whether `l` is one of `ls`.
fn has_label(ls: &Vec<HookLabel>, l: HookLabel) -> (r: bool)
    ensures
        r == ls@.contains(l),
{
    let mut k: usize = 0;
    while k < ls.len()
        invariant
            k <= ls.len(),
            forall|q: int| 0 <= q < k ==> ls@[q] != l,
        decreases ls.len() - k,
    {
        if ls[k] == l {
            return true;
        }
        k = k + 1;
    }
    false
}

/// The state slots that may ever be written: the labels of `setter_labels`
/// whose setter variable is referenced anywhere in the component (called,
/// passed as a prop, captured by a closure), each once.
pub fn may_written_slots(render_cfg: &CFG, hooks: &Vec<HookEntry>, setter_labels: &LabelMap) -> (r: Vec<HookLabel>)
    ensures
        forall|l: HookLabel| #[trigger] r@.contains(l) <==> exists|k: int|
            0 <= k < setter_labels.len() && setter_labels@[k].1 == l && referenced(*render_cfg, hooks@, setter_labels@[k].0@),
        r@.no_duplicates(),
{
    let mut used: Vec<Var> = Vec::new();
    collect_vars_cfg(render_cfg, &mut used);
    let mut i: usize = 0;
    while i < hooks.len()
        invariant
            i <= hooks.len(),
            forall|x: Seq<char>| #[trigger] name_set(used@).contains(x) <==> reads_cfg(*render_cfg, x) || exists|q: int|
                0 <= q < i && hook_reads(#[trigger] hooks@[q], x),
        decreases hooks.len() - i,
    {
        let ghost u0 = used@;
        match &hooks[i] {
            HookEntry::Effect { body_cfg, .. } => collect_vars_cfg(body_cfg, &mut used),
            HookEntry::Memo { body_cfg, .. } => collect_vars_cfg(body_cfg, &mut used),
            HookEntry::Callback { body_cfg, .. } => collect_vars_cfg(body_cfg, &mut used),
            HookEntry::Handler { body_cfg, .. } => collect_vars_cfg(body_cfg, &mut used),
            HookEntry::State { init, .. } => collect_used_vars(init, &mut used),
            HookEntry::Ref { init, .. } => collect_used_vars(init, &mut used),
            HookEntry::Custom { args, .. } => {
                let mut k: usize = 0;
                while k < args.len()
                    invariant
                        k <= args.len(),
                        forall|x: Seq<char>| #[trigger] name_set(used@).contains(x) <==> name_set(u0).contains(x) || exists|q: int|
                            0 <= q < k && reads_expr(#[trigger] args@[q], x),
                    decreases args.len() - k,
                {
                    collect_used_vars(&args[k], &mut used);
                    k = k + 1;
                }
            },
        }
        assert forall|x: Seq<char>| #[trigger] name_set(used@).contains(x) <==> reads_cfg(*render_cfg, x) || exists|q: int|
            0 <= q < i + 1 && hook_reads(#[trigger] hooks@[q], x) by {
            if exists|q: int| 0 <= q < i + 1 && hook_reads(#[trigger] hooks@[q], x) {
                let q = choose|q: int| 0 <= q < i + 1 && hook_reads(#[trigger] hooks@[q], x);
            }
        }
        i = i + 1;
    }
    let mut r: Vec<HookLabel> = Vec::new();
    let mut k: usize = 0;
    while k < setter_labels.len()
        invariant
            k <= setter_labels.len(),
            forall|x: Seq<char>| #[trigger] name_set(used@).contains(x) <==> referenced(*render_cfg, hooks@, x),
            forall|l: HookLabel| #[trigger] r@.contains(l) <==> exists|q: int|
                0 <= q < k && setter_labels@[q].1 == l && referenced(*render_cfg, hooks@, setter_labels@[q].0@),
            r@.no_duplicates(),
        decreases setter_labels.len() - k,
    {
        let l = setter_labels[k].1;
        let ghost r0 = r@;
        let hit = has_name(&used, &setter_labels[k].0);
        if hit && !has_label(&r, l) {
            r.push(l);
        }
        assert forall|m: HookLabel| #[trigger] r@.contains(m) <==> exists|q: int|
            0 <= q < k + 1 && setter_labels@[q].1 == m && referenced(*render_cfg, hooks@, setter_labels@[q].0@) by {
            if r@.contains(m) && !r0.contains(m) {
                assert(r@.last() == m);
            }
            if r0.contains(m) {
                assert(r@.contains(m)) by {
                    let q = choose|q: int| 0 <= q < r0.len() && r0[q] == m;
                    assert(r@[q] == m);
                }
            }
            if m == l && hit {
                assert(r@.contains(m)) by {
                    if !r0.contains(m) {
                        assert(r@.last() == m);
                    }
                }
            }
        }
        k = k + 1;
    }
    r
}

} // verus!
