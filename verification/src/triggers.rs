//! The effect-trigger relation: which state slot moves which dep of an
//! effect, and how surely.
use vstd::prelude::*;

use crate::cfg::CFG;
use crate::component_id::ComponentId;
use crate::expr::{peeled, Expr};
use crate::hooks::{DepsArg, HookEntry};
use crate::setters::{aliases_to, bindings_in_blocks, get_label, grows, label_of, label_table, label_wf, resolve_setter_aliases, state_val_labels, BindingKind, LabelMap};
use crate::types::{HookLabel, Var};

verus! {

/// A state slot qualified by the component that owns it.
pub type QualifiedSlot = (ComponentId, HookLabel);

/// One dep of an effect that a state slot moves.
#[derive(Debug, Clone, Copy, PartialEq, Eq)]
pub struct EffectTrigger {
    pub hook: HookLabel,
    /// Index of the dep in the effect's deps list.
    pub dep: usize,
    pub slot: QualifiedSlot,
    /// The dep IS the slot value: the effect must re-run whenever a fresh
    /// value is stored. `false`: it may re-run.
    pub exact: bool,
}

/// The rows of `rows` that belong to effect `hook`, in relation order.
pub open spec fn rows_of(rows: Seq<EffectTrigger>, hook: HookLabel) -> Seq<EffectTrigger>
    decreases rows.len(),
{
    if rows.len() == 0 {
        Seq::empty()
    } else if rows.last().hook == hook {
        rows_of(rows.drop_last(), hook).push(rows.last())
    } else {
        rows_of(rows.drop_last(), hook)
    }
}

/// The rows of one effect, in relation order.
pub fn triggers_of(rows: &[EffectTrigger], hook: HookLabel) -> (r: Vec<EffectTrigger>)
    ensures
        r@ == rows_of(rows@, hook),
{
    let mut r: Vec<EffectTrigger> = Vec::new();
    let mut i: usize = 0;
    while i < rows.len()
        invariant
            0 <= i <= rows@.len(),
            r@ == rows_of(rows@.subrange(0, i as int), hook),
        decreases rows@.len() - i,
    {
        assert(rows@.subrange(0, i + 1).drop_last() =~= rows@.subrange(0, i as int));
        if rows[i].hook == hook {
            r.push(rows[i]);
        }
        i = i + 1;
    }
    assert(rows@.subrange(0, rows@.len() as int) =~= rows@);
    r
}


/// The slot a dep is exactly: a state value read directly, or a variable
/// bound to one (through aliases), by the table `sv`.
pub open spec fn exact_slot(dep: Expr, sv: Seq<(Var, HookLabel)>) -> Option<HookLabel> {
    match peeled(dep) {
        Expr::StateVal(l) => Some(l),
        Expr::Var(v) => label_of(sv, v@),
        _ => None,
    }
}

/// The slots whose version the value of dep `i` of effect `hook` carries,
/// as the first matching row of `versioned` gives them; none without one.
pub open spec fn versioned_for(
    versioned: Seq<(HookLabel, usize, Vec<QualifiedSlot>)>,
    hook: HookLabel,
    i: int,
) -> Seq<QualifiedSlot>
    decreases versioned.len(),
{
    if versioned.len() == 0 {
        Seq::empty()
    } else if versioned[0].0 == hook && versioned[0].1 == i {
        versioned[0].2@
    } else {
        versioned_for(versioned.drop_first(), hook, i)
    }
}

/// The rows of dep `i` of effect `hook`: one exact row for the slot it is,
/// else one may-rerun row per slot its value is versioned by.
pub open spec fn dep_rows(
    c: ComponentId,
    hook: HookLabel,
    i: int,
    dep: Expr,
    sv: Seq<(Var, HookLabel)>,
    versioned: Seq<(HookLabel, usize, Vec<QualifiedSlot>)>,
) -> Seq<EffectTrigger> {
    match exact_slot(dep, sv) {
        Some(l) => seq![EffectTrigger { hook, dep: i as usize, slot: (c, l), exact: true }],
        None => versioned_for(versioned, hook, i).map_values(
            |s: QualifiedSlot| EffectTrigger { hook, dep: i as usize, slot: s, exact: false },
        ),
    }
}

/// The rows of the first `n` deps of effect `hook`.
pub open spec fn deps_rows(
    c: ComponentId,
    hook: HookLabel,
    deps: Seq<Expr>,
    n: int,
    sv: Seq<(Var, HookLabel)>,
    versioned: Seq<(HookLabel, usize, Vec<QualifiedSlot>)>,
) -> Seq<EffectTrigger>
    decreases n,
{
    if n <= 0 {
        Seq::empty()
    } else {
        deps_rows(c, hook, deps, n - 1, sv, versioned) + dep_rows(c, hook, n - 1, deps[n - 1], sv, versioned)
    }
}

/// The rows of one hook entry: those of an effect with a deps list.
pub open spec fn hook_rows(
    c: ComponentId,
    h: HookEntry,
    sv: Seq<(Var, HookLabel)>,
    versioned: Seq<(HookLabel, usize, Vec<QualifiedSlot>)>,
) -> Seq<EffectTrigger> {
    match h {
        HookEntry::Effect { label, deps: DepsArg::List(l), .. } => deps_rows(c, label, l.elems@, l.elems.len() as int, sv, versioned),
        _ => Seq::empty(),
    }
}

/// The rows of the first `n` hook entries, in order.
pub open spec fn hooks_rows(
    c: ComponentId,
    hooks: Seq<HookEntry>,
    n: int,
    sv: Seq<(Var, HookLabel)>,
    versioned: Seq<(HookLabel, usize, Vec<QualifiedSlot>)>,
) -> Seq<EffectTrigger>
    decreases n,
{
    if n <= 0 {
        Seq::empty()
    } else {
        hooks_rows(c, hooks, n - 1, sv, versioned) + hook_rows(c, hooks[n - 1], sv, versioned)
    }
}

/// The versioned slots of dep `i` of effect `hook`.
fn find_versioned(versioned: &Vec<(HookLabel, usize, Vec<QualifiedSlot>)>, hook: HookLabel, i: usize) -> (r: Option<usize>)
    ensures
        r matches Some(k) ==> k < versioned.len() && versioned@[k as int].2@ == versioned_for(versioned@, hook, i as int),
        r is None ==> versioned_for(versioned@, hook, i as int) == Seq::<QualifiedSlot>::empty(),
{
    let mut k: usize = 0;
    assert(versioned@.subrange(0, versioned.len() as int) =~= versioned@);
    while k < versioned.len()
        invariant
            k <= versioned.len(),
            versioned_for(versioned@, hook, i as int) == versioned_for(
                versioned@.subrange(k as int, versioned.len() as int),
                hook,
                i as int,
            ),
        decreases versioned.len() - k,
    {
        let ghost rest = versioned@.subrange(k as int, versioned.len() as int);
        assert(rest[0] == versioned@[k as int]);
        if versioned[k].0 == hook && versioned[k].1 == i {
            return Some(k);
        }
        assert(rest.drop_first() =~= versioned@.subrange(k + 1, versioned.len() as int));
        k = k + 1;
    }
    assert(versioned@.subrange(k as int, versioned.len() as int).len() == 0);
    None
}

/// Every trigger row of `component`'s effects, effect by effect and dep by
/// dep: a dep that is a state value, or a variable bound (through aliases)
/// to one, gives one exact row; any other dep gives one may-rerun row per
/// slot its value is versioned by. What a dep's value is versioned by comes
/// from the value analysis, as rows of `versioned` keyed by effect label and
/// dep index.
pub fn collect_effect_triggers(
    component: ComponentId,
    render_cfg: &CFG,
    hooks: &Vec<HookEntry>,
    versioned: &Vec<(HookLabel, usize, Vec<QualifiedSlot>)>,
) -> (r: Vec<EffectTrigger>)
    ensures
        exists|base: Seq<(Var, HookLabel)>, sv: Seq<(Var, HookLabel)>|
            {
                &&& label_wf(base)
                &&& label_table(base) == bindings_in_blocks(render_cfg.blocks@, BindingKind::StateValue, Map::empty())
                &&& label_wf(sv)
                &&& grows(base, sv)
                &&& forall|v: Seq<char>, src: Seq<char>|
                    aliases_to(*render_cfg, v, src) && #[trigger] label_of(sv, src) is Some ==> #[trigger] label_of(sv, v) is Some
                &&& r@ == hooks_rows(component, hooks@, hooks.len() as int, sv, versioned@)
            },
{
    let base = state_val_labels(render_cfg);
    let sv = resolve_setter_aliases(render_cfg, &base);
    let mut out: Vec<EffectTrigger> = Vec::new();
    let mut h: usize = 0;
    while h < hooks.len()
        invariant
            h <= hooks.len(),
            out@ == hooks_rows(component, hooks@, h as int, sv@, versioned@),
        decreases hooks.len() - h,
    {
        match &hooks[h] {
            HookEntry::Effect { label, deps: DepsArg::List(l), .. } => {
                let ghost o0 = out@;
                let mut i: usize = 0;
                while i < l.elems.len()
                    invariant
                        i <= l.elems.len(),
                        out@ == o0 + deps_rows(component, *label, l.elems@, i as int, sv@, versioned@),
                    decreases l.elems.len() - i,
                {
                    let ghost before = out@;
                    let dep = l.elems[i].peel_ts();
                    let exact = match dep {
                        Expr::StateVal(s) => Some(*s),
                        Expr::Var(v) => get_label(&sv, v),
                        _ => None,
                    };
                    match exact {
                        Some(s) => {
                            out.push(EffectTrigger { hook: *label, dep: i, slot: (component, s), exact: true });
                        },
                        None => {
                            match find_versioned(versioned, *label, i) {
                                Some(k) => {
                                    let slots = &versioned[k].2;
                                    let ghost want = dep_rows(component, *label, i as int, l.elems@[i as int], sv@, versioned@);
                                    let mut q: usize = 0;
                                    while q < slots.len()
                                        invariant
                                            q <= slots.len(),
                                            want.len() == slots.len(),
                                            forall|w: int| 0 <= w < slots.len() ==> #[trigger] want[w] == (EffectTrigger { hook: *label, dep: i, slot: slots@[w], exact: false }),
                                            out@ == before + want.subrange(0, q as int),
                                        decreases slots.len() - q,
                                    {
                                        out.push(EffectTrigger { hook: *label, dep: i, slot: slots[q], exact: false });
                                        assert(want.subrange(0, q + 1) =~= want.subrange(0, q as int).push(want[q as int]));
                                        q = q + 1;
                                    }
                                    assert(want.subrange(0, slots.len() as int) =~= want);
                                },
                                None => {},
                            }
                        },
                    }
                    assert(out@ =~= o0 + deps_rows(component, *label, l.elems@, i + 1, sv@, versioned@));
                    i = i + 1;
                }
            },
            _ => {},
        }
        assert(out@ =~= hooks_rows(component, hooks@, h + 1, sv@, versioned@));
        h = h + 1;
    }
    proof {
        assert(forall|v: Seq<char>, src: Seq<char>|
            aliases_to(*render_cfg, v, src) && #[trigger] label_of(sv@, src) is Some ==> #[trigger] label_of(sv@, v) is Some);
    }
    out
}

} // verus!
