//! The setter walk: every call of a state setter reachable from a body,
//! through local helpers and callback arguments, with the phase class the
//! walk context assigns it, and the slot-writer relation built on it.
use std::sync::Arc;

use vstd::prelude::*;

use crate::cfg::{cfg_valid, count_outside, find_block, has_block, has_edge, lemma_closed_contains_reachable, lemma_count_outside_insert, lemma_targets_from, reaches, targets_from, BasicBlock, Edge, Terminator, CFG};
use crate::registrations::{called_name, is_teardown, teardown_name};
use crate::setters::Reachability;
use crate::expr::{peeled, Expr};
use crate::registrations::{match_registrar, registrar_of, Timing};
use crate::bindings::{certified, certified_fn_binding};
use crate::setters::{SetterCall, SetterCallPhase, Updater, WalkClass};
use crate::source_range::SourceRange;
use crate::splice::names;
use crate::stmt::{MemberKey, Stmt};
use crate::text::str_eq;
use crate::types::{BlockId, HookLabel, Var};

verus! {

/// `Arc::clone`: another pointer to the same allocation, so the value it
/// points to is the one `a` points to.
#[verifier::external_body]
pub(crate) fn share(a: &Arc<CFG>) -> (r: Arc<CFG>)
    ensures
        *r == **a,
{
    Arc::clone(a)
}

/// The name and body of `let name = <function literal>`.
pub open spec fn fn_let(s: Stmt) -> Option<(Seq<char>, CFG)> {
    match s {
        Stmt::Let { var, rhs, .. } => match rhs {
            Expr::FnLit { body_cfg, .. } => Some((var@, *body_cfg)),
            _ => None,
        },
        _ => None,
    }
}

/// The function-literal bindings of `ss`, in statement order.
pub open spec fn stmt_fn_lets(ss: Seq<Stmt>) -> Seq<(Seq<char>, CFG)>
    decreases ss.len(),
{
    if ss.len() == 0 {
        Seq::empty()
    } else {
        let prev = stmt_fn_lets(ss.drop_last());
        match fn_let(ss.last()) {
            Some(b) => prev.push(b),
            None => prev,
        }
    }
}

/// The function-literal bindings of the blocks `bs`, block by block.
pub open spec fn block_fn_lets(bs: Seq<BasicBlock>) -> Seq<(Seq<char>, CFG)>
    decreases bs.len(),
{
    if bs.len() == 0 {
        Seq::empty()
    } else {
        block_fn_lets(bs.drop_last()) + stmt_fn_lets(bs.last().stmts@)
    }
}

/// The plain values of a binding list.
pub open spec fn fn_views(fb: Seq<(Var, Arc<CFG>)>) -> Seq<(Seq<char>, CFG)> {
    fb.map_values(|e: (Var, Arc<CFG>)| (e.0@, *e.1))
}

/// The body bound last to `v` in `fb`: a later binding replaces an earlier.
pub open spec fn bound_fn(fb: Seq<(Seq<char>, CFG)>, v: Seq<char>) -> Option<CFG>
    decreases fb.len(),
{
    if fb.len() == 0 {
        None
    } else if fb.last().0 == v {
        Some(fb.last().1)
    } else {
        bound_fn(fb.drop_last(), v)
    }
}

/// Every `let x = <function literal>` of `cfg`'s own statements, in block
/// and statement order; a lookup takes the last binding of a name.
pub fn collect_fn_bindings(cfg: &CFG) -> (r: Vec<(Var, Arc<CFG>)>)
    ensures
        fn_views(r@) == block_fn_lets(cfg.blocks@),
{
    let mut r: Vec<(Var, Arc<CFG>)> = Vec::new();
    let mut b: usize = 0;
    assert(cfg.blocks@.subrange(0, 0) =~= Seq::<BasicBlock>::empty());
    while b < cfg.blocks.len()
        invariant
            b <= cfg.blocks.len(),
            fn_views(r@) == block_fn_lets(cfg.blocks@.subrange(0, b as int)),
        decreases cfg.blocks.len() - b,
    {
        let blk = &cfg.blocks[b];
        let ghost r0 = fn_views(r@);
        let mut s: usize = 0;
        assert(blk.stmts@.subrange(0, 0) =~= Seq::<Stmt>::empty());
        while s < blk.stmts.len()
            invariant
                b < cfg.blocks.len(),
                *blk == cfg.blocks@[b as int],
                s <= blk.stmts.len(),
                fn_views(r@) == r0 + stmt_fn_lets(blk.stmts@.subrange(0, s as int)),
            decreases blk.stmts.len() - s,
        {
            let ghost before = r@;
            assert(blk.stmts@.subrange(0, s + 1).drop_last() =~= blk.stmts@.subrange(0, s as int));
            match &blk.stmts[s] {
                Stmt::Let { var, rhs, .. } => match rhs {
                    Expr::FnLit { body_cfg, .. } => {
                        r.push((var.clone(), share(body_cfg)));
                        assert(fn_views(r@) =~= fn_views(before).push((var@, **body_cfg)));
                    },
                    _ => {},
                },
                _ => {},
            }
            s = s + 1;
        }
        assert(blk.stmts@.subrange(0, blk.stmts.len() as int) =~= blk.stmts@);
        assert(cfg.blocks@.subrange(0, b + 1).drop_last() =~= cfg.blocks@.subrange(0, b as int));
        b = b + 1;
    }
    assert(cfg.blocks@.subrange(0, cfg.blocks.len() as int) =~= cfg.blocks@);
    r
}

/// The body bound last to `name`.
fn lookup_fn<'a>(fb: &'a Vec<(Var, Arc<CFG>)>, name: &str) -> (r: Option<&'a Arc<CFG>>)
    ensures
        r is Some <==> bound_fn(fn_views(fb@), name@) is Some,
        r matches Some(b) ==> bound_fn(fn_views(fb@), name@) == Some(**b),
{
    let mut k: usize = fb.len();
    assert(fn_views(fb@).subrange(0, k as int) =~= fn_views(fb@));
    while k > 0
        invariant
            k <= fb.len(),
            bound_fn(fn_views(fb@), name@) == bound_fn(fn_views(fb@).subrange(0, k as int), name@),
        decreases k,
    {
        let ghost pre = fn_views(fb@).subrange(0, k as int);
        assert(pre.drop_last() =~= fn_views(fb@).subrange(0, k - 1));
        if str_eq(fb[k - 1].0.as_str(), name) {
            return Some(&fb[k - 1].1);
        }
        k = k - 1;
    }
    None
}

/// The `Array.prototype` methods that call their function argument
/// synchronously: the argument runs in the enclosing phase.
pub open spec fn sync_hof_names() -> Seq<Seq<char>> {
    seq![
        "map"@,
        "forEach"@,
        "filter"@,
        "reduce"@,
        "reduceRight"@,
        "find"@,
        "findIndex"@,
        "findLast"@,
        "findLastIndex"@,
        "some"@,
        "every"@,
        "flatMap"@,
        "sort"@,
    ]
}

/// `true` iff `n` names a synchronous array method.
fn is_sync_hof_name(n: &str) -> (r: bool)
    ensures
        r == sync_hof_names().contains(n@),
{
    let mut list: Vec<&str> = Vec::new();
    list.push("map");
    list.push("forEach");
    list.push("filter");
    list.push("reduce");
    list.push("reduceRight");
    list.push("find");
    list.push("findIndex");
    list.push("findLast");
    list.push("findLastIndex");
    list.push("some");
    list.push("every");
    list.push("flatMap");
    list.push("sort");
    assert(list@.map_values(|x: &str| x@) =~= sync_hof_names());
    let mut i: usize = 0;
    while i < list.len()
        invariant
            i <= list.len(),
            list@.map_values(|x: &str| x@) == sync_hof_names(),
            forall|k: int| 0 <= k < i ==> list@[k]@ != n@,
        decreases list.len() - i,
    {
        if str_eq(list[i], n) {
            assert(sync_hof_names()[i as int] == n@);
            return true;
        }
        i = i + 1;
    }
    proof {
        if sync_hof_names().contains(n@) {
            let k = choose|k: int| 0 <= k < sync_hof_names().len() && sync_hof_names()[k] == n@;
            assert(list@[k]@ == n@);
        }
    }
    false
}

/// The synchronous array methods are exactly the `Array.prototype` methods
/// that call their callback before returning: `map`, `forEach`, `filter`,
/// `reduce`, `reduceRight`, `find`, `findIndex`, `findLast`,
/// `findLastIndex`, `some`, `every`, `flatMap` and `sort`; a callback
/// handed to one of them runs in the caller's phase.
pub proof fn lemma_sync_array_methods(n: Seq<char>)
    ensures
        sync_hof_names().contains(n) <==> {
            ||| n == "map"@
            ||| n == "forEach"@
            ||| n == "filter"@
            ||| n == "reduce"@
            ||| n == "reduceRight"@
            ||| n == "find"@
            ||| n == "findIndex"@
            ||| n == "findLast"@
            ||| n == "findLastIndex"@
            ||| n == "some"@
            ||| n == "every"@
            ||| n == "flatMap"@
            ||| n == "sort"@
        },
        forall|obj: Box<Expr>, field: String| field@ == n ==> (is_sync_hof_spec(Expr::FieldAccess { obj, field })
            <==> sync_hof_names().contains(n)),
{
    let t = sync_hof_names();
    assert(t[0] == "map"@ && t[1] == "forEach"@ && t[2] == "filter"@ && t[3] == "reduce"@);
    assert(t[4] == "reduceRight"@ && t[5] == "find"@ && t[6] == "findIndex"@ && t[7] == "findLast"@);
    assert(t[8] == "findLastIndex"@ && t[9] == "some"@ && t[10] == "every"@ && t[11] == "flatMap"@ && t[12] == "sort"@);
    if t.contains(n) {
        let k = choose|k: int| 0 <= k < t.len() && t[k] == n;
        assert(0 <= k < 13);
    }
}

/// A callee that runs its function argument once per element, synchronously.
pub open spec fn is_sync_hof_spec(fn_: Expr) -> bool {
    match fn_ {
        Expr::FieldAccess { field, .. } => sync_hof_names().contains(field@),
        _ => false,
    }
}

/// The class a function argument of a call to `fn_` takes in mode `mode`:
/// the registrar table's timing summary, unless a local binding shadows a
/// bare-global registrar; a synchronous array method runs it in the
/// enclosing mode; anything else is unknown.
pub open spec fn arg_class_spec(fn_: Expr, mode: WalkClass, shadowed: Seq<Seq<char>>) -> WalkClass {
    let by_table = match registrar_of(fn_) {
        Some(row) => {
            let bare_shadowed = !row.3 && match peeled(fn_) {
                Expr::Var(n) => shadowed.contains(n@),
                _ => false,
            };
            if bare_shadowed {
                None
            } else {
                Some(
                    match row.4 {
                        Timing::Deferred => WalkClass::Deferred,
                        Timing::Handler => WalkClass::Handler,
                        Timing::Unknown => WalkClass::Unknown,
                    },
                )
            }
        },
        None => None,
    };
    match by_table {
        Some(c) => c,
        None => if is_sync_hof_spec(fn_) {
            mode
        } else {
            WalkClass::Unknown
        },
    }
}

/// The phase a callback runs in by what it is handed to: one handed to
/// `setTimeout` (not shadowed by a local binding) runs later, one handed
/// to `x.addEventListener` runs on an external event, one handed to a
/// promise's `then` runs later, and one handed to `xs.map` (or any other
/// synchronous array method) runs in the caller's own phase.
pub proof fn lemma_callback_phases(n: String, obj: Box<Expr>, mode: WalkClass, shadowed: Seq<Seq<char>>)
    ensures
        n@ == "setTimeout"@ && !shadowed.contains(n@) ==> arg_class_spec(Expr::Var(n), mode, shadowed) == WalkClass::Deferred,
        n@ == "setTimeout"@ ==> arg_class_spec(Expr::FieldAccess { obj, field: n }, mode, shadowed) == WalkClass::Deferred,
        n@ == "addEventListener"@ ==> arg_class_spec(Expr::FieldAccess { obj, field: n }, mode, shadowed) == WalkClass::Handler,
        n@ == "then"@ ==> arg_class_spec(Expr::FieldAccess { obj, field: n }, mode, shadowed) == WalkClass::Deferred,
        sync_hof_names().contains(n@) ==> arg_class_spec(Expr::FieldAccess { obj, field: n }, mode, shadowed) == mode,
{
    crate::registrations::lemma_common_registrars(n, obj);
    crate::registrations::lemma_array_methods_register_nothing(n, obj);
    lemma_sync_array_methods(n@);
}

/// `true` iff `ns` holds the name `n`.
fn holds_name(ns: &Vec<Var>, n: &str) -> (r: bool)
    ensures
        r == names(ns@).contains(n@),
{
    let mut i: usize = 0;
    while i < ns.len()
        invariant
            i <= ns.len(),
            forall|q: int| 0 <= q < i ==> ns@[q]@ != n@,
        decreases ns.len() - i,
    {
        if str_eq(ns[i].as_str(), n) {
            assert(names(ns@)[i as int] == n@);
            return true;
        }
        i = i + 1;
    }
    proof {
        if names(ns@).contains(n@) {
            let q = choose|q: int| 0 <= q < names(ns@).len() && names(ns@)[q] == n@;
            assert(ns@[q]@ == n@);
        }
    }
    false
}

/// What class a function argument of a call to `fn_` takes in mode `mode`.
fn arg_class(fn_: &Expr, mode: WalkClass, shadowed: &Vec<Var>) -> (r: WalkClass)
    ensures
        r == arg_class_spec(*fn_, mode, names(shadowed@)),
{
    match match_registrar(fn_) {
        Some((reg, _)) => {
            let bare_shadowed = !reg.method_only && match fn_.peel_ts() {
                Expr::Var(n) => holds_name(shadowed, n.as_str()),
                _ => false,
            };
            if !bare_shadowed {
                return match reg.timing {
                    Timing::Deferred => WalkClass::Deferred,
                    Timing::Handler => WalkClass::Handler,
                    Timing::Unknown => WalkClass::Unknown,
                };
            }
        },
        None => {},
    }
    match fn_ {
        Expr::FieldAccess { field, .. } => {
            if is_sync_hof_name(field.as_str()) {
                mode
            } else {
                WalkClass::Unknown
            }
        },
        _ => WalkClass::Unknown,
    }
}

/// The body recorded for the callback labelled `l`, the first if several.
pub open spec fn callback_body(cb: Seq<(HookLabel, Arc<CFG>)>, l: HookLabel) -> Option<CFG>
    decreases cb.len(),
{
    if cb.len() == 0 {
        None
    } else if cb[0].0 == l {
        Some(*cb[0].1)
    } else {
        callback_body(cb.drop_first(), l)
    }
}

pub(crate) fn lookup_callback<'a>(cb: &'a Vec<(HookLabel, Arc<CFG>)>, l: HookLabel) -> (r: Option<&'a Arc<CFG>>)
    ensures
        r is Some <==> callback_body(cb@, l) is Some,
        r matches Some(b) ==> callback_body(cb@, l) == Some(**b),
{
    let mut k: usize = 0;
    assert(cb@.subrange(0, cb@.len() as int) =~= cb@);
    while k < cb.len()
        invariant
            k <= cb.len(),
            callback_body(cb@, l) == callback_body(cb@.subrange(k as int, cb@.len() as int), l),
        decreases cb.len() - k,
    {
        let ghost rest = cb@.subrange(k as int, cb@.len() as int);
        assert(rest[0] == cb@[k as int]);
        assert(rest.drop_first() =~= cb@.subrange(k + 1, cb@.len() as int));
        if cb[k].0 == l {
            return Some(&cb[k].1);
        }
        k = k + 1;
    }
    None
}

/// The body argument 0 of a write is proven to be: an inline function
/// literal, a memoized callback's body, or the body of a name certified to
/// be bound once to a function literal. Anything else proves nothing.
pub open spec fn updater_body(
    args: Seq<Expr>,
    callbacks: Seq<(HookLabel, Arc<CFG>)>,
    certified: Seq<Seq<char>>,
    fb: Seq<(Seq<char>, CFG)>,
) -> Option<CFG> {
    if args.len() == 0 {
        None
    } else {
        match peeled(args[0]) {
            Expr::FnLit { body_cfg, .. } => Some(*body_cfg),
            Expr::CallbackVal(l) => callback_body(callbacks, l),
            Expr::Var(v) => if certified.contains(v@) {
                bound_fn(fb, v@)
            } else {
                None
            },
            _ => None,
        }
    }
}

/// Argument 0 of a write, claimed `Functional` only when it is provably a
/// function.
fn updater_of(args: &Vec<Expr>, callbacks: &Vec<(HookLabel, Arc<CFG>)>, certified: &Vec<Var>, fb: &Vec<(Var, Arc<CFG>)>) -> (r: Updater)
    ensures
        match r {
            Updater::Functional(b) => updater_body(args@, callbacks@, names(certified@), fn_views(fb@)) == Some(*b),
            Updater::Unknown => updater_body(args@, callbacks@, names(certified@), fn_views(fb@)) is None,
        },
{
    if args.len() == 0 {
        return Updater::Unknown;
    }
    match args[0].peel_ts() {
        Expr::FnLit { body_cfg, .. } => Updater::Functional(share(body_cfg)),
        Expr::CallbackVal(l) => match lookup_callback(callbacks, *l) {
            Some(b) => Updater::Functional(share(b)),
            None => Updater::Unknown,
        },
        Expr::Var(v) => {
            if holds_name(certified, v.as_str()) {
                match lookup_fn(fb, v.as_str()) {
                    Some(b) => Updater::Functional(share(b)),
                    None => Updater::Unknown,
                }
            } else {
                Updater::Unknown
            }
        },
        _ => Updater::Unknown,
    }
}

/// One raw call site the walk saw.
#[derive(Debug, Clone)]
pub struct FoundSite {
    pub var: Var,
    pub class: WalkClass,
    pub span: Option<SourceRange>,
    /// `Some` only for `Sync` rows, where it is meaningful for dominance.
    pub block_id: Option<BlockId>,
    /// The top-level block of the walked root the walk descended from.
    pub prov_block: Option<BlockId>,
    /// The site sits in a callback a synchronous array method runs, or in a
    /// loop: it may run many times per tick.
    pub repeats: bool,
    /// Argument 0 of the call, classified where the walk still has it.
    pub updater: Updater,
}

/// Every site calls one of the setters, and only a synchronous site names a
/// block.
pub open spec fn sites_sound(found: Seq<FoundSite>, setters: Seq<Seq<char>>) -> bool {
    forall|i: int| 0 <= i < found.len() ==> setters.contains((#[trigger] found[i]).var@) && (found[i].block_id is Some
        ==> found[i].class == WalkClass::Sync)
}

/// The expression a statement evaluates, and its span.
pub open spec fn stmt_parts(s: Stmt) -> (Expr, Option<SourceRange>) {
    match s {
        Stmt::ExprStmt(e, span) => (e, span),
        Stmt::Let { rhs, span, .. } => (rhs, span),
        Stmt::Assign { rhs, span, .. } => (rhs, span),
        Stmt::MemberWrite { rhs, span, .. } => (rhs, span),
    }
}

/// The name `e` calls, when `e` is a call of a bare name.
pub open spec fn direct_callee(e: Expr) -> Option<Seq<char>> {
    match e {
        Expr::Call { fn_, .. } => match *fn_ {
            Expr::Var(n) => Some(n@),
            _ => None,
        },
        _ => None,
    }
}

/// The arguments of a call; none for any other expression.
pub open spec fn call_args(e: Expr) -> Seq<Expr> {
    match e {
        Expr::Call { args, .. } => args@,
        _ => Seq::empty(),
    }
}

/// The body an updater proves, if any.
pub open spec fn updater_view(u: Updater) -> Option<CFG> {
    match u {
        Updater::Functional(b) => Some(*b),
        Updater::Unknown => None,
    }
}

/// `s` calls the setter `n` directly, and `sp` is its span.
pub open spec fn stmt_writes(s: Stmt, setters: Seq<Seq<char>>, n: Seq<char>, sp: Option<SourceRange>) -> bool {
    &&& direct_callee(stmt_parts(s).0) == Some(n)
    &&& setters.contains(n)
    &&& stmt_parts(s).1 == sp
}

/// A statement of the block carrying `id` (the first block that carries it,
/// the one a lookup by id finds) calls the setter `n` directly, with span `sp`.
pub open spec fn direct_write_in(cfg: CFG, id: BlockId, setters: Seq<Seq<char>>, n: Seq<char>, sp: Option<SourceRange>) -> bool {
    exists|b: int, j: int|
        #![trigger cfg.blocks@[b].stmts@[j]]
        0 <= b < cfg.blocks@.len() && cfg.blocks@[b].id == id && (forall|c: int| 0 <= c < b ==> cfg.blocks@[c].id != id)
            && 0 <= j < cfg.blocks@[b].stmts@.len() && stmt_writes(cfg.blocks@[b].stmts@[j], setters, n, sp)
}

/// Some site at or past `lo` calls `n` with span `sp`.
pub open spec fn has_site(found: Seq<FoundSite>, lo: int, n: Seq<char>, sp: Option<SourceRange>) -> bool {
    exists|k: int| lo <= k < found.len() && #[trigger] found[k].var@ == n && found[k].span == sp
}

/// `b` is `a` with more appended.
pub open spec fn extends<T>(b: Seq<T>, a: Seq<T>) -> bool {
    b.len() >= a.len() && b.subrange(0, a.len() as int) == a
}

proof fn lemma_extends_trans<T>(a: Seq<T>, b: Seq<T>, c: Seq<T>)
    requires
        extends(b, a),
        extends(c, b),
    ensures
        extends(c, a),
        forall|i: int| 0 <= i < a.len() ==> #[trigger] c[i] == a[i],
{
    assert forall|i: int| 0 <= i < a.len() implies #[trigger] c[i] == a[i] by {
        assert(c.subrange(0, b.len() as int)[i] == c[i]);
        assert(b.subrange(0, a.len() as int)[i] == b[i]);
    }
    assert(c.subrange(0, a.len() as int) =~= a);
}

proof fn lemma_extends_index<T>(a: Seq<T>, b: Seq<T>)
    requires
        extends(b, a),
    ensures
        forall|i: int| 0 <= i < a.len() ==> #[trigger] b[i] == a[i],
{
    assert forall|i: int| 0 <= i < a.len() implies #[trigger] b[i] == a[i] by {
        assert(b.subrange(0, a.len() as int)[i] == b[i]);
    }
}

/// A site found stays found when more are appended.
proof fn lemma_has_site_grow(a: Seq<FoundSite>, b: Seq<FoundSite>, lo: int, n: Seq<char>, sp: Option<SourceRange>)
    requires
        0 <= lo,
        has_site(a, lo, n, sp),
        extends(b, a),
    ensures
        has_site(b, lo, n, sp),
{
    let k = choose|k: int| lo <= k < a.len() && #[trigger] a[k].var@ == n && a[k].span == sp;
    lemma_extends_index(a, b);
    assert(b[k] == a[k]);
}

/// The (setter, span) pairs of the sites at or past `lo`.
pub open spec fn keys_of(found: Seq<FoundSite>, lo: int) -> Set<(Seq<char>, Option<SourceRange>)> {
    Set::new(|p: (Seq<char>, Option<SourceRange>)| has_site(found, lo, p.0, p.1))
}

/// The callee unregisters a callback and never calls it.
pub open spec fn tears_down(fn_: Expr) -> bool {
    match called_name(fn_) {
        Some(n) => teardown_name(n),
        None => false,
    }
}

/// A call site's key: the setter it calls and its witness span.
pub type SiteKey = (Seq<char>, Option<SourceRange>);

/// The key of a recorded site.
pub open spec fn key_of(s: FoundSite) -> SiteKey {
    (s.var@, s.span)
}

/// `key` is a write a walk of `cfg` can meet with `depth` levels of descent
/// left and the named bodies `walking` on its stack: a write in some block
/// reachable from the entry (the first block carrying that id). At the root
/// of an effect body (`root_effect`) the returned cleanup is walked too.
pub open spec fn cfg_emits(
    setters: Seq<Seq<char>>,
    fb: Seq<(Seq<char>, CFG)>,
    cfg: CFG,
    depth: nat,
    walking: Seq<Seq<char>>,
    root_effect: bool,
    key: SiteKey,
) -> bool
    decreases depth, unwalked(fb, walking), 4nat,
{
    exists|id: BlockId, b: int|
        #![trigger reaches(cfg.edges@, cfg.entry, id), cfg.blocks@[b]]
        reaches(cfg.edges@, cfg.entry, id) && 0 <= b < cfg.blocks@.len() && cfg.blocks@[b].id == id && block_emits(
            setters,
            fb,
            cfg.blocks@[b],
            depth,
            walking,
            root_effect,
            key,
        )
}

/// `key` is a write of one of the block's statements (under the
/// statement's span), of its terminator's expression (under no span), or,
/// at an effect root, of the cleanup it returns.
pub open spec fn block_emits(
    setters: Seq<Seq<char>>,
    fb: Seq<(Seq<char>, CFG)>,
    blk: BasicBlock,
    depth: nat,
    walking: Seq<Seq<char>>,
    root_effect: bool,
    key: SiteKey,
) -> bool
    decreases depth, unwalked(fb, walking), 3nat,
{
    ||| exists|j: int|
        0 <= j < blk.stmts@.len() && expr_emits(
            setters,
            fb,
            stmt_parts(#[trigger] blk.stmts@[j]).0,
            stmt_parts(blk.stmts@[j]).1,
            depth,
            walking,
            key,
        )
    ||| match blk.term {
        Terminator::Return(e) => expr_emits(setters, fb, e, None, depth, walking, key) || (root_effect
            && cleanup_emits(setters, fb, e, depth, walking, key)),
        Terminator::Branch { cond, .. } => expr_emits(setters, fb, cond, None, depth, walking, key),
        _ => false,
    }
}

/// `key` is a write of the cleanup an effect returns: a function literal,
/// or a local helper not on the stack, one level deeper.
pub open spec fn cleanup_emits(
    setters: Seq<Seq<char>>,
    fb: Seq<(Seq<char>, CFG)>,
    e: Expr,
    depth: nat,
    walking: Seq<Seq<char>>,
    key: SiteKey,
) -> bool
    decreases depth, unwalked(fb, walking), 2nat,
{
    depth > 0 && match e {
        Expr::FnLit { body_cfg, .. } => cfg_emits(setters, fb, *body_cfg, (depth - 1) as nat, walking, false, key),
        Expr::Var(name) => match bound_fn(fb, name@) {
            Some(body) => !walking.contains(name@) && cfg_emits(
                setters,
                fb,
                body,
                (depth - 1) as nat,
                walking.push(name@),
                false,
                key,
            ),
            None => false,
        },
        _ => false,
    }
}

/// `key` is a write of the expression `e` (whose statement has span `sp`):
/// a direct call of a setter under `sp`, or a write of a local helper it
/// calls, a function literal it calls at once, or an argument it is handed.
pub open spec fn expr_emits(
    setters: Seq<Seq<char>>,
    fb: Seq<(Seq<char>, CFG)>,
    e: Expr,
    sp: Option<SourceRange>,
    depth: nat,
    walking: Seq<Seq<char>>,
    key: SiteKey,
) -> bool
    decreases depth, unwalked(fb, walking), 2nat,
{
    match e {
        Expr::Call { fn_, args } => {
            ||| (direct_callee(e) == Some(key.0) && setters.contains(key.0) && key.1 == sp)
            ||| helper_emits(setters, fb, *fn_, depth, walking, key)
            ||| literal_emits(setters, fb, *fn_, depth, walking, key)
            ||| exists|i: int| 0 <= i < args.len() && arg_emits(setters, fb, #[trigger] args@[i], depth, walking, key)
        },
        _ => false,
    }
}

/// `key` is a write of the local helper a callee names, one level deeper.
pub open spec fn helper_emits(
    setters: Seq<Seq<char>>,
    fb: Seq<(Seq<char>, CFG)>,
    fn_: Expr,
    depth: nat,
    walking: Seq<Seq<char>>,
    key: SiteKey,
) -> bool
    decreases depth, unwalked(fb, walking), 1nat,
{
    depth > 0 && match fn_ {
        Expr::Var(name) => match bound_fn(fb, name@) {
            Some(body) => !walking.contains(name@) && cfg_emits(
                setters,
                fb,
                body,
                (depth - 1) as nat,
                walking.push(name@),
                false,
                key,
            ),
            None => false,
        },
        _ => false,
    }
}

/// `key` is a write of a function literal called at once, one level deeper.
pub open spec fn literal_emits(
    setters: Seq<Seq<char>>,
    fb: Seq<(Seq<char>, CFG)>,
    fn_: Expr,
    depth: nat,
    walking: Seq<Seq<char>>,
    key: SiteKey,
) -> bool
    decreases depth, unwalked(fb, walking), 1nat,
{
    depth > 0 && match peeled(fn_) {
        Expr::FnLit { body_cfg, .. } => cfg_emits(setters, fb, *body_cfg, (depth - 1) as nat, walking, false, key),
        _ => false,
    }
}

/// `key` is a write of a call argument: a function literal one level
/// deeper, or a local helper passed by name (not on the stack).
pub open spec fn arg_emits(
    setters: Seq<Seq<char>>,
    fb: Seq<(Seq<char>, CFG)>,
    a: Expr,
    depth: nat,
    walking: Seq<Seq<char>>,
    key: SiteKey,
) -> bool
    decreases depth, unwalked(fb, walking), 1nat,
{
    match a {
        Expr::FnLit { body_cfg, .. } => depth > 0 && cfg_emits(setters, fb, *body_cfg, (depth - 1) as nat, walking, false, key),
        Expr::Var(name) => match bound_fn(fb, name@) {
            Some(body) => !walking.contains(name@) && {
                proof {
                    lemma_unwalked_push(fb, walking, name@);
                }
                cfg_emits(setters, fb, body, depth, walking.push(name@), false, key)
            },
            None => false,
        },
        _ => false,
    }
}

/// Every site at or past `lo` is a write of `e` (under span `sp`).
pub open spec fn all_expr_emit(
    found: Seq<FoundSite>,
    lo: int,
    setters: Seq<Seq<char>>,
    fb: Seq<(Seq<char>, CFG)>,
    e: Expr,
    sp: Option<SourceRange>,
    depth: nat,
    walking: Seq<Seq<char>>,
) -> bool {
    forall|k: int| lo <= k < found.len() ==> expr_emits(setters, fb, e, sp, depth, walking, key_of(#[trigger] found[k]))
}

/// Every site at or past `lo` is a write of the block `blk`.
pub open spec fn all_block_emit(
    found: Seq<FoundSite>,
    lo: int,
    setters: Seq<Seq<char>>,
    fb: Seq<(Seq<char>, CFG)>,
    blk: BasicBlock,
    depth: nat,
    walking: Seq<Seq<char>>,
    root_effect: bool,
) -> bool {
    forall|k: int|
        lo <= k < found.len() ==> block_emits(setters, fb, blk, depth, walking, root_effect, key_of(#[trigger] found[k]))
}

/// Every site at or past `lo` is a write a walk of `cfg` can meet.
pub open spec fn all_cfg_emit(
    found: Seq<FoundSite>,
    lo: int,
    setters: Seq<Seq<char>>,
    fb: Seq<(Seq<char>, CFG)>,
    cfg: CFG,
    depth: nat,
    walking: Seq<Seq<char>>,
    root_effect: bool,
) -> bool {
    forall|k: int|
        lo <= k < found.len() ==> cfg_emits(setters, fb, cfg, depth, walking, root_effect, key_of(#[trigger] found[k]))
}

/// Every site at or past `lo` is a write of one of the call arguments `args`.
pub open spec fn all_args_emit(
    found: Seq<FoundSite>,
    lo: int,
    setters: Seq<Seq<char>>,
    fb: Seq<(Seq<char>, CFG)>,
    args: Seq<Expr>,
    depth: nat,
    walking: Seq<Seq<char>>,
) -> bool {
    forall|k: int|
        lo <= k < found.len() ==> exists|i: int|
            0 <= i < args.len() && arg_emits(setters, fb, #[trigger] args[i], depth, walking, key_of(#[trigger] found[k]))
}

/// What a walk of `cfg` with `depth` levels of descent left, and the named
/// bodies `walking` already on its stack, must have recorded in `keys`: the
/// writes of every block reachable from the entry.
pub open spec fn cfg_covered(
    setters: Seq<Seq<char>>,
    fb: Seq<(Seq<char>, CFG)>,
    cfg: CFG,
    depth: nat,
    walking: Seq<Seq<char>>,
    keys: Set<(Seq<char>, Option<SourceRange>)>,
) -> bool
    decreases depth, unwalked(fb, walking), 4nat,
{
    cfg_valid(cfg) ==> forall|id: BlockId|
        #[trigger] reaches(cfg.edges@, cfg.entry, id) ==> block_covered(setters, fb, cfg, id, depth, walking, keys)
}

/// The writes of every statement of the block carrying `id` (the first block
/// that carries it, the one a lookup by id finds) are recorded.
pub open spec fn block_covered(
    setters: Seq<Seq<char>>,
    fb: Seq<(Seq<char>, CFG)>,
    cfg: CFG,
    id: BlockId,
    depth: nat,
    walking: Seq<Seq<char>>,
    keys: Set<(Seq<char>, Option<SourceRange>)>,
) -> bool
    decreases depth, unwalked(fb, walking), 3nat,
{
    forall|b: int, j: int|
        #![trigger cfg.blocks@[b].stmts@[j]]
        0 <= b < cfg.blocks@.len() && cfg.blocks@[b].id == id && (forall|c: int| 0 <= c < b ==> cfg.blocks@[c].id != id)
            && 0 <= j < cfg.blocks@[b].stmts@.len() ==> expr_covered(
            setters,
            fb,
            stmt_parts(cfg.blocks@[b].stmts@[j]).0,
            stmt_parts(cfg.blocks@[b].stmts@[j]).1,
            depth,
            walking,
            keys,
        )
}

/// What a walk of the expression `e`, whose statement has span `sp`, must
/// have recorded: a direct call of a setter under that span; where descent
/// is left, the writes of a local helper it calls (not already on the
/// stack) and of a function literal it calls at once; and, unless the
/// callee is a teardown, the writes of the function arguments it is handed.
pub open spec fn expr_covered(
    setters: Seq<Seq<char>>,
    fb: Seq<(Seq<char>, CFG)>,
    e: Expr,
    sp: Option<SourceRange>,
    depth: nat,
    walking: Seq<Seq<char>>,
    keys: Set<(Seq<char>, Option<SourceRange>)>,
) -> bool
    decreases depth, unwalked(fb, walking), 2nat,
{
    match e {
        Expr::Call { fn_, args } => {
            &&& head_direct_covered(setters, e, sp, keys)
            &&& head_helper_covered(setters, fb, *fn_, depth, walking, keys)
            &&& head_literal_covered(setters, fb, *fn_, depth, walking, keys)
            &&& (!tears_down(*fn_) ==> forall|i: int|
                0 <= i < args.len() ==> arg_covered(setters, fb, #[trigger] args@[i], depth, walking, keys))
        },
        _ => true,
    }
}

/// A direct call of a setter is recorded under the statement's span.
pub open spec fn head_direct_covered(setters: Seq<Seq<char>>, e: Expr, sp: Option<SourceRange>, keys: Set<(Seq<char>, Option<SourceRange>)>) -> bool {
    direct_callee(e) is Some && setters.contains(direct_callee(e).unwrap()) ==> keys.contains(
        (direct_callee(e).unwrap(), sp),
    )
}

/// A callee that names a local helper not on the stack has its body's
/// writes recorded, one level deeper.
pub open spec fn head_helper_covered(
    setters: Seq<Seq<char>>,
    fb: Seq<(Seq<char>, CFG)>,
    fn_: Expr,
    depth: nat,
    walking: Seq<Seq<char>>,
    keys: Set<(Seq<char>, Option<SourceRange>)>,
) -> bool
    decreases depth, unwalked(fb, walking), 1nat,
{
    depth > 0 ==> match fn_ {
        Expr::Var(name) => match bound_fn(fb, name@) {
            Some(body) => !walking.contains(name@) ==> cfg_covered(
                setters,
                fb,
                body,
                (depth - 1) as nat,
                walking.push(name@),
                keys,
            ),
            None => true,
        },
        _ => true,
    }
}

/// A function literal called at once has its writes recorded, one level
/// deeper.
pub open spec fn head_literal_covered(
    setters: Seq<Seq<char>>,
    fb: Seq<(Seq<char>, CFG)>,
    fn_: Expr,
    depth: nat,
    walking: Seq<Seq<char>>,
    keys: Set<(Seq<char>, Option<SourceRange>)>,
) -> bool
    decreases depth, unwalked(fb, walking), 1nat,
{
    depth > 0 ==> match peeled(fn_) {
        Expr::FnLit { body_cfg, .. } => cfg_covered(setters, fb, *body_cfg, (depth - 1) as nat, walking, keys),
        _ => true,
    }
}

/// What a walk must have recorded of a call argument: the writes of a
/// function literal (where descent is left), or of the body of a local
/// helper passed by name (not already on the stack).
pub open spec fn arg_covered(
    setters: Seq<Seq<char>>,
    fb: Seq<(Seq<char>, CFG)>,
    a: Expr,
    depth: nat,
    walking: Seq<Seq<char>>,
    keys: Set<(Seq<char>, Option<SourceRange>)>,
) -> bool
    decreases depth, unwalked(fb, walking), 1nat,
{
    match a {
        Expr::FnLit { body_cfg, .. } => depth > 0 ==> cfg_covered(setters, fb, *body_cfg, (depth - 1) as nat, walking, keys),
        Expr::Var(name) => match bound_fn(fb, name@) {
            Some(body) => !walking.contains(name@) ==> {
                proof {
                    lemma_unwalked_push(fb, walking, name@);
                }
                cfg_covered(setters, fb, body, depth, walking.push(name@), keys)
            },
            None => true,
        },
        _ => true,
    }
}

/// Coverage survives recording more: a larger key set covers what a smaller
/// one did.
pub proof fn lemma_cfg_covered_mono(
    setters: Seq<Seq<char>>,
    fb: Seq<(Seq<char>, CFG)>,
    cfg: CFG,
    depth: nat,
    walking: Seq<Seq<char>>,
    k1: Set<(Seq<char>, Option<SourceRange>)>,
    k2: Set<(Seq<char>, Option<SourceRange>)>,
)
    requires
        cfg_covered(setters, fb, cfg, depth, walking, k1),
        k1.subset_of(k2),
    ensures
        cfg_covered(setters, fb, cfg, depth, walking, k2),
    decreases depth, unwalked(fb, walking), 4nat,
{
    if cfg_valid(cfg) {
        assert forall|id: BlockId| #[trigger] reaches(cfg.edges@, cfg.entry, id) implies block_covered(
            setters,
            fb,
            cfg,
            id,
            depth,
            walking,
            k2,
        ) by {
            lemma_block_covered_mono(setters, fb, cfg, id, depth, walking, k1, k2);
        }
    }
}

/// [`lemma_cfg_covered_mono`] for one block.
pub proof fn lemma_block_covered_mono(
    setters: Seq<Seq<char>>,
    fb: Seq<(Seq<char>, CFG)>,
    cfg: CFG,
    id: BlockId,
    depth: nat,
    walking: Seq<Seq<char>>,
    k1: Set<(Seq<char>, Option<SourceRange>)>,
    k2: Set<(Seq<char>, Option<SourceRange>)>,
)
    requires
        block_covered(setters, fb, cfg, id, depth, walking, k1),
        k1.subset_of(k2),
    ensures
        block_covered(setters, fb, cfg, id, depth, walking, k2),
    decreases depth, unwalked(fb, walking), 3nat,
{
    assert forall|b: int, j: int|
        #![trigger cfg.blocks@[b].stmts@[j]]
        0 <= b < cfg.blocks@.len() && cfg.blocks@[b].id == id && (forall|c: int| 0 <= c < b ==> cfg.blocks@[c].id != id)
            && 0 <= j < cfg.blocks@[b].stmts@.len() implies expr_covered(
            setters,
            fb,
            stmt_parts(cfg.blocks@[b].stmts@[j]).0,
            stmt_parts(cfg.blocks@[b].stmts@[j]).1,
            depth,
            walking,
            k2,
        ) by {
        lemma_expr_covered_mono(
            setters,
            fb,
            stmt_parts(cfg.blocks@[b].stmts@[j]).0,
            stmt_parts(cfg.blocks@[b].stmts@[j]).1,
            depth,
            walking,
            k1,
            k2,
        );
    }
}

/// [`lemma_cfg_covered_mono`] for an expression.
pub proof fn lemma_expr_covered_mono(
    setters: Seq<Seq<char>>,
    fb: Seq<(Seq<char>, CFG)>,
    e: Expr,
    sp: Option<SourceRange>,
    depth: nat,
    walking: Seq<Seq<char>>,
    k1: Set<(Seq<char>, Option<SourceRange>)>,
    k2: Set<(Seq<char>, Option<SourceRange>)>,
)
    requires
        expr_covered(setters, fb, e, sp, depth, walking, k1),
        k1.subset_of(k2),
    ensures
        expr_covered(setters, fb, e, sp, depth, walking, k2),
    decreases depth, unwalked(fb, walking), 2nat,
{
    match e {
        Expr::Call { fn_, args } => {
            lemma_helper_covered_mono(setters, fb, *fn_, depth, walking, k1, k2);
            lemma_literal_covered_mono(setters, fb, *fn_, depth, walking, k1, k2);
            if !tears_down(*fn_) {
                assert forall|i: int| 0 <= i < args.len() implies arg_covered(setters, fb, #[trigger] args@[i], depth, walking, k2) by {
                    lemma_arg_covered_mono(setters, fb, args@[i], depth, walking, k1, k2);
                }
            }
        },
        _ => {},
    }
}

/// [`lemma_cfg_covered_mono`] for a helper callee.
pub proof fn lemma_helper_covered_mono(
    setters: Seq<Seq<char>>,
    fb: Seq<(Seq<char>, CFG)>,
    fn_: Expr,
    depth: nat,
    walking: Seq<Seq<char>>,
    k1: Set<(Seq<char>, Option<SourceRange>)>,
    k2: Set<(Seq<char>, Option<SourceRange>)>,
)
    requires
        head_helper_covered(setters, fb, fn_, depth, walking, k1),
        k1.subset_of(k2),
    ensures
        head_helper_covered(setters, fb, fn_, depth, walking, k2),
    decreases depth, unwalked(fb, walking), 1nat,
{
    if depth > 0 {
        match fn_ {
            Expr::Var(name) => match bound_fn(fb, name@) {
                Some(body) => if !walking.contains(name@) {
                    lemma_cfg_covered_mono(setters, fb, body, (depth - 1) as nat, walking.push(name@), k1, k2);
                },
                None => {},
            },
            _ => {},
        }
    }
}

/// [`lemma_cfg_covered_mono`] for a literal callee.
pub proof fn lemma_literal_covered_mono(
    setters: Seq<Seq<char>>,
    fb: Seq<(Seq<char>, CFG)>,
    fn_: Expr,
    depth: nat,
    walking: Seq<Seq<char>>,
    k1: Set<(Seq<char>, Option<SourceRange>)>,
    k2: Set<(Seq<char>, Option<SourceRange>)>,
)
    requires
        head_literal_covered(setters, fb, fn_, depth, walking, k1),
        k1.subset_of(k2),
    ensures
        head_literal_covered(setters, fb, fn_, depth, walking, k2),
    decreases depth, unwalked(fb, walking), 1nat,
{
    if depth > 0 {
        match peeled(fn_) {
            Expr::FnLit { body_cfg, .. } => {
                lemma_cfg_covered_mono(setters, fb, arc_body(body_cfg), (depth - 1) as nat, walking, k1, k2);
            },
            _ => {},
        }
    }
}

/// [`lemma_cfg_covered_mono`] for a call argument.
pub proof fn lemma_arg_covered_mono(
    setters: Seq<Seq<char>>,
    fb: Seq<(Seq<char>, CFG)>,
    a: Expr,
    depth: nat,
    walking: Seq<Seq<char>>,
    k1: Set<(Seq<char>, Option<SourceRange>)>,
    k2: Set<(Seq<char>, Option<SourceRange>)>,
)
    requires
        arg_covered(setters, fb, a, depth, walking, k1),
        k1.subset_of(k2),
    ensures
        arg_covered(setters, fb, a, depth, walking, k2),
    decreases depth, unwalked(fb, walking), 1nat,
{
    match a {
        Expr::FnLit { body_cfg, .. } => if depth > 0 {
            lemma_cfg_covered_mono(setters, fb, arc_body(body_cfg), (depth - 1) as nat, walking, k1, k2);
        },
        Expr::Var(name) => match bound_fn(fb, name@) {
            Some(body) => if !walking.contains(name@) {
                lemma_unwalked_push(fb, walking, name@);
                lemma_cfg_covered_mono(setters, fb, body, depth, walking.push(name@), k1, k2);
            },
            None => {},
        },
        _ => {},
    }
}

/// Keys of a merged inner walk are keys of the outer walk.
pub proof fn lemma_keys_merge(
    inner: Seq<FoundSite>,
    before: Seq<FoundSite>,
    after: Seq<FoundSite>,
    lo: int,
    mode: WalkClass,
    block_id: Option<BlockId>,
    prov: Option<BlockId>,
)
    requires
        0 <= lo <= before.len(),
        after.len() == before.len() + inner.len(),
        forall|k: int|
            0 <= k < inner.len() ==> after[before.len() + k] == merged_site(#[trigger] inner[k], mode, block_id, prov),
    ensures
        keys_of(inner, 0).subset_of(keys_of(after, lo)),
{
    assert forall|p: (Seq<char>, Option<SourceRange>)| keys_of(inner, 0).contains(p) implies keys_of(after, lo).contains(p) by {
        let k = choose|k: int| 0 <= k < inner.len() && #[trigger] inner[k].var@ == p.0 && inner[k].span == p.1;
        assert(after[before.len() + k] == merged_site(inner[k], mode, block_id, prov));
        assert(after[before.len() + k].var@ == p.0);
    }
}

/// A lower bound further back sees more keys.
pub proof fn lemma_keys_lo(a: Seq<FoundSite>, lo1: int, lo2: int)
    requires
        0 <= lo1 <= lo2,
    ensures
        keys_of(a, lo2).subset_of(keys_of(a, lo1)),
{
    assert forall|p: (Seq<char>, Option<SourceRange>)| keys_of(a, lo2).contains(p) implies keys_of(a, lo1).contains(p) by {
        let k = choose|k: int| lo2 <= k < a.len() && #[trigger] a[k].var@ == p.0 && a[k].span == p.1;
    }
}

/// Keys recorded stay recorded as sites are appended, and a lower bound
/// further back sees more of them.
pub proof fn lemma_keys_grow(a: Seq<FoundSite>, b: Seq<FoundSite>, lo1: int, lo2: int)
    requires
        extends(b, a),
        0 <= lo1 <= lo2,
    ensures
        keys_of(a, lo2).subset_of(keys_of(b, lo1)),
{
    lemma_extends_index(a, b);
    assert forall|p: (Seq<char>, Option<SourceRange>)| keys_of(a, lo2).contains(p) implies keys_of(b, lo1).contains(p) by {
        let k = choose|k: int| lo2 <= k < a.len() && #[trigger] a[k].var@ == p.0 && a[k].span == p.1;
        assert(b[k] == a[k]);
    }
}

/// The body a shared pointer holds.
pub open spec fn arc_body(a: Arc<CFG>) -> CFG {
    *a
}

/// What [`merge_inner`] makes of an inner site.
pub open spec fn merged_site(s: FoundSite, mode: WalkClass, block_id: Option<BlockId>, prov: Option<BlockId>) -> FoundSite {
    FoundSite {
        var: s.var,
        class: if s.class == WalkClass::Sync {
            mode
        } else {
            s.class
        },
        span: s.span,
        block_id: if s.class == WalkClass::Sync {
            block_id
        } else {
            None
        },
        prov_block: prov,
        repeats: s.repeats,
        updater: s.updater,
    }
}

/// The fixed context of one walk.
pub struct Walk<'a> {
    pub setter_vars: &'a Vec<Var>,
    pub fn_bindings: &'a Vec<(Var, Arc<CFG>)>,
    /// The walked root is an effect body: its returned function is its
    /// cleanup, and its top-level listeners were lifted into handler entries.
    pub effect_body: bool,
    /// Locally bound names that disable a bare-global registrar summary.
    pub shadowed: &'a Vec<Var>,
    /// The memoized callbacks' bodies, by label.
    pub callback_bodies: &'a Vec<(HookLabel, Arc<CFG>)>,
    /// The names bound exactly once, to a function literal.
    pub certified_fns: &'a Vec<Var>,
}

/// How many bindings are for names not on the walk stack `w`.
pub open spec fn unwalked(fb: Seq<(Seq<char>, CFG)>, w: Seq<Seq<char>>) -> nat
    decreases fb.len(),
{
    if fb.len() == 0 {
        0
    } else {
        unwalked(fb.drop_last(), w) + if w.contains(fb.last().0) {
            0nat
        } else {
            1nat
        }
    }
}

pub proof fn lemma_push_has(w: Seq<Seq<char>>, v: Seq<char>, x: Seq<char>)
    ensures
        w.push(v).contains(x) <==> w.contains(x) || x == v,
{
    if w.contains(x) {
        let k = choose|k: int| 0 <= k < w.len() && w[k] == x;
        assert(w.push(v)[k] == x);
    }
    if x == v {
        assert(w.push(v)[w.len() as int] == x);
    }
    if w.push(v).contains(x) {
        let k = choose|k: int| 0 <= k < w.push(v).len() && w.push(v)[k] == x;
        if k < w.len() {
            assert(w[k] == x);
        }
    }
}

pub proof fn lemma_unwalked_le(fb: Seq<(Seq<char>, CFG)>, w: Seq<Seq<char>>, v: Seq<char>)
    ensures
        unwalked(fb, w.push(v)) <= unwalked(fb, w),
    decreases fb.len(),
{
    if fb.len() > 0 {
        lemma_unwalked_le(fb.drop_last(), w, v);
        lemma_push_has(w, v, fb.last().0);
    }
}

/// Pushing a bound name not yet on the stack shrinks what is left.
pub proof fn lemma_unwalked_push(fb: Seq<(Seq<char>, CFG)>, w: Seq<Seq<char>>, v: Seq<char>)
    requires
        bound_fn(fb, v) is Some,
        !w.contains(v),
    ensures
        unwalked(fb, w.push(v)) < unwalked(fb, w),
    decreases fb.len(),
{
    lemma_push_has(w, v, fb.last().0);
    if fb.last().0 == v {
        lemma_unwalked_le(fb.drop_last(), w, v);
    } else {
        lemma_unwalked_push(fb.drop_last(), w, v);
    }
}

/// `w` with `n` pushed.
fn pushed(w: &Vec<Var>, n: &str) -> (r: Vec<Var>)
    ensures
        names(r@) == names(w@).push(n@),
{
    let mut r = crate::expr::copy_strings(w);
    r.push(n.to_string());
    assert(names(r@) =~= names(w@).push(n@));
    r
}

/// Append the sites of `inner`, found in a body the current call runs
/// synchronously, as sites of this call: a synchronous site takes this
/// call's class and block, any other keeps its own class and names no
/// block; every one takes this call's provenance.
fn merge_inner(found: &mut Vec<FoundSite>, inner: Vec<FoundSite>, mode: WalkClass, block_id: Option<BlockId>, prov: Option<BlockId>, Ghost(setters): Ghost<Seq<Seq<char>>>)
    requires
        sites_sound(old(found)@, setters),
        sites_sound(inner@, setters),
        block_id is Some ==> mode == WalkClass::Sync,
    ensures
        sites_sound(final(found)@, setters),
        final(found)@.len() >= old(found)@.len(),
        final(found)@.subrange(0, old(found)@.len() as int) == old(found)@,
        final(found)@.len() == old(found)@.len() + inner@.len(),
        forall|k: int|
            0 <= k < inner@.len() ==> final(found)@[old(found)@.len() + k] == merged_site(
                #[trigger] inner@[k],
                mode,
                block_id,
                prov,
            ),
{
    let ghost f0 = found@;
    let mut inner = inner;
    let ghost i0 = inner@;
    while inner.len() > 0
        invariant
            sites_sound(found@, setters),
            found@.len() >= f0.len(),
            found@.subrange(0, f0.len() as int) == f0,
            block_id is Some ==> mode == WalkClass::Sync,
            forall|k: int| 0 <= k < inner.len() ==> setters.contains((#[trigger] inner@[k]).var@),
            inner.len() <= i0.len(),
            inner@ == i0.subrange(i0.len() - inner.len(), i0.len() as int),
            found@.len() == f0.len() + (i0.len() - inner.len()),
            forall|k: int|
                0 <= k < i0.len() - inner.len() ==> found@[f0.len() + k] == merged_site(
                    #[trigger] i0[k],
                    mode,
                    block_id,
                    prov,
                ),
        decreases inner.len(),
    {
        let ghost done: int = i0.len() - inner.len();
        assert(inner@[0] == i0[done]);
        let site = inner.remove(0);
        let sync = site.class == WalkClass::Sync;
        let ghost before = found@;
        found.push(FoundSite {
            var: site.var,
            class: if sync {
                mode
            } else {
                site.class
            },
            span: site.span,
            block_id: if sync {
                block_id
            } else {
                None
            },
            prov_block: prov,
            repeats: site.repeats,
            updater: site.updater,
        });
        assert(found@.subrange(0, f0.len() as int) =~= before.subrange(0, f0.len() as int));
        assert(inner@ =~= i0.subrange(i0.len() - inner.len(), i0.len() as int));
        assert(found@[f0.len() + done] == merged_site(i0[done], mode, block_id, prov));
    }
}

/// Walk the blocks of `cfg` reachable from its entry, breadth first, and
/// record every setter call found, descending local helpers and callback
/// arguments as far as `depth` allows. `walking` is the stack of named
/// bodies being walked: a named body already on it is not walked again, which
/// is what ends a cycle of callbacks. `at_root` marks the walk's outermost
/// body, where an effect's returned cleanup and its lifted listeners live.
#[verifier::loop_isolation(false)]
fn walk_cfg(
    ctx: &Walk,
    cfg: &CFG,
    depth: usize,
    walking: &Vec<Var>,
    repeating: bool,
    at_root: bool,
    found: &mut Vec<FoundSite>,
    mode: WalkClass,
    prov: Option<BlockId>,
)
    requires
        sites_sound(old(found)@, names(ctx.setter_vars@)),
    ensures
        sites_sound(final(found)@, names(ctx.setter_vars@)),
        final(found)@.len() >= old(found)@.len(),
        final(found)@.subrange(0, old(found)@.len() as int) == old(found)@,
        cfg_valid(*cfg) ==> forall|id: BlockId, n: Seq<char>, sp: Option<SourceRange>|
            reaches(cfg.edges@, cfg.entry, id) && #[trigger] direct_write_in(*cfg, id, names(ctx.setter_vars@), n, sp)
                ==> has_site(final(found)@, old(found)@.len() as int, n, sp),
        !ctx.effect_body ==> cfg_covered(
            names(ctx.setter_vars@),
            fn_views(ctx.fn_bindings@),
            *cfg,
            depth as nat,
            names(walking@),
            keys_of(final(found)@, old(found)@.len() as int),
        ),
        all_cfg_emit(
            final(found)@,
            old(found)@.len() as int,
            names(ctx.setter_vars@),
            fn_views(ctx.fn_bindings@),
            *cfg,
            depth as nat,
            names(walking@),
            ctx.effect_body && at_root,
        ),
    decreases depth, unwalked(fn_views(ctx.fn_bindings@), names(walking@)), 3nat,
{
    let ghost f0 = found@;
    let ghost setters = names(ctx.setter_vars@);
    let ghost fbv = fn_views(ctx.fn_bindings@);
    let ghost wv = names(walking@);
    let ghost dn = depth as nat;
    let ghost lo = f0.len() as int;
    let ghost re = ctx.effect_body && at_root;
    proof {
        crate::cfg::lemma_reaches_refl(cfg.edges@, cfg.entry);
    }
    let reach = Reachability::of(cfg);
    let post_await = cfg.post_await_blocks();
    let ghost u: Seq<BlockId> = seq![cfg.entry] + cfg.edges@.map_values(|e: Edge| e.to);
    let mut queue: Vec<BlockId> = Vec::new();
    queue.push(cfg.entry);
    let ghost mut vset: Set<BlockId> = Set::empty().insert(cfg.entry);
    assert(u[0] == cfg.entry);
    let mut head: usize = 0;
    proof {
        assert forall|x: BlockId| #[trigger] queue@.contains(x) implies reaches(cfg.edges@, cfg.entry, x) by {
            assert(queue@[0] == cfg.entry);
        }
    }
    while head < queue.len()
        invariant
            head <= queue.len(),
            u == seq![cfg.entry] + cfg.edges@.map_values(|e: Edge| e.to),
            forall|x: BlockId| #[trigger] vset.contains(x) <==> queue@.contains(x),
            forall|x: BlockId| #[trigger] queue@.contains(x) ==> u.contains(x),
            sites_sound(found@, setters),
            found@.len() >= f0.len(),
            found@.subrange(0, f0.len() as int) == f0,
            vset.contains(cfg.entry),
            cfg_valid(*cfg) ==> forall|i: int, y: BlockId|
                0 <= i < head && #[trigger] has_edge(cfg.edges@, queue@[i], y) ==> vset.contains(y),
            forall|i: int, n: Seq<char>, sp: Option<SourceRange>|
                0 <= i < head && #[trigger] direct_write_in(*cfg, queue@[i], setters, n, sp) ==> has_site(
                    found@,
                    f0.len() as int,
                    n,
                    sp,
                ),
            !ctx.effect_body ==> forall|i: int|
                0 <= i < head ==> block_covered(setters, fbv, *cfg, #[trigger] queue@[i], dn, wv, keys_of(found@, lo)),
            forall|x: BlockId| #[trigger] queue@.contains(x) ==> reaches(cfg.edges@, cfg.entry, x),
            all_cfg_emit(found@, lo, setters, fbv, *cfg, dn, wv, re),
        decreases count_outside(u, vset) + queue.len() - head,
    {
        let ghost fs = found@;
        let ghost qs = queue@;
        let ghost vs = vset;
        let ghost h0: int = head as int;
        let bid = queue[head];
        proof {
            assert(queue@.contains(bid));
        }
        head = head + 1;
        let bmode = if mode == WalkClass::Sync && post_await.contains(&bid) {
            WalkClass::Deferred
        } else {
            mode
        };
        let block_id: Option<BlockId> = if bmode == WalkClass::Sync {
            Some(bid)
        } else {
            None
        };
        let prov_block: Option<BlockId> = if at_root {
            Some(bid)
        } else {
            prov
        };
        let rep = repeating || reach.reaches(bid, bid);
        match find_block(&cfg.blocks, bid) {
            Some(bi) => {
                let block = &cfg.blocks[bi];
                let ghost blk = cfg.blocks@[bi as int];
                let mut j: usize = 0;
                assert(found@.subrange(0, fs.len() as int) =~= fs);
                while j < block.stmts.len()
                    invariant
                        j <= block.stmts.len(),
                        sites_sound(found@, setters),
                        found@.len() >= f0.len(),
                        found@.subrange(0, f0.len() as int) == f0,
                        extends(found@, fs),
                        forall|jj: int, n: Seq<char>, sp: Option<SourceRange>|
                            0 <= jj < j && #[trigger] stmt_writes(block.stmts@[jj], setters, n, sp) ==> has_site(
                                found@,
                                f0.len() as int,
                                n,
                                sp,
                            ),
                        !ctx.effect_body ==> forall|jj: int|
                            0 <= jj < j ==> expr_covered(
                                setters,
                                fbv,
                                stmt_parts(#[trigger] block.stmts@[jj]).0,
                                stmt_parts(block.stmts@[jj]).1,
                                dn,
                                wv,
                                keys_of(found@, lo),
                            ),
                        all_block_emit(found@, fs.len() as int, setters, fbv, blk, dn, wv, re),
                    decreases block.stmts.len() - j,
                {
                    let ghost fb = found@;
                    walk_stmt(ctx, &block.stmts[j], block_id, depth, walking, rep, at_root, found, bmode, prov_block);
                    assert(found@.subrange(0, f0.len() as int) =~= fb.subrange(0, f0.len() as int));
                    proof {
                        lemma_extends_trans(fs, fb, found@);
                        lemma_extends_index(fb, found@);
                        assert forall|k: int| fs.len() <= k < found@.len() implies block_emits(
                            setters,
                            fbv,
                            blk,
                            dn,
                            wv,
                            re,
                            key_of(#[trigger] found@[k]),
                        ) by {
                            if k < fb.len() {
                                assert(found@[k] == fb[k]);
                            } else {
                                assert(expr_emits(
                                    setters,
                                    fbv,
                                    stmt_parts(blk.stmts@[j as int]).0,
                                    stmt_parts(blk.stmts@[j as int]).1,
                                    dn,
                                    wv,
                                    key_of(found@[k]),
                                ));
                            }
                        }
                        assert forall|jj: int, n: Seq<char>, sp: Option<SourceRange>|
                            0 <= jj < j + 1 && #[trigger] stmt_writes(block.stmts@[jj], setters, n, sp) implies has_site(
                                found@,
                                f0.len() as int,
                                n,
                                sp,
                            ) by {
                            if jj < j {
                                lemma_has_site_grow(fb, found@, f0.len() as int, n, sp);
                            } else {
                                let k = fb.len() as int;
                                assert(found@[k].var@ == n && found@[k].span == sp);
                            }
                        }
                        if !ctx.effect_body {
                            lemma_keys_grow(fb, found@, lo, lo);
                            lemma_keys_lo(found@, lo, fb.len() as int);
                            assert forall|jj: int| 0 <= jj < j + 1 implies expr_covered(
                                setters,
                                fbv,
                                stmt_parts(#[trigger] block.stmts@[jj]).0,
                                stmt_parts(block.stmts@[jj]).1,
                                dn,
                                wv,
                                keys_of(found@, lo),
                            ) by {
                                if jj < j {
                                    lemma_expr_covered_mono(setters, fbv, stmt_parts(block.stmts@[jj]).0, stmt_parts(block.stmts@[jj]).1, dn, wv, keys_of(fb, lo), keys_of(found@, lo));
                                } else {
                                    lemma_expr_covered_mono(setters, fbv, stmt_parts(block.stmts@[jj]).0, stmt_parts(block.stmts@[jj]).1, dn, wv, keys_of(found@, fb.len() as int), keys_of(found@, lo));
                                }
                            }
                        }
                    }
                    j = j + 1;
                }
                let ghost fterm = found@;
                match &block.term {
                    Terminator::Return(expr) => {
                        if ctx.effect_body && at_root && bmode == WalkClass::Sync && depth > 0 {
                            let ghost fb = found@;
                            match expr {
                                Expr::FnLit { body_cfg, .. } => {
                                    walk_cfg(ctx, &**body_cfg, depth - 1, walking, rep, false, found, WalkClass::Cleanup, prov_block);
                                    proof {
                                        lemma_extends_index(fb, found@);
                                        assert forall|k: int| fs.len() <= k < found@.len() implies block_emits(
                                            setters,
                                            fbv,
                                            blk,
                                            dn,
                                            wv,
                                            re,
                                            key_of(#[trigger] found@[k]),
                                        ) by {
                                            if k < fb.len() {
                                                assert(found@[k] == fb[k]);
                                            } else {
                                                assert(cleanup_emits(setters, fbv, *expr, dn, wv, key_of(found@[k])));
                                            }
                                        }
                                    }
                                },
                                Expr::Var(name) => {
                                    match lookup_fn(ctx.fn_bindings, name.as_str()) {
                                        Some(body) => {
                                            if !holds_name(walking, name.as_str()) {
                                                let w2 = pushed(walking, name.as_str());
                                                walk_cfg(ctx, &**body, depth - 1, &w2, rep, false, found, WalkClass::Cleanup, prov_block);
                                                proof {
                                                    lemma_extends_index(fb, found@);
                                                    assert(names(w2@) == wv.push(name@));
                                                    assert forall|k: int| fs.len() <= k < found@.len() implies block_emits(
                                                        setters,
                                                        fbv,
                                                        blk,
                                                        dn,
                                                        wv,
                                                        re,
                                                        key_of(#[trigger] found@[k]),
                                                    ) by {
                                                        if k < fb.len() {
                                                            assert(found@[k] == fb[k]);
                                                        } else {
                                                            assert(cleanup_emits(setters, fbv, *expr, dn, wv, key_of(found@[k])));
                                                        }
                                                    }
                                                }
                                            }
                                        },
                                        None => {},
                                    }
                                },
                                _ => {},
                            }
                            assert(found@.subrange(0, f0.len() as int) =~= fb.subrange(0, f0.len() as int));
                            assert(found@.subrange(0, fb.len() as int) =~= fb);
                        }
                        let ghost fb2 = found@;
                        assert(fb2.subrange(0, fterm.len() as int) =~= fterm);
                        walk_expr(ctx, expr, None, block_id, depth, walking, rep, at_root, found, bmode, prov_block);
                        assert(found@.subrange(0, f0.len() as int) =~= fb2.subrange(0, f0.len() as int));
                        proof {
                            lemma_extends_trans(fterm, fb2, found@);
                            lemma_extends_index(fb2, found@);
                            assert forall|k: int| fs.len() <= k < found@.len() implies block_emits(
                                setters,
                                fbv,
                                blk,
                                dn,
                                wv,
                                re,
                                key_of(#[trigger] found@[k]),
                            ) by {
                                if k < fb2.len() {
                                    assert(found@[k] == fb2[k]);
                                } else {
                                    assert(expr_emits(setters, fbv, *expr, None, dn, wv, key_of(found@[k])));
                                }
                            }
                        }
                    },
                    Terminator::Branch { cond, .. } => {
                        let ghost fb = found@;
                        walk_expr(ctx, cond, None, block_id, depth, walking, rep, at_root, found, bmode, prov_block);
                        assert(found@.subrange(0, f0.len() as int) =~= fb.subrange(0, f0.len() as int));
                        proof {
                            lemma_extends_index(fb, found@);
                            assert forall|k: int| fs.len() <= k < found@.len() implies block_emits(
                                setters,
                                fbv,
                                blk,
                                dn,
                                wv,
                                re,
                                key_of(#[trigger] found@[k]),
                            ) by {
                                if k < fb.len() {
                                    assert(found@[k] == fb[k]);
                                } else {
                                    assert(expr_emits(setters, fbv, *cond, None, dn, wv, key_of(found@[k])));
                                }
                            }
                        }
                    },
                    _ => {},
                }
                proof {
                    assert(found@.subrange(0, fterm.len() as int) =~= fterm);
                    lemma_extends_trans(fs, fterm, found@);
                    lemma_extends_index(fs, found@);
                    assert(reaches(cfg.edges@, cfg.entry, bid));
                    assert forall|k: int| lo <= k < found@.len() implies cfg_emits(
                        setters,
                        fbv,
                        *cfg,
                        dn,
                        wv,
                        re,
                        key_of(#[trigger] found@[k]),
                    ) by {
                        if k < fs.len() {
                            assert(found@[k] == fs[k]);
                        } else {
                            assert(block_emits(setters, fbv, cfg.blocks@[bi as int], dn, wv, re, key_of(found@[k])));
                        }
                    }
                    assert forall|n: Seq<char>, sp: Option<SourceRange>|
                        #[trigger] direct_write_in(*cfg, bid, setters, n, sp) implies has_site(
                            found@,
                            f0.len() as int,
                            n,
                            sp,
                        ) by {
                        let (b, jj) = choose|b: int, jj: int|
                            #![trigger cfg.blocks@[b].stmts@[jj]]
                            0 <= b < cfg.blocks@.len() && cfg.blocks@[b].id == bid && (forall|c: int|
                                0 <= c < b ==> cfg.blocks@[c].id != bid) && 0 <= jj < cfg.blocks@[b].stmts@.len()
                                && stmt_writes(cfg.blocks@[b].stmts@[jj], setters, n, sp);
                        if b < bi as int {
                            assert(cfg.blocks@[b].id != bid);
                        }
                        if (bi as int) < b {
                            assert(cfg.blocks@[bi as int].id != bid);
                        }
                        assert(b == bi as int);
                        assert(stmt_writes(block.stmts@[jj], setters, n, sp));
                        lemma_has_site_grow(fterm, found@, f0.len() as int, n, sp);
                    }
                    if !ctx.effect_body {
                        lemma_keys_grow(fterm, found@, lo, lo);
                        assert forall|b: int, jj: int|
                            #![trigger cfg.blocks@[b].stmts@[jj]]
                            0 <= b < cfg.blocks@.len() && cfg.blocks@[b].id == bid && (forall|c: int|
                                0 <= c < b ==> cfg.blocks@[c].id != bid) && 0 <= jj < cfg.blocks@[b].stmts@.len()
                                implies expr_covered(
                                setters,
                                fbv,
                                stmt_parts(cfg.blocks@[b].stmts@[jj]).0,
                                stmt_parts(cfg.blocks@[b].stmts@[jj]).1,
                                dn,
                                wv,
                                keys_of(found@, lo),
                            ) by {
                            if b < bi as int {
                                assert(cfg.blocks@[b].id != bid);
                            }
                            if (bi as int) < b {
                                assert(cfg.blocks@[bi as int].id != bid);
                            }
                            assert(b == bi as int);
                            assert(cfg.blocks@[b].stmts@[jj] == block.stmts@[jj]);
                            lemma_expr_covered_mono(setters, fbv, stmt_parts(block.stmts@[jj]).0, stmt_parts(block.stmts@[jj]).1, dn, wv, keys_of(fterm, lo), keys_of(found@, lo));
                        }
                        assert(block_covered(setters, fbv, *cfg, bid, dn, wv, keys_of(found@, lo)));
                    }
                }
                let ghost fend = found@;
                let succ = cfg.successors(bid);
                proof {
                    lemma_targets_from(cfg.edges@, bid);
                }
                let ghost m0 = count_outside(u, vset) + queue.len();
                let mut k: usize = 0;
                while k < succ.len()
                    invariant
                        head <= queue.len(),
                        k <= succ.len(),
                        succ@ == targets_from(cfg.edges@, bid),
                        forall|x: BlockId| targets_from(cfg.edges@, bid).contains(x) <==> has_edge(cfg.edges@, bid, x),
                        u == seq![cfg.entry] + cfg.edges@.map_values(|e: Edge| e.to),
                        forall|x: BlockId| #[trigger] vset.contains(x) <==> queue@.contains(x),
                        forall|x: BlockId| #[trigger] queue@.contains(x) ==> u.contains(x),
                        count_outside(u, vset) + queue.len() <= m0,
                        forall|x: BlockId| vs.contains(x) ==> #[trigger] vset.contains(x),
                        forall|z: int| 0 <= z < k ==> vset.contains(#[trigger] succ@[z]),
                        queue@.len() >= qs.len(),
                        forall|z: int| 0 <= z < qs.len() ==> #[trigger] queue@[z] == qs[z],
                        forall|x: BlockId| #[trigger] queue@.contains(x) ==> reaches(cfg.edges@, cfg.entry, x),
                        reaches(cfg.edges@, cfg.entry, bid),
                    decreases succ.len() - k,
                {
                    let t = succ[k];
                    let mut seen = false;
                    let mut q: usize = 0;
                    while q < queue.len()
                        invariant
                            q <= queue.len(),
                            seen <==> exists|z: int| 0 <= z < q && queue@[z] == t,
                        decreases queue.len() - q,
                    {
                        if queue[q] == t {
                            seen = true;
                        }
                        q = q + 1;
                    }
                    if !seen {
                        proof {
                            assert(succ@.contains(t));
                            assert(has_edge(cfg.edges@, bid, t));
                            let kk = choose|kk: int| 0 <= kk < cfg.edges@.len() && #[trigger] cfg.edges@[kk].from == bid && cfg.edges@[kk].to == t;
                            assert(u[1 + kk] == t);
                            assert(!vset.contains(t));
                            lemma_count_outside_insert(u, vset, t);
                            vset = vset.insert(t);
                        }
                        let ghost qb = queue@;
                        queue.push(t);
                        proof {
                            assert forall|x: BlockId| #[trigger] vset.contains(x) <==> queue@.contains(x) by {
                                if qb.contains(x) {
                                    let z = choose|z: int| 0 <= z < qb.len() && qb[z] == x;
                                    assert(queue@[z] == x);
                                }
                                if queue@.contains(x) {
                                    let z = choose|z: int| 0 <= z < queue@.len() && queue@[z] == x;
                                    if z < qb.len() {
                                        assert(qb[z] == x);
                                    }
                                }
                                if x == t {
                                    assert(queue@[qb.len() as int] == x);
                                }
                            }
                            assert forall|x: BlockId| #[trigger] queue@.contains(x) implies u.contains(x) by {
                                let z = choose|z: int| 0 <= z < queue@.len() && queue@[z] == x;
                                if z < qb.len() {
                                    assert(qb[z] == x);
                                    assert(qb.contains(x));
                                }
                            }
                            assert forall|z: int| 0 <= z < qs.len() implies #[trigger] queue@[z] == qs[z] by {
                                assert(queue@[z] == qb[z]);
                            }
                            crate::cfg::lemma_reaches_step(cfg.edges@, cfg.entry, bid, t);
                            assert forall|x: BlockId| #[trigger] queue@.contains(x) implies reaches(cfg.edges@, cfg.entry, x) by {
                                let z = choose|z: int| 0 <= z < queue@.len() && queue@[z] == x;
                                if z < qb.len() {
                                    assert(qb[z] == x);
                                    assert(qb.contains(x));
                                }
                            }
                        }
                    } else {
                        proof {
                            let z = choose|z: int| 0 <= z < q && queue@[z] == t;
                            assert(queue@.contains(t));
                        }
                    }
                    k = k + 1;
                }
                proof {
                    assert(queue@[h0] == bid);
                    if cfg_valid(*cfg) {
                        assert forall|i: int, y: BlockId|
                            0 <= i < head && #[trigger] has_edge(cfg.edges@, queue@[i], y) implies vset.contains(y) by {
                            if i < h0 {
                                assert(queue@[i] == qs[i]);
                                assert(vs.contains(y));
                            } else {
                                assert(targets_from(cfg.edges@, bid).contains(y));
                                let z = choose|z: int| 0 <= z < succ@.len() && succ@[z] == y;
                                assert(vset.contains(succ@[z]));
                            }
                        }
                    }
                    assert forall|i: int, n: Seq<char>, sp: Option<SourceRange>|
                        0 <= i < head && #[trigger] direct_write_in(*cfg, queue@[i], setters, n, sp) implies has_site(
                            found@,
                            f0.len() as int,
                            n,
                            sp,
                        ) by {
                        if i < h0 {
                            assert(queue@[i] == qs[i]);
                            lemma_has_site_grow(fs, found@, f0.len() as int, n, sp);
                        }
                    }
                    if !ctx.effect_body {
                        lemma_keys_grow(fs, found@, lo, lo);
                        assert forall|i: int| 0 <= i < head implies block_covered(
                            setters,
                            fbv,
                            *cfg,
                            #[trigger] queue@[i],
                            dn,
                            wv,
                            keys_of(found@, lo),
                        ) by {
                            if i < h0 {
                                assert(queue@[i] == qs[i]);
                                lemma_block_covered_mono(setters, fbv, *cfg, qs[i], dn, wv, keys_of(fs, lo), keys_of(found@, lo));
                            }
                        }
                    }
                }
            },
            None => {
                proof {
                    if cfg_valid(*cfg) {
                        assert(queue@.contains(bid));
                        assert(u.contains(bid));
                        let z = choose|z: int| 0 <= z < u.len() && u[z] == bid;
                        if z == 0 {
                            assert(has_block(cfg.blocks@, cfg.entry));
                        } else {
                            assert(u[z] == cfg.edges@[z - 1].to);
                            assert(has_block(cfg.blocks@, cfg.edges@[z - 1].from));
                            assert(has_block(cfg.blocks@, cfg.edges@[z - 1].to));
                        }
                        assert(false);
                    }
                    assert forall|i: int, n: Seq<char>, sp: Option<SourceRange>|
                        0 <= i < head && #[trigger] direct_write_in(*cfg, queue@[i], setters, n, sp) implies has_site(
                            found@,
                            f0.len() as int,
                            n,
                            sp,
                        ) by {
                        if i == h0 {
                            let (b, jj) = choose|b: int, jj: int|
                                #![trigger cfg.blocks@[b].stmts@[jj]]
                                0 <= b < cfg.blocks@.len() && cfg.blocks@[b].id == bid && (forall|c: int|
                                    0 <= c < b ==> cfg.blocks@[c].id != bid) && 0 <= jj < cfg.blocks@[b].stmts@.len()
                                    && stmt_writes(cfg.blocks@[b].stmts@[jj], setters, n, sp);
                            assert(has_block(cfg.blocks@, bid));
                        }
                    }
                    if !ctx.effect_body {
                        assert forall|i: int| 0 <= i < head implies block_covered(
                            setters,
                            fbv,
                            *cfg,
                            #[trigger] queue@[i],
                            dn,
                            wv,
                            keys_of(found@, lo),
                        ) by {
                            if i == h0 {
                                assert forall|b: int, jj: int|
                                    #![trigger cfg.blocks@[b].stmts@[jj]]
                                    0 <= b < cfg.blocks@.len() && cfg.blocks@[b].id == bid && (forall|c: int|
                                        0 <= c < b ==> cfg.blocks@[c].id != bid) && 0 <= jj < cfg.blocks@[b].stmts@.len()
                                        implies expr_covered(
                                        setters,
                                        fbv,
                                        stmt_parts(cfg.blocks@[b].stmts@[jj]).0,
                                        stmt_parts(cfg.blocks@[b].stmts@[jj]).1,
                                        dn,
                                        wv,
                                        keys_of(found@, lo),
                                    ) by {
                                    assert(has_block(cfg.blocks@, bid));
                                }
                            }
                        }
                    }
                }
            },
        }
    }
    proof {
        if cfg_valid(*cfg) {
            assert forall|x: BlockId, y: BlockId| vset.contains(x) && has_edge(cfg.edges@, x, y) implies vset.contains(y) by {
                assert(queue@.contains(x));
                let i = choose|i: int| 0 <= i < queue@.len() && queue@[i] == x;
                assert(has_edge(cfg.edges@, queue@[i], y));
            }
            assert forall|id: BlockId, n: Seq<char>, sp: Option<SourceRange>|
                reaches(cfg.edges@, cfg.entry, id) && #[trigger] direct_write_in(*cfg, id, setters, n, sp) implies has_site(
                    found@,
                    f0.len() as int,
                    n,
                    sp,
                ) by {
                lemma_closed_contains_reachable(cfg.edges@, vset, cfg.entry, id);
                assert(queue@.contains(id));
                let i = choose|i: int| 0 <= i < queue@.len() && queue@[i] == id;
                assert(direct_write_in(*cfg, queue@[i], setters, n, sp));
            }
            if !ctx.effect_body {
                assert forall|id: BlockId| #[trigger] reaches(cfg.edges@, cfg.entry, id) implies block_covered(
                    setters,
                    fbv,
                    *cfg,
                    id,
                    dn,
                    wv,
                    keys_of(found@, lo),
                ) by {
                    lemma_closed_contains_reachable(cfg.edges@, vset, cfg.entry, id);
                    assert(queue@.contains(id));
                    let i = choose|i: int| 0 <= i < queue@.len() && queue@[i] == id;
                    assert(block_covered(setters, fbv, *cfg, queue@[i], dn, wv, keys_of(found@, lo)));
                }
            }
        }
    }
}

/// Walk the expression a statement evaluates, with the statement's span as
/// the witness of any call found in it.
fn walk_stmt(
    ctx: &Walk,
    stmt: &Stmt,
    block_id: Option<BlockId>,
    depth: usize,
    walking: &Vec<Var>,
    repeating: bool,
    at_root: bool,
    found: &mut Vec<FoundSite>,
    mode: WalkClass,
    prov: Option<BlockId>,
)
    requires
        sites_sound(old(found)@, names(ctx.setter_vars@)),
        block_id is Some ==> mode == WalkClass::Sync,
    ensures
        sites_sound(final(found)@, names(ctx.setter_vars@)),
        final(found)@.len() >= old(found)@.len(),
        final(found)@.subrange(0, old(found)@.len() as int) == old(found)@,
        !(stmt_parts(*stmt).0 is Call) ==> final(found)@ == old(found)@,
        direct_callee(stmt_parts(*stmt).0) is Some && names(ctx.setter_vars@).contains(
            direct_callee(stmt_parts(*stmt).0).unwrap(),
        ) ==> {
            &&& final(found)@.len() > old(found)@.len()
            &&& final(found)@[old(found)@.len() as int].var@ == direct_callee(stmt_parts(*stmt).0).unwrap()
            &&& final(found)@[old(found)@.len() as int].class == mode
            &&& final(found)@[old(found)@.len() as int].span == stmt_parts(*stmt).1
            &&& final(found)@[old(found)@.len() as int].block_id == block_id
            &&& final(found)@[old(found)@.len() as int].prov_block == prov
            &&& final(found)@[old(found)@.len() as int].repeats == repeating
            &&& updater_view(final(found)@[old(found)@.len() as int].updater) == updater_body(
                call_args(stmt_parts(*stmt).0),
                ctx.callback_bodies@,
                names(ctx.certified_fns@),
                fn_views(ctx.fn_bindings@),
            )
        },
        !ctx.effect_body ==> expr_covered(
            names(ctx.setter_vars@),
            fn_views(ctx.fn_bindings@),
            stmt_parts(*stmt).0,
            stmt_parts(*stmt).1,
            depth as nat,
            names(walking@),
            keys_of(final(found)@, old(found)@.len() as int),
        ),
        all_expr_emit(
            final(found)@,
            old(found)@.len() as int,
            names(ctx.setter_vars@),
            fn_views(ctx.fn_bindings@),
            stmt_parts(*stmt).0,
            stmt_parts(*stmt).1,
            depth as nat,
            names(walking@),
        ),
    decreases depth, unwalked(fn_views(ctx.fn_bindings@), names(walking@)), 2nat,
{
    let (expr, span): (&Expr, Option<SourceRange>) = match stmt {
        Stmt::ExprStmt(e, span) => (e, *span),
        Stmt::Let { rhs, span, .. } => (rhs, *span),
        Stmt::Assign { rhs, span, .. } => (rhs, *span),
        Stmt::MemberWrite { rhs, span, .. } => (rhs, *span),
    };
    walk_expr(ctx, expr, span, block_id, depth, walking, repeating, at_root, found, mode, prov);
}

/// Walk the arguments a call hands over: a function literal one level
/// deeper, a local helper passed by name (not already on the stack) at the
/// same depth, each in the class the callee's summary gives it. An effect's
/// own lifted listener (`reified`) is skipped.
#[verifier::loop_isolation(false)]
fn walk_args(
    ctx: &Walk,
    fn_: &Expr,
    args: &Vec<Expr>,
    listener: bool,
    reified: bool,
    hof: bool,
    depth: usize,
    walking: &Vec<Var>,
    repeating: bool,
    found: &mut Vec<FoundSite>,
    mode: WalkClass,
    prov: Option<BlockId>,
)
    requires
        sites_sound(old(found)@, names(ctx.setter_vars@)),
        !ctx.effect_body ==> !reified,
    ensures
        sites_sound(final(found)@, names(ctx.setter_vars@)),
        extends(final(found)@, old(found)@),
        !ctx.effect_body ==> forall|i: int|
            0 <= i < args.len() ==> arg_covered(
                names(ctx.setter_vars@),
                fn_views(ctx.fn_bindings@),
                #[trigger] args@[i],
                depth as nat,
                names(walking@),
                keys_of(final(found)@, old(found)@.len() as int),
            ),
        all_args_emit(
            final(found)@,
            old(found)@.len() as int,
            names(ctx.setter_vars@),
            fn_views(ctx.fn_bindings@),
            args@,
            depth as nat,
            names(walking@),
        ),
    decreases depth, unwalked(fn_views(ctx.fn_bindings@), names(walking@)), 0nat,
{
    let ghost f0 = found@;
    let ghost setters = names(ctx.setter_vars@);
    let ghost fbv = fn_views(ctx.fn_bindings@);
    let ghost wv = names(walking@);
    let ghost dn = depth as nat;
    let ghost lo = f0.len() as int;
    assert(found@.subrange(0, f0.len() as int) =~= f0);
    let mut i: usize = 0;
    while i < args.len()
        invariant
            i <= args.len(),
            sites_sound(found@, setters),
            found@.len() >= f0.len(),
            found@.subrange(0, f0.len() as int) == f0,
            extends(found@, f0),
            !ctx.effect_body ==> forall|i2: int|
                0 <= i2 < i ==> arg_covered(setters, fbv, #[trigger] args@[i2], dn, wv, keys_of(found@, lo)),
            all_args_emit(found@, lo, setters, fbv, args@, dn, wv),
        decreases args.len() - i,
    {
        if !(reified && i == 1) {
            let class = if listener && i == 1 {
                WalkClass::Handler
            } else {
                arg_class(fn_, mode, ctx.shadowed)
            };
            let rep = repeating || hof;
            let ghost fb = found@;
            match &args[i] {
                Expr::FnLit { body_cfg, .. } => {
                    if depth > 0 {
                        walk_cfg(ctx, &**body_cfg, depth - 1, walking, rep, false, found, class, prov);
                        proof {
                            lemma_extends_index(fb, found@);
                            assert forall|k: int| lo <= k < found@.len() implies exists|i3: int|
                                0 <= i3 < args@.len() && arg_emits(setters, fbv, #[trigger] args@[i3], dn, wv, key_of(#[trigger] found@[k])) by {
                                if k < fb.len() {
                                    assert(found@[k] == fb[k]);
                                } else {
                                    assert(arg_emits(setters, fbv, args@[i as int], dn, wv, key_of(found@[k])));
                                }
                            }
                            if !ctx.effect_body {
                                lemma_keys_lo(found@, lo, fb.len() as int);
                                lemma_cfg_covered_mono(setters, fbv, arc_body(*body_cfg), (dn - 1) as nat, wv, keys_of(found@, fb.len() as int), keys_of(found@, lo));
                            }
                        }
                    }
                },
                Expr::Var(name) => {
                    match lookup_fn(ctx.fn_bindings, name.as_str()) {
                        Some(body) => {
                            if !holds_name(walking, name.as_str()) {
                                let w2 = pushed(walking, name.as_str());
                                proof {
                                    lemma_unwalked_push(fn_views(ctx.fn_bindings@), names(walking@), name@);
                                }
                                walk_cfg(ctx, &**body, depth, &w2, rep, false, found, class, prov);
                                proof {
                                    lemma_extends_index(fb, found@);
                                    assert(names(w2@) == wv.push(name@));
                                    assert forall|k: int| lo <= k < found@.len() implies exists|i3: int|
                                        0 <= i3 < args@.len() && arg_emits(setters, fbv, #[trigger] args@[i3], dn, wv, key_of(#[trigger] found@[k])) by {
                                        if k < fb.len() {
                                            assert(found@[k] == fb[k]);
                                        } else {
                                            assert(arg_emits(setters, fbv, args@[i as int], dn, wv, key_of(found@[k])));
                                        }
                                    }
                                    if !ctx.effect_body {
                                        lemma_keys_lo(found@, lo, fb.len() as int);
                                        lemma_cfg_covered_mono(setters, fbv, arc_body(*body), dn, names(w2@), keys_of(found@, fb.len() as int), keys_of(found@, lo));
                                        assert(names(w2@) == wv.push(name@));
                                    }
                                }
                            }
                        },
                        None => {},
                    }
                },
                _ => {},
            }
            assert(found@.subrange(0, f0.len() as int) =~= fb.subrange(0, f0.len() as int));
            proof {
                assert(found@.subrange(0, fb.len() as int) =~= fb);
                lemma_extends_index(fb, found@);
                lemma_extends_trans(f0, fb, found@);
                if !ctx.effect_body {
                    assert(arg_covered(setters, fbv, args@[i as int], dn, wv, keys_of(found@, lo)));
                    lemma_keys_grow(fb, found@, lo, lo);
                    assert forall|i2: int| 0 <= i2 < i + 1 implies arg_covered(
                        setters,
                        fbv,
                        #[trigger] args@[i2],
                        dn,
                        wv,
                        keys_of(found@, lo),
                    ) by {
                        if i2 < i {
                            lemma_arg_covered_mono(setters, fbv, args@[i2], dn, wv, keys_of(fb, lo), keys_of(found@, lo));
                        }
                    }
                }
            }
        }
        i = i + 1;
    }
}

/// Record a direct call of a setter in `expr`, and descend what the call
/// runs: a local helper it calls (in the current mode), a function literal
/// it calls at once, and the function arguments it is handed (in the class
/// the callee's summary gives them). A teardown callee takes its callback
/// back and is not descended; nor is the listener an effect's own
/// `addEventListener` lifted into a handler entry of its own.
#[verifier::loop_isolation(false)]
#[verifier::rlimit(40)]
#[verifier::spinoff_prover]
fn walk_expr(
    ctx: &Walk,
    expr: &Expr,
    stmt_span: Option<SourceRange>,
    block_id: Option<BlockId>,
    depth: usize,
    walking: &Vec<Var>,
    repeating: bool,
    at_root: bool,
    found: &mut Vec<FoundSite>,
    mode: WalkClass,
    prov: Option<BlockId>,
)
    requires
        sites_sound(old(found)@, names(ctx.setter_vars@)),
        block_id is Some ==> mode == WalkClass::Sync,
    ensures
        sites_sound(final(found)@, names(ctx.setter_vars@)),
        final(found)@.len() >= old(found)@.len(),
        final(found)@.subrange(0, old(found)@.len() as int) == old(found)@,
        !((*expr) is Call) ==> final(found)@ == old(found)@,
        direct_callee(*expr) is Some && names(ctx.setter_vars@).contains(direct_callee(*expr).unwrap()) ==> {
            &&& final(found)@.len() > old(found)@.len()
            &&& final(found)@[old(found)@.len() as int].var@ == direct_callee(*expr).unwrap()
            &&& final(found)@[old(found)@.len() as int].class == mode
            &&& final(found)@[old(found)@.len() as int].span == stmt_span
            &&& final(found)@[old(found)@.len() as int].block_id == block_id
            &&& final(found)@[old(found)@.len() as int].prov_block == prov
            &&& final(found)@[old(found)@.len() as int].repeats == repeating
            &&& updater_view(final(found)@[old(found)@.len() as int].updater) == updater_body(
                call_args(*expr),
                ctx.callback_bodies@,
                names(ctx.certified_fns@),
                fn_views(ctx.fn_bindings@),
            )
        },
        !ctx.effect_body ==> expr_covered(
            names(ctx.setter_vars@),
            fn_views(ctx.fn_bindings@),
            *expr,
            stmt_span,
            depth as nat,
            names(walking@),
            keys_of(final(found)@, old(found)@.len() as int),
        ),
        all_expr_emit(
            final(found)@,
            old(found)@.len() as int,
            names(ctx.setter_vars@),
            fn_views(ctx.fn_bindings@),
            *expr,
            stmt_span,
            depth as nat,
            names(walking@),
        ),
    decreases depth, unwalked(fn_views(ctx.fn_bindings@), names(walking@)), 1nat,
{
    let ghost f0 = found@;
    let ghost setters = names(ctx.setter_vars@);
    let ghost mut first: Option<FoundSite> = None;
    let ghost fbv = fn_views(ctx.fn_bindings@);
    let ghost wv = names(walking@);
    let ghost dn = depth as nat;
    let ghost lo = f0.len() as int;
    match expr {
        Expr::Call { fn_, args } => {
            match &**fn_ {
                Expr::Var(name) => {
                    if holds_name(ctx.setter_vars, name.as_str()) {
                        let ghost fb = found@;
                        let updater = updater_of(args, ctx.callback_bodies, ctx.certified_fns, ctx.fn_bindings);
                        found.push(FoundSite {
                            var: name.clone(),
                            class: mode,
                            span: stmt_span,
                            block_id,
                            prov_block: prov,
                            repeats: repeating,
                            updater,
                        });
                        assert(found@.subrange(0, f0.len() as int) =~= fb.subrange(0, f0.len() as int));
                        proof {
                            first = Some(found@[f0.len() as int]);
                            assert(expr_emits(setters, fbv, *expr, stmt_span, dn, wv, key_of(found@[f0.len() as int])));
                        }
                    }
                    proof {
                        assert(all_expr_emit(found@, lo, setters, fbv, *expr, stmt_span, dn, wv));
                    }
                    if depth > 0 {
                        match lookup_fn(ctx.fn_bindings, name.as_str()) {
                            Some(body) => {
                                if !holds_name(walking, name.as_str()) {
                                    let w2 = pushed(walking, name.as_str());
                                    let mut inner: Vec<FoundSite> = Vec::new();
                                    walk_cfg(ctx, &**body, depth - 1, &w2, repeating, false, &mut inner, WalkClass::Sync, prov);
                                    let ghost fb = found@;
                                    let ghost iv = inner@;
                                    merge_inner(found, inner, mode, block_id, prov, Ghost(setters));
                                    assert(found@.subrange(0, f0.len() as int) =~= fb.subrange(0, f0.len() as int));
                                    proof {
                                        lemma_extends_index(fb, found@);
                                        if !ctx.effect_body {
                                            lemma_keys_merge(iv, fb, found@, lo, mode, block_id, prov);
                                            lemma_cfg_covered_mono(setters, fbv, arc_body(*body), (dn - 1) as nat, names(w2@), keys_of(iv, 0), keys_of(found@, lo));
                                        }
                                        assert(names(w2@) == wv.push(name@));
                                        assert forall|k: int| lo <= k < found@.len() implies expr_emits(
                                            setters,
                                            fbv,
                                            *expr,
                                            stmt_span,
                                            dn,
                                            wv,
                                            key_of(#[trigger] found@[k]),
                                        ) by {
                                            if k < fb.len() {
                                                assert(found@[k] == fb[k]);
                                            } else {
                                                let q = k - fb.len();
                                                assert(found@[fb.len() + q] == merged_site(iv[q], mode, block_id, prov));
                                                assert(key_of(found@[k]) == key_of(iv[q]));
                                                assert(cfg_emits(setters, fbv, arc_body(*body), (dn - 1) as nat, names(w2@), false, key_of(iv[q])));
                                                assert(helper_emits(setters, fbv, **fn_, dn, wv, key_of(found@[k])));
                                            }
                                        }
                                    }
                                }
                            },
                            None => {},
                        }
                    }
                },
                _ => {},
            }
            proof {
                if !ctx.effect_body {
                    assert(head_helper_covered(setters, fbv, **fn_, dn, wv, keys_of(found@, lo)));
                }
            }
            let ghost fa = found@;
            if depth > 0 {
                match (**fn_).peel_ts() {
                    Expr::FnLit { body_cfg, .. } => {
                        let mut inner: Vec<FoundSite> = Vec::new();
                        walk_cfg(ctx, &**body_cfg, depth - 1, walking, repeating, false, &mut inner, WalkClass::Sync, prov);
                        let ghost fb = found@;
                        let ghost iv = inner@;
                        merge_inner(found, inner, mode, block_id, prov, Ghost(setters));
                        assert(found@.subrange(0, f0.len() as int) =~= fb.subrange(0, f0.len() as int));
                        proof {
                            lemma_extends_index(fb, found@);
                            if !ctx.effect_body {
                                lemma_keys_merge(iv, fb, found@, lo, mode, block_id, prov);
                                lemma_cfg_covered_mono(setters, fbv, arc_body(*body_cfg), (dn - 1) as nat, wv, keys_of(iv, 0), keys_of(found@, lo));
                            }
                            assert forall|k: int| lo <= k < found@.len() implies expr_emits(
                                setters,
                                fbv,
                                *expr,
                                stmt_span,
                                dn,
                                wv,
                                key_of(#[trigger] found@[k]),
                            ) by {
                                if k < fb.len() {
                                    assert(found@[k] == fb[k]);
                                } else {
                                    let q = k - fb.len();
                                    assert(found@[fb.len() + q] == merged_site(iv[q], mode, block_id, prov));
                                    assert(key_of(found@[k]) == key_of(iv[q]));
                                    assert(cfg_emits(setters, fbv, arc_body(*body_cfg), (dn - 1) as nat, wv, false, key_of(iv[q])));
                                    assert(literal_emits(setters, fbv, **fn_, dn, wv, key_of(found@[k])));
                                }
                            }
                        }
                    },
                    _ => {},
                }
            }
            let ghost fh = found@;
            proof {
                assert(found@.subrange(0, f0.len() as int) =~= f0);
                assert(fh.subrange(0, fa.len() as int) =~= fa);
                if !ctx.effect_body {
                    assert(head_literal_covered(setters, fbv, **fn_, dn, wv, keys_of(fh, lo)));
                    lemma_keys_grow(fa, fh, lo, lo);
                    lemma_helper_covered_mono(setters, fbv, **fn_, dn, wv, keys_of(fa, lo), keys_of(fh, lo));
                    if first is Some {
                        assert(has_site(fh, lo, fh[lo].var@, fh[lo].span));
                    }
                    assert(head_direct_covered(setters, *expr, stmt_span, keys_of(fh, lo)));
                }
            }
            let listener = expr.subscription_listener().is_some();
            let reified = listener && ctx.effect_body && at_root && mode == WalkClass::Sync;
            if is_teardown(&**fn_) {
                return;
            }
            assert(fh.subrange(0, fh.len() as int) =~= fh);
            let hof = match &**fn_ {
                Expr::FieldAccess { field, .. } => is_sync_hof_name(field.as_str()),
                _ => false,
            };
            walk_args(ctx, &**fn_, args, listener, reified, hof, depth, walking, repeating, found, mode, prov);
            proof {
                lemma_extends_index(fh, found@);
                lemma_extends_trans(f0, fh, found@);
                assert forall|k: int| lo <= k < found@.len() implies expr_emits(
                    setters,
                    fbv,
                    *expr,
                    stmt_span,
                    dn,
                    wv,
                    key_of(#[trigger] found@[k]),
                ) by {
                    if k < fh.len() {
                        assert(found@[k] == fh[k]);
                    } else {
                        let i3 = choose|i3: int| 0 <= i3 < args@.len() && arg_emits(setters, fbv, #[trigger] args@[i3], dn, wv, key_of(found@[k]));
                        assert(arg_emits(setters, fbv, args@[i3], dn, wv, key_of(found@[k])));
                    }
                }
            }
            proof {
                if !ctx.effect_body {
                    lemma_keys_lo(found@, lo, fh.len() as int);
                    assert forall|i2: int| 0 <= i2 < args.len() implies arg_covered(
                        setters,
                        fbv,
                        #[trigger] args@[i2],
                        dn,
                        wv,
                        keys_of(found@, lo),
                    ) by {
                        lemma_arg_covered_mono(setters, fbv, args@[i2], dn, wv, keys_of(found@, fh.len() as int), keys_of(found@, lo));
                    }
                    lemma_keys_grow(fh, found@, lo, lo);
                    lemma_helper_covered_mono(setters, fbv, **fn_, dn, wv, keys_of(fh, lo), keys_of(found@, lo));
                    lemma_literal_covered_mono(setters, fbv, **fn_, dn, wv, keys_of(fh, lo), keys_of(found@, lo));
                }
            }
        },
        _ => {},
    }
}

/// `v` is bound by `e`: a parameter of a function literal in it, or a name
/// bound anywhere in such a literal's body.
pub open spec fn binder_expr(e: Expr, v: Seq<char>) -> bool
    decreases e,
{
    match e {
        Expr::FnLit { params, body_cfg, .. } => names(params@).contains(v) || binder_cfg(*body_cfg, v),
        Expr::ObjectLit { fields, .. } => exists|i: int| 0 <= i < fields.len() && binder_expr(#[trigger] fields@[i].1, v),
        Expr::ArrayLit { elems, .. } => exists|i: int| 0 <= i < elems.len() && binder_expr(#[trigger] elems@[i], v),
        Expr::FieldAccess { obj, .. } => binder_expr(*obj, v),
        Expr::IndexAccess { arr, idx } => binder_expr(*arr, v) || binder_expr(*idx, v),
        Expr::BinOp { lhs, rhs, .. } => binder_expr(*lhs, v) || binder_expr(*rhs, v),
        Expr::UnaryOp { arg, .. } => binder_expr(*arg, v),
        Expr::Call { fn_, args } => binder_expr(*fn_, v) || exists|i: int| 0 <= i < args.len() && binder_expr(#[trigger] args@[i], v),
        Expr::CompApp { props, .. } => binder_expr(*props, v),
        Expr::NativeElem { props, children, .. } => binder_expr(*props, v) || exists|i: int|
            0 <= i < children.len() && binder_expr(#[trigger] children@[i], v),
        Expr::TSAnnotated(inner) => binder_expr(*inner, v),
        _ => false,
    }
}


/// `v` is bound by a statement: its own `let` or assignment target, or a
/// binder of the expressions the statement holds (a member write's index
/// is not read for binders).
pub open spec fn binder_stmt(s: Stmt, v: Seq<char>) -> bool
    decreases s,
{
    match s {
        Stmt::Let { var, rhs, .. } => var@ == v || binder_expr(rhs, v),
        Stmt::Assign { var, rhs, .. } => var@ == v || binder_expr(rhs, v),
        Stmt::MemberWrite { obj, rhs, .. } => binder_expr(obj, v) || binder_expr(rhs, v),
        Stmt::ExprStmt(e, _) => binder_expr(e, v),
    }
}

/// `v` is bound by a terminator's expression.
pub open spec fn binder_term(t: Terminator, v: Seq<char>) -> bool
    decreases t,
{
    match t {
        Terminator::Return(e) => binder_expr(e, v),
        Terminator::Branch { cond, .. } => binder_expr(cond, v),
        _ => false,
    }
}

/// `v` is bound by a statement or the terminator of `b`.
pub open spec fn binder_block(b: BasicBlock, v: Seq<char>) -> bool
    decreases b,
{
    ||| exists|j: int| 0 <= j < b.stmts.len() && binder_stmt(#[trigger] b.stmts@[j], v)
    ||| binder_term(b.term, v)
}

/// `v` is bound anywhere in `c`, nested function bodies included: by a
/// `let`, an assignment or a function literal's parameter.
pub open spec fn binder_cfg(c: CFG, v: Seq<char>) -> bool
    decreases c,
{
    exists|i: int| 0 <= i < c.blocks.len() && binder_block(#[trigger] c.blocks@[i], v)
}

/// Add `x` to `out` unless it is there.
fn add_name(out: &mut Vec<Var>, x: &Var)
    ensures
        forall|y: Seq<char>| #[trigger] names(final(out)@).contains(y) <==> names(old(out)@).contains(y) || y == x@,
{
    let ghost before = out@;
    if !holds_name(out, x.as_str()) {
        out.push(x.clone());
        proof {
            assert(names(out@) =~= names(before).push(x@));
            assert forall|y: Seq<char>| #[trigger] names(out@).contains(y) <==> names(before).contains(y) || y == x@ by {
                lemma_push_has(names(before), x@, y);
            }
        }
    }
}

/// Add every name `expr` binds to `out`.
#[verifier::loop_isolation(false)]
fn binders_expr(e: &Expr, out: &mut Vec<Var>)
    ensures
        forall|y: Seq<char>| #[trigger] names(final(out)@).contains(y) <==> names(old(out)@).contains(y) || binder_expr(*e, y),
    decreases e,
{
    let ghost o0 = names(out@);
    match e {
        Expr::FnLit { params, body_cfg, .. } => {
            let mut i: usize = 0;
            while i < params.len()
                invariant
                    i <= params.len(),
                    forall|y: Seq<char>| #[trigger] names(out@).contains(y) <==> o0.contains(y) || names(params@.subrange(0, i as int)).contains(y),
                decreases params.len() - i,
            {
                add_name(out, &params[i]);
                proof {
                    assert(names(params@.subrange(0, i + 1)) =~= names(params@.subrange(0, i as int)).push(params@[i as int]@));
                    assert forall|y: Seq<char>| #[trigger] names(out@).contains(y) <==> o0.contains(y) || names(params@.subrange(0, i + 1)).contains(y) by {
                        lemma_push_has(names(params@.subrange(0, i as int)), params@[i as int]@, y);
                    }
                }
                i = i + 1;
            }
            assert(params@.subrange(0, params.len() as int) =~= params@);
            proof {
                assert(decreases_to!(*e => **body_cfg));
            }
            binders_cfg(&**body_cfg, out);
        },
        Expr::ObjectLit { fields, .. } => {
            let mut i: usize = 0;
            while i < fields.len()
                invariant
                    i <= fields.len(),
                    forall|y: Seq<char>| #[trigger] names(out@).contains(y) <==> o0.contains(y) || exists|k: int|
                        0 <= k < i && binder_expr(#[trigger] fields@[k].1, y),
                decreases fields.len() - i,
            {
                proof {
                    assert(decreases_to!(*e => *fields));
                    assert(decreases_to!(*fields => fields@));
                    assert(decreases_to!(fields@ => fields@[i as int]));
                    assert(decreases_to!(fields@[i as int] => fields@[i as int].1));
                }
                binders_expr(&fields[i].1, out);
                proof {
                    assert forall|y: Seq<char>| #[trigger] names(out@).contains(y) <==> o0.contains(y) || exists|k: int|
                        0 <= k < i + 1 && binder_expr(#[trigger] fields@[k].1, y) by {
                        if exists|k: int| 0 <= k < i + 1 && binder_expr(#[trigger] fields@[k].1, y) {
                            let k = choose|k: int| 0 <= k < i + 1 && binder_expr(#[trigger] fields@[k].1, y);
                            if k < i {
                            }
                        }
                    }
                }
                i = i + 1;
            }
        },
        Expr::ArrayLit { elems, .. } => binders_exprs(elems, out),
        Expr::FieldAccess { obj, .. } => binders_expr(&**obj, out),
        Expr::IndexAccess { arr, idx } => {
            binders_expr(&**arr, out);
            binders_expr(&**idx, out);
        },
        Expr::BinOp { lhs, rhs, .. } => {
            binders_expr(&**lhs, out);
            binders_expr(&**rhs, out);
        },
        Expr::UnaryOp { arg, .. } => binders_expr(&**arg, out),
        Expr::Call { fn_, args } => {
            binders_expr(&**fn_, out);
            binders_exprs(args, out);
        },
        Expr::CompApp { props, .. } => binders_expr(&**props, out),
        Expr::NativeElem { props, children, .. } => {
            binders_expr(&**props, out);
            binders_exprs(children, out);
        },
        Expr::TSAnnotated(inner) => binders_expr(&**inner, out),
        _ => {},
    }
}

/// Add every name any of `es` binds to `out`.
fn binders_exprs(es: &Vec<Expr>, out: &mut Vec<Var>)
    ensures
        forall|y: Seq<char>| #[trigger] names(final(out)@).contains(y) <==> names(old(out)@).contains(y) || exists|k: int|
            0 <= k < es.len() && binder_expr(#[trigger] es@[k], y),
    decreases es,
{
    let ghost o0 = names(out@);
    let mut i: usize = 0;
    while i < es.len()
        invariant
            i <= es.len(),
            forall|y: Seq<char>| #[trigger] names(out@).contains(y) <==> o0.contains(y) || exists|k: int|
                0 <= k < i && binder_expr(#[trigger] es@[k], y),
        decreases es.len() - i,
    {
        proof {
            assert(decreases_to!(*es => es@));
            assert(decreases_to!(es@ => es@[i as int]));
        }
        binders_expr(&es[i], out);
        proof {
            assert forall|y: Seq<char>| #[trigger] names(out@).contains(y) <==> o0.contains(y) || exists|k: int|
                0 <= k < i + 1 && binder_expr(#[trigger] es@[k], y) by {
                if exists|k: int| 0 <= k < i + 1 && binder_expr(#[trigger] es@[k], y) {
                    let k = choose|k: int| 0 <= k < i + 1 && binder_expr(#[trigger] es@[k], y);
                    if k < i {
                    }
                }
            }
        }
        i = i + 1;
    }
}

/// Add every name `cfg` binds, nested function bodies included, to `out`:
/// the shadow set that disables a bare-global registrar summary.
pub fn binders_cfg(cfg: &CFG, out: &mut Vec<Var>)
    ensures
        forall|y: Seq<char>| #[trigger] names(final(out)@).contains(y) <==> names(old(out)@).contains(y) || binder_cfg(*cfg, y),
    decreases cfg,
{
    let ghost o0 = names(out@);
    let mut i: usize = 0;
    while i < cfg.blocks.len()
        invariant
            i <= cfg.blocks.len(),
            forall|y: Seq<char>| #[trigger] names(out@).contains(y) <==> o0.contains(y) || exists|k: int|
                0 <= k < i && binder_block(#[trigger] cfg.blocks@[k], y),
        decreases cfg.blocks.len() - i,
    {
        let b = &cfg.blocks[i];
        let ghost ob = names(out@);
        let mut j: usize = 0;
        while j < b.stmts.len()
            invariant
                i < cfg.blocks.len(),
                *b == cfg.blocks@[i as int],
                j <= b.stmts.len(),
                forall|y: Seq<char>| #[trigger] names(out@).contains(y) <==> ob.contains(y) || exists|k: int|
                    0 <= k < j && binder_stmt(#[trigger] b.stmts@[k], y),
            decreases b.stmts.len() - j,
        {
            proof {
                assert(decreases_to!(*cfg => cfg.blocks));
                assert(decreases_to!(cfg.blocks => cfg.blocks@));
                assert(decreases_to!(cfg.blocks@ => cfg.blocks@[i as int]));
                assert(decreases_to!(cfg.blocks@[i as int] => cfg.blocks@[i as int].stmts));
                assert(decreases_to!(cfg.blocks@[i as int].stmts => cfg.blocks@[i as int].stmts@));
                assert(decreases_to!(cfg.blocks@[i as int].stmts@ => cfg.blocks@[i as int].stmts@[j as int]));
            }
            let ghost os = names(out@);
            match &b.stmts[j] {
                Stmt::Let { var, rhs, .. } => {
                    add_name(out, var);
                    binders_expr(rhs, out);
                },
                Stmt::Assign { var, rhs, .. } => {
                    add_name(out, var);
                    binders_expr(rhs, out);
                },
                Stmt::MemberWrite { obj, rhs, .. } => {
                    binders_expr(obj, out);
                    binders_expr(rhs, out);
                },
                Stmt::ExprStmt(e, _) => binders_expr(e, out),
            }
            proof {
                assert forall|y: Seq<char>| #[trigger] names(out@).contains(y) <==> ob.contains(y) || exists|k: int|
                    0 <= k < j + 1 && binder_stmt(#[trigger] b.stmts@[k], y) by {
                    assert(names(out@).contains(y) <==> os.contains(y) || binder_stmt(b.stmts@[j as int], y));
                    if exists|k: int| 0 <= k < j + 1 && binder_stmt(#[trigger] b.stmts@[k], y) {
                        let k = choose|k: int| 0 <= k < j + 1 && binder_stmt(#[trigger] b.stmts@[k], y);
                        if k < j {
                        }
                    }
                }
            }
            j = j + 1;
        }
        proof {
            assert(decreases_to!(*cfg => cfg.blocks));
            assert(decreases_to!(cfg.blocks => cfg.blocks@));
            assert(decreases_to!(cfg.blocks@ => cfg.blocks@[i as int]));
            assert(decreases_to!(cfg.blocks@[i as int] => cfg.blocks@[i as int].term));
        }
        let ghost ot = names(out@);
        match &b.term {
            Terminator::Return(e) => binders_expr(e, out),
            Terminator::Branch { cond, .. } => binders_expr(cond, out),
            _ => {},
        }
        proof {
            assert forall|y: Seq<char>| #[trigger] names(out@).contains(y) <==> o0.contains(y) || exists|k: int|
                0 <= k < i + 1 && binder_block(#[trigger] cfg.blocks@[k], y) by {
                assert(names(out@).contains(y) <==> ot.contains(y) || binder_term(b.term, y));
                if exists|k: int| 0 <= k < i + 1 && binder_block(#[trigger] cfg.blocks@[k], y) {
                    let k = choose|k: int| 0 <= k < i + 1 && binder_block(#[trigger] cfg.blocks@[k], y);
                    if k < i {
                    } else {
                        if exists|jj: int| 0 <= jj < b.stmts.len() && binder_stmt(#[trigger] b.stmts@[jj], y) {
                        }
                    }
                }
            }
        }
        i = i + 1;
    }
}

/// The names among `fb`'s bindings that are certified in `cfg`: bound once,
/// to a function literal, and never re-bound in a body nested below.
pub fn certified_fn_names(cfg: &CFG, fb: &Vec<(Var, Arc<CFG>)>) -> (r: Vec<Var>)
    ensures
        forall|v: Seq<char>| #[trigger] names(r@).contains(v) <==> (exists|i: int| 0 <= i < fb.len() && fb@[i].0@ == v) && certified(
            v,
            *cfg,
            Seq::empty(),
        ),
{
    let mut r: Vec<Var> = Vec::new();
    let none: Vec<&CFG> = Vec::new();
    assert(none@ =~= Seq::<&CFG>::empty());
    let mut i: usize = 0;
    while i < fb.len()
        invariant
            i <= fb.len(),
            none@ == Seq::<&CFG>::empty(),
            forall|v: Seq<char>| #[trigger] names(r@).contains(v) <==> (exists|k: int| 0 <= k < i && fb@[k].0@ == v) && certified(
                v,
                *cfg,
                Seq::empty(),
            ),
        decreases fb.len() - i,
    {
        let ghost before = names(r@);
        if certified_fn_binding(fb[i].0.as_str(), cfg, none.as_slice()).is_some() {
            add_name(&mut r, &fb[i].0);
        }
        proof {
            assert forall|v: Seq<char>| #[trigger] names(r@).contains(v) <==> (exists|k: int| 0 <= k < i + 1 && fb@[k].0@ == v) && certified(
                v,
                *cfg,
                Seq::empty(),
            ) by {
                if exists|k: int| 0 <= k < i + 1 && fb@[k].0@ == v {
                    let k = choose|k: int| 0 <= k < i + 1 && fb@[k].0@ == v;
                    if k < i {
                        assert(exists|k2: int| 0 <= k2 < i && fb@[k2].0@ == v);
                    }
                }
                if before.contains(v) {
                    let k = choose|k: int| 0 <= k < i && fb@[k].0@ == v;
                    assert(0 <= k < i + 1);
                }
            }
        }
        i = i + 1;
    }
    r
}

/// One raw write site: the setter, a witness span, the phase class the walk
/// assigned, the top-level block it descended from, whether it may run many
/// times per tick, and its argument 0.
#[derive(Debug, Clone)]
pub struct WriteSite {
    pub var: Var,
    pub span: Option<SourceRange>,
    pub class: WalkClass,
    pub prov_block: Option<BlockId>,
    pub repeats: bool,
    pub updater: Updater,
}

/// Every write site of `cfg`, one row per call site. `outer_fns` carries
/// function bindings certified in an enclosing scope; a name `cfg` binds
/// itself drops out of it.
pub fn collect_write_sites(
    cfg: &CFG,
    setter_vars: &Vec<Var>,
    max_depth: usize,
    effect_body: bool,
    shadowed: &Vec<Var>,
    outer_fns: &Vec<(Var, Arc<CFG>)>,
    callback_bodies: &Vec<(HookLabel, Arc<CFG>)>,
) -> (r: Vec<WriteSite>)
    ensures
        forall|i: int| 0 <= i < r.len() ==> names(setter_vars@).contains((#[trigger] r@[i]).var@),
        cfg_valid(*cfg) ==> forall|id: BlockId, n: Seq<char>, sp: Option<SourceRange>|
            reaches(cfg.edges@, cfg.entry, id) && #[trigger] direct_write_in(*cfg, id, names(setter_vars@), n, sp)
                ==> has_write_site(r@, n, sp),
        exists|found: Seq<FoundSite>, fbs: Seq<(Seq<char>, CFG)>|
            #[trigger] sites_of_walk(found, r@) && #[trigger] keeps_bindings(fbs, block_fn_lets(cfg.blocks@))
                && sites_sound(found, names(setter_vars@)) && binds_from(fbs, block_fn_lets(cfg.blocks@), fn_views(outer_fns@))
                && all_cfg_emit(found, 0, names(setter_vars@), fbs, *cfg, max_depth as nat, Seq::empty(), effect_body)
                && (!effect_body ==> cfg_covered(
                names(setter_vars@),
                fbs,
                *cfg,
                max_depth as nat,
                Seq::empty(),
                keys_of(found, 0),
            )),
{
    let mut fn_bindings = collect_fn_bindings(cfg);
    let ghost own = fn_views(fn_bindings@);
    let mut certified = certified_fn_names(cfg, &fn_bindings);
    let mut local_binders: Vec<Var> = Vec::new();
    binders_cfg(cfg, &mut local_binders);
    let mut k: usize = 0;
    while k < outer_fns.len()
        invariant
            k <= outer_fns.len(),
            keeps_bindings(fn_views(fn_bindings@), own),
            binds_from(fn_views(fn_bindings@), own, fn_views(outer_fns@)),
        decreases outer_fns.len() - k,
    {
        if !holds_name(&local_binders, outer_fns[k].0.as_str()) {
            if lookup_fn(&fn_bindings, outer_fns[k].0.as_str()).is_none() {
                let ghost before = fn_views(fn_bindings@);
                fn_bindings.push((outer_fns[k].0.clone(), share(&outer_fns[k].1)));
                assert(fn_views(fn_bindings@) =~= before.push((outer_fns@[k as int].0@, *outer_fns@[k as int].1)));
                assert(fn_views(fn_bindings@).drop_last() =~= before);
                proof {
                    let ov = fn_views(outer_fns@);
                    assert forall|v: Seq<char>| #[trigger] bound_fn(fn_views(fn_bindings@), v) is Some implies bound_fn(
                        fn_views(fn_bindings@),
                        v,
                    ) == bound_fn(own, v) || exists|q: int|
                        0 <= q < ov.len() && ov[q].0 == v && Some(ov[q].1) == bound_fn(fn_views(fn_bindings@), v) by {
                        if v == outer_fns@[k as int].0@ {
                            assert(ov[k as int].0 == v);
                        }
                    }
                }
            }
            add_name(&mut certified, &outer_fns[k].0);
        }
        k = k + 1;
    }
    let walk = Walk {
        setter_vars,
        fn_bindings: &fn_bindings,
        effect_body,
        shadowed,
        callback_bodies,
        certified_fns: &certified,
    };
    let mut found: Vec<FoundSite> = Vec::new();
    let walking: Vec<Var> = Vec::new();
    walk_cfg(&walk, cfg, max_depth, &walking, false, true, &mut found, WalkClass::Sync, None);
    let mut r: Vec<WriteSite> = Vec::new();
    let mut i: usize = 0;
    while i < found.len()
        invariant
            i <= found.len(),
            r.len() == i,
            sites_sound(found@, names(setter_vars@)),
            forall|q: int| 0 <= q < i ==> site_row(#[trigger] r@[q], found@[q]),
        decreases found.len() - i,
    {
        let s = &found[i];
        r.push(WriteSite {
            var: s.var.clone(),
            span: s.span,
            class: s.class,
            prov_block: s.prov_block,
            repeats: s.repeats,
            updater: s.updater.clone(),
        });
        i = i + 1;
    }
    proof {
        assert forall|q: int| 0 <= q < r.len() implies names(setter_vars@).contains((#[trigger] r@[q]).var@) by {
            assert(setters_has(found@, names(setter_vars@), q));
        }
        if cfg_valid(*cfg) {
            assert forall|id: BlockId, n: Seq<char>, sp: Option<SourceRange>|
                reaches(cfg.edges@, cfg.entry, id) && #[trigger] direct_write_in(*cfg, id, names(setter_vars@), n, sp)
                    implies has_write_site(r@, n, sp) by {
                assert(has_site(found@, 0, n, sp));
                let k = choose|k: int| 0 <= k < found@.len() && #[trigger] found@[k].var@ == n && found@[k].span == sp;
                assert(site_row(r@[k], found@[k]));
                assert(r@[k].var@ == n);
            }
        }
        assert(sites_of_walk(found@, r@));
        assert(names(walking@) =~= Seq::<Seq<char>>::empty());
        assert(keeps_bindings(fn_views(fn_bindings@), block_fn_lets(cfg.blocks@)));
        if !effect_body {
            assert(cfg_covered(names(setter_vars@), fn_views(fn_bindings@), *cfg, max_depth as nat, Seq::empty(), keys_of(found@, 0)));
        }
        assert(all_cfg_emit(found@, 0, names(setter_vars@), fn_views(fn_bindings@), *cfg, max_depth as nat, Seq::empty(), effect_body));
    }
    r
}

/// `w` reports the site `s`: setter, span, class, provenance block and
/// repeat flag.
pub open spec fn site_row(w: WriteSite, s: FoundSite) -> bool {
    &&& w.var@ == s.var@
    &&& w.span == s.span
    &&& w.class == s.class
    &&& w.prov_block == s.prov_block
    &&& w.repeats == s.repeats
}

/// `r` reports the sites `found`, one row each, in order.
pub open spec fn sites_of_walk(found: Seq<FoundSite>, r: Seq<WriteSite>) -> bool {
    r.len() == found.len() && forall|q: int| 0 <= q < r.len() ==> site_row(#[trigger] r[q], found[q])
}

/// Every binding of `fb` is the one `own` gives, or one of `outer`.
pub open spec fn binds_from(fb: Seq<(Seq<char>, CFG)>, own: Seq<(Seq<char>, CFG)>, outer: Seq<(Seq<char>, CFG)>) -> bool {
    forall|v: Seq<char>|
        #[trigger] bound_fn(fb, v) is Some ==> bound_fn(fb, v) == bound_fn(own, v) || exists|q: int|
            0 <= q < outer.len() && outer[q].0 == v && Some(outer[q].1) == bound_fn(fb, v)
}

/// Every name `own` binds is bound in `fb` to the same body.
pub open spec fn keeps_bindings(fb: Seq<(Seq<char>, CFG)>, own: Seq<(Seq<char>, CFG)>) -> bool {
    forall|v: Seq<char>| #[trigger] bound_fn(own, v) is Some ==> bound_fn(fb, v) == bound_fn(own, v)
}

/// Some write site calls `n` with span `sp`.
pub open spec fn has_write_site(r: Seq<WriteSite>, n: Seq<char>, sp: Option<SourceRange>) -> bool {
    exists|k: int| 0 <= k < r.len() && #[trigger] r[k].var@ == n && r[k].span == sp
}

/// The site at `q` calls one of the setters.
pub open spec fn setters_has(found: Seq<FoundSite>, setters: Seq<Seq<char>>, q: int) -> bool {
    setters.contains(found[q].var@)
}

/// The rank of a walk class in the order the setter-call summary prefers:
/// a synchronous site first.
pub open spec fn class_rank(c: WalkClass) -> nat {
    match c {
        WalkClass::Sync => 0,
        WalkClass::Deferred => 1,
        WalkClass::Handler => 2,
        WalkClass::Cleanup => 3,
        WalkClass::Unknown => 4,
    }
}

fn class_rank_exec(c: WalkClass) -> (r: u8)
    ensures
        r == class_rank(c),
{
    match c {
        WalkClass::Sync => 0,
        WalkClass::Deferred => 1,
        WalkClass::Handler => 2,
        WalkClass::Cleanup => 3,
        WalkClass::Unknown => 4,
    }
}

/// The bindings `acc` extended by `extras`, in order, each added only where
/// its name is not bound yet: a binding already present takes precedence.
pub open spec fn extend_bindings(acc: Seq<(Seq<char>, CFG)>, extras: Seq<(Seq<char>, CFG)>) -> Seq<(Seq<char>, CFG)>
    decreases extras.len(),
{
    if extras.len() == 0 {
        acc
    } else {
        let prev = extend_bindings(acc, extras.drop_last());
        if bound_fn(prev, extras.last().0) is None {
            prev.push(extras.last())
        } else {
            prev
        }
    }
}

/// The orders the summary prefers: a lower class rank, then an earlier
/// position.
pub open spec fn site_key_lt(found: Seq<FoundSite>, a: int, b: int) -> bool {
    class_rank(found[a].class) < class_rank(found[b].class) || (class_rank(found[a].class) == class_rank(
        found[b].class,
    ) && a < b)
}

/// The phase a summary row reports for a walk class.
pub open spec fn phase_of(c: WalkClass) -> SetterCallPhase {
    match c {
        WalkClass::Sync => SetterCallPhase::Sync,
        WalkClass::Handler => SetterCallPhase::Handler,
        _ => SetterCallPhase::Other,
    }
}

/// `c` reports the site `s`: its setter, span, block and phase.
pub open spec fn row_matches(c: SetterCall, s: FoundSite) -> bool {
    &&& c.var@ == s.var@
    &&& c.span == s.span
    &&& c.block_id == s.block_id
    &&& c.class == phase_of(s.class)
}

/// Site `k` is the one the summary keeps for its setter: every other site
/// of that setter comes after it in (class rank, position).
pub open spec fn kept_site(found: Seq<FoundSite>, k: int) -> bool {
    &&& 0 <= k < found.len()
    &&& forall|k2: int|
        0 <= k2 < found.len() && k2 != k && #[trigger] found[k2].var@ == found[k].var@ ==> site_key_lt(found, k, k2)
}

/// `r` summarizes `found` through the kept sites `ks`: one row per kept
/// site, in (class rank, position) order, and every setter found has a row.
pub open spec fn summary_witness(found: Seq<FoundSite>, r: Seq<SetterCall>, ks: Seq<int>) -> bool {
    &&& ks.len() == r.len()
    &&& forall|q: int| 0 <= q < r.len() ==> kept_site(found, #[trigger] ks[q]) && row_matches(r[q], found[ks[q]])
    &&& forall|q1: int, q2: int| 0 <= q1 < q2 < r.len() ==> site_key_lt(found, #[trigger] ks[q1], #[trigger] ks[q2])
    &&& forall|k: int| 0 <= k < found.len() ==> call_names(r).contains(#[trigger] found[k].var@)
}

/// `r` is the one-row-per-setter summary of `found`.
pub open spec fn summary_of(found: Seq<FoundSite>, r: Seq<SetterCall>) -> bool {
    exists|ks: Seq<int>| summary_witness(found, r, ks)
}

/// One row per setter of `found`: the site kept is its first synchronous
/// site, else its first deferred, handler, cleanup and unclassified one, in
/// that order; rows come in the order their sites are kept.
pub fn summarize_sites(found: &Vec<FoundSite>) -> (r: Vec<SetterCall>)
    ensures
        summary_of(found@, r@),
        forall|i: int, j: int| 0 <= i < j < r.len() ==> r@[i].var@ != r@[j].var@,
        forall|k: int| 0 <= k < found.len() ==> call_names(r@).contains(#[trigger] found@[k].var@),
{
    let mut r: Vec<SetterCall> = Vec::new();
    let mut taken: Vec<Var> = Vec::new();
    let ghost mut ks: Seq<int> = Seq::empty();
    let mut rank: u8 = 0;
    while rank < 5
        invariant
            r.len() == taken.len(),
            ks.len() == r.len(),
            forall|q: int| 0 <= q < r.len() ==> (#[trigger] r@[q]).var@ == taken@[q]@,
            forall|a: int, b: int| 0 <= a < b < taken.len() ==> taken@[a]@ != taken@[b]@,
            rank <= 5,
            forall|q: int| 0 <= q < found.len() && class_rank(found@[q].class) < rank ==> names(taken@).contains(
                (#[trigger] found@[q]).var@,
            ),
            forall|q: int| 0 <= q < r.len() ==> kept_site(found@, #[trigger] ks[q]) && row_matches(r@[q], found@[ks[q]]),
            forall|q1: int, q2: int| 0 <= q1 < q2 < r.len() ==> site_key_lt(found@, #[trigger] ks[q1], #[trigger] ks[q2]),
            forall|q: int| 0 <= q < r.len() ==> class_rank(found@[#[trigger] ks[q]].class) < rank,
        decreases 5 - rank,
    {
        let mut i: usize = 0;
        while i < found.len()
            invariant
                i <= found.len(),
                r.len() == taken.len(),
                ks.len() == r.len(),
                forall|q: int| 0 <= q < r.len() ==> (#[trigger] r@[q]).var@ == taken@[q]@,
                forall|a: int, b: int| 0 <= a < b < taken.len() ==> taken@[a]@ != taken@[b]@,
                rank < 5,
                forall|q: int|
                    0 <= q < found.len() && (class_rank(found@[q].class) < rank || (class_rank(found@[q].class)
                        == rank && q < i)) ==> names(taken@).contains((#[trigger] found@[q]).var@),
                forall|q: int| 0 <= q < r.len() ==> kept_site(found@, #[trigger] ks[q]) && row_matches(r@[q], found@[ks[q]]),
                forall|q1: int, q2: int| 0 <= q1 < q2 < r.len() ==> site_key_lt(found@, #[trigger] ks[q1], #[trigger] ks[q2]),
                forall|q: int|
                    0 <= q < r.len() ==> class_rank(found@[#[trigger] ks[q]].class) < rank || (class_rank(found@[ks[q]].class)
                        == rank && ks[q] < i),
            decreases found.len() - i,
        {
            if class_rank_exec(found[i].class) == rank && !holds_name(&taken, found[i].var.as_str()) {
                let ghost tb = taken@;
                let ghost rb = r@;
                let ghost kb = ks;
                proof {
                    assert forall|k2: int|
                        0 <= k2 < found.len() && k2 != i && #[trigger] found@[k2].var@ == found@[i as int].var@
                            implies site_key_lt(found@, i as int, k2) by {
                        if class_rank(found@[k2].class) < rank || (class_rank(found@[k2].class) == rank && k2 < i) {
                            assert(names(taken@).contains(found@[k2].var@));
                        }
                    }
                    assert(kept_site(found@, i as int));
                }
                taken.push(found[i].var.clone());
                r.push(SetterCall {
                    var: found[i].var.clone(),
                    span: found[i].span,
                    block_id: found[i].block_id,
                    class: SetterCallPhase::from_class(found[i].class),
                });
                proof {
                    ks = ks.push(i as int);
                    assert forall|a: int, b: int| 0 <= a < b < taken.len() implies taken@[a]@ != taken@[b]@ by {
                        if b == taken.len() - 1 {
                            assert(names(tb)[a] == tb[a]@);
                            assert(!names(tb).contains(found@[i as int].var@));
                        }
                    }
                    assert(names(taken@) =~= names(tb).push(found@[i as int].var@));
                    assert forall|q: int|
                        0 <= q < found.len() && (class_rank(found@[q].class) < rank || (class_rank(found@[q].class)
                            == rank && q < i + 1)) implies names(taken@).contains((#[trigger] found@[q]).var@) by {
                        lemma_push_has(names(tb), found@[i as int].var@, found@[q].var@);
                    }
                    assert forall|q: int| 0 <= q < r.len() implies kept_site(found@, #[trigger] ks[q]) && row_matches(
                        r@[q],
                        found@[ks[q]],
                    ) by {
                        if q < rb.len() {
                            assert(ks[q] == kb[q]);
                            assert(r@[q] == rb[q]);
                        }
                    }
                    assert forall|q1: int, q2: int| 0 <= q1 < q2 < r.len() implies site_key_lt(
                        found@,
                        #[trigger] ks[q1],
                        #[trigger] ks[q2],
                    ) by {
                        assert(ks[q1] == kb[q1]);
                        if q2 < rb.len() {
                            assert(ks[q2] == kb[q2]);
                        }
                    }
                }
            }
            i = i + 1;
        }
        rank = rank + 1;
    }
    proof {
        assert(names(taken@) =~= call_names(r@));
        assert forall|k: int| 0 <= k < found.len() implies call_names(r@).contains(#[trigger] found@[k].var@) by {
            assert(class_rank(found@[k].class) < 5);
            assert(names(taken@).contains(found@[k].var@));
        }
        assert(summary_witness(found@, r@, ks));
    }
    r
}

/// Every setter called in `cfg`, one row per setter: the site preferred is
/// the first synchronous one, then the first deferred, handler, cleanup and
/// unclassified one; its span, its block (meaningful for a synchronous site
/// alone) and its phase. `extra_fn_bindings` resolves callbacks defined
/// outside `cfg`; a binding of `cfg` itself takes precedence.
pub fn collect_setter_calls_with_extra(
    cfg: &CFG,
    setter_vars: &Vec<Var>,
    max_depth: usize,
    extra_fn_bindings: &Vec<(Var, Arc<CFG>)>,
) -> (r: Vec<SetterCall>)
    ensures
        forall|i: int| 0 <= i < r.len() ==> names(setter_vars@).contains((#[trigger] r@[i]).var@),
        forall|i: int, j: int| 0 <= i < j < r.len() ==> r@[i].var@ != r@[j].var@,
        cfg_valid(*cfg) ==> forall|id: BlockId, n: Seq<char>, sp: Option<SourceRange>|
            reaches(cfg.edges@, cfg.entry, id) && #[trigger] direct_write_in(*cfg, id, names(setter_vars@), n, sp)
                ==> call_names(r@).contains(n),
        exists|found: Seq<FoundSite>|
            sites_sound(found, names(setter_vars@)) && #[trigger] summary_of(found, r@) && cfg_covered(
                names(setter_vars@),
                extend_bindings(block_fn_lets(cfg.blocks@), fn_views(extra_fn_bindings@)),
                *cfg,
                max_depth as nat,
                Seq::empty(),
                keys_of(found, 0),
            ) && all_cfg_emit(
                found,
                0,
                names(setter_vars@),
                extend_bindings(block_fn_lets(cfg.blocks@), fn_views(extra_fn_bindings@)),
                *cfg,
                max_depth as nat,
                Seq::empty(),
                false,
            ),
{
    let mut fn_bindings = collect_fn_bindings(cfg);
    let ghost own = fn_views(fn_bindings@);
    let ghost ev = fn_views(extra_fn_bindings@);
    let mut k: usize = 0;
    assert(ev.subrange(0, 0) =~= Seq::<(Seq<char>, CFG)>::empty());
    while k < extra_fn_bindings.len()
        invariant
            k <= extra_fn_bindings.len(),
            ev == fn_views(extra_fn_bindings@),
            fn_views(fn_bindings@) == extend_bindings(own, ev.subrange(0, k as int)),
        decreases extra_fn_bindings.len() - k,
    {
        let ghost before = fn_views(fn_bindings@);
        assert(ev.subrange(0, k + 1).drop_last() =~= ev.subrange(0, k as int));
        if lookup_fn(&fn_bindings, extra_fn_bindings[k].0.as_str()).is_none() {
            fn_bindings.push((extra_fn_bindings[k].0.clone(), share(&extra_fn_bindings[k].1)));
            assert(fn_views(fn_bindings@) =~= before.push(ev[k as int]));
        }
        k = k + 1;
    }
    assert(ev.subrange(0, k as int) =~= ev);
    let certified = certified_fn_names(cfg, &fn_bindings);
    let empty_names: Vec<Var> = Vec::new();
    let empty_bodies: Vec<(HookLabel, Arc<CFG>)> = Vec::new();
    let walk = Walk {
        setter_vars,
        fn_bindings: &fn_bindings,
        effect_body: false,
        shadowed: &empty_names,
        callback_bodies: &empty_bodies,
        certified_fns: &certified,
    };
    let mut found: Vec<FoundSite> = Vec::new();
    let walking: Vec<Var> = Vec::new();
    walk_cfg(&walk, cfg, max_depth, &walking, false, true, &mut found, WalkClass::Sync, None);
    let r = summarize_sites(&found);
    proof {
        let ks = choose|ks: Seq<int>| summary_witness(found@, r@, ks);
        assert forall|i: int| 0 <= i < r.len() implies names(setter_vars@).contains((#[trigger] r@[i]).var@) by {
            assert(kept_site(found@, ks[i]) && row_matches(r@[i], found@[ks[i]]));
            assert(setters_has(found@, names(setter_vars@), ks[i]));
        }
        assert(sites_sound(found@, names(setter_vars@)) && summary_of(found@, r@));
        assert(names(walking@) =~= Seq::<Seq<char>>::empty());
        if cfg_valid(*cfg) {
            assert forall|id: BlockId, n: Seq<char>, sp: Option<SourceRange>|
                reaches(cfg.edges@, cfg.entry, id) && #[trigger] direct_write_in(*cfg, id, names(setter_vars@), n, sp)
                    implies call_names(r@).contains(n) by {
                assert(has_site(found@, 0, n, sp));
                let k = choose|k: int| 0 <= k < found@.len() && #[trigger] found@[k].var@ == n && found@[k].span == sp;
                assert(call_names(r@).contains(found@[k].var@));
            }
        }
    }
    r
}

/// The setters a summary names, in order.
pub open spec fn call_names(r: Seq<SetterCall>) -> Seq<Seq<char>> {
    r.map_values(|c: SetterCall| c.var@)
}

/// [`collect_setter_calls_with_extra`] with no outside bindings.
pub fn collect_setter_calls(cfg: &CFG, setter_vars: &Vec<Var>, max_depth: usize) -> (r: Vec<SetterCall>)
    ensures
        forall|i: int| 0 <= i < r.len() ==> names(setter_vars@).contains((#[trigger] r@[i]).var@),
        forall|i: int, j: int| 0 <= i < j < r.len() ==> r@[i].var@ != r@[j].var@,
        cfg_valid(*cfg) ==> forall|id: BlockId, n: Seq<char>, sp: Option<SourceRange>|
            reaches(cfg.edges@, cfg.entry, id) && #[trigger] direct_write_in(*cfg, id, names(setter_vars@), n, sp)
                ==> call_names(r@).contains(n),
        exists|found: Seq<FoundSite>|
            sites_sound(found, names(setter_vars@)) && #[trigger] summary_of(found, r@) && cfg_covered(
                names(setter_vars@),
                block_fn_lets(cfg.blocks@),
                *cfg,
                max_depth as nat,
                Seq::empty(),
                keys_of(found, 0),
            ) && all_cfg_emit(found, 0, names(setter_vars@), block_fn_lets(cfg.blocks@), *cfg, max_depth as nat, Seq::empty(), false),
{
    let none: Vec<(Var, Arc<CFG>)> = Vec::new();
    assert(fn_views(none@) =~= Seq::<(Seq<char>, CFG)>::empty());
    collect_setter_calls_with_extra(cfg, setter_vars, max_depth, &none)
}

} // verus!
