//! Syntactic binding certificates: what a name is bound to in a body, and
//! whether that binding is certain.
//!
//! A name bound more than once, or through a chain that does not settle, is
//! not "some value not found yet": its meaning is declined, and every reader
//! here answers nothing rather than guess.
use vstd::prelude::*;

use crate::cfg::{BasicBlock, Terminator, CFG};
use crate::expr::{children_of, member_of, object_member, peeled, Expr};
use crate::free_vars::{defines, derefs, stmt_defines};
use crate::stmt::{MemberKey, Stmt};
use crate::text::str_eq;
use crate::types::{HookLabel, Var};

verus! {

/// The right-hand side `s` binds `v` to, when `s` is a `let` or an
/// assignment of `v`.
pub open spec fn bound_by(s: Stmt, v: Seq<char>) -> Option<Expr> {
    match s {
        Stmt::Let { var, rhs, .. } => if var@ == v {
            Some(rhs)
        } else {
            None
        },
        Stmt::Assign { var, rhs, .. } => if var@ == v {
            Some(rhs)
        } else {
            None
        },
        _ => None,
    }
}

/// The right-hand sides `ss` binds `v` to, in statement order.
pub open spec fn stmt_rhss(ss: Seq<Stmt>, v: Seq<char>) -> Seq<Expr>
    decreases ss.len(),
{
    if ss.len() == 0 {
        Seq::empty()
    } else {
        let prev = stmt_rhss(ss.drop_last(), v);
        match bound_by(ss.last(), v) {
            Some(e) => prev.push(e),
            None => prev,
        }
    }
}

/// The right-hand sides the blocks `bs` bind `v` to, block by block.
pub open spec fn block_rhss(bs: Seq<BasicBlock>, v: Seq<char>) -> Seq<Expr>
    decreases bs.len(),
{
    if bs.len() == 0 {
        Seq::empty()
    } else {
        block_rhss(bs.drop_last(), v) + stmt_rhss(bs.last().stmts@, v)
    }
}

/// Every right-hand side `v` is bound to in `c`; nested function bodies are
/// not descended, their names are their own.
pub open spec fn bound_rhss(c: CFG, v: Seq<char>) -> Seq<Expr> {
    block_rhss(c.blocks@, v)
}

proof fn lemma_stmt_step(ss: Seq<Stmt>, s: int, v: Seq<char>)
    requires
        0 <= s < ss.len(),
    ensures
        stmt_rhss(ss.subrange(0, s + 1), v) == match bound_by(ss[s], v) {
            Some(e) => stmt_rhss(ss.subrange(0, s), v).push(e),
            None => stmt_rhss(ss.subrange(0, s), v),
        },
{
    assert(ss.subrange(0, s + 1).drop_last() =~= ss.subrange(0, s));
}

proof fn lemma_block_step(bs: Seq<BasicBlock>, b: int, v: Seq<char>)
    requires
        0 <= b < bs.len(),
    ensures
        block_rhss(bs.subrange(0, b + 1), v) == block_rhss(bs.subrange(0, b), v) + stmt_rhss(bs[b].stmts@, v),
{
    assert(bs.subrange(0, b + 1).drop_last() =~= bs.subrange(0, b));
}

proof fn lemma_stmt_mono(ss: Seq<Stmt>, s: int, v: Seq<char>)
    requires
        0 <= s <= ss.len(),
    ensures
        stmt_rhss(ss.subrange(0, s), v).len() <= stmt_rhss(ss, v).len(),
    decreases ss.len() - s,
{
    if s < ss.len() {
        lemma_stmt_step(ss, s, v);
        lemma_stmt_mono(ss, s + 1, v);
    } else {
        assert(ss.subrange(0, s) =~= ss);
    }
}

proof fn lemma_block_mono(bs: Seq<BasicBlock>, b: int, v: Seq<char>)
    requires
        0 <= b <= bs.len(),
    ensures
        block_rhss(bs.subrange(0, b), v).len() <= block_rhss(bs, v).len(),
    decreases bs.len() - b,
{
    if b < bs.len() {
        lemma_block_step(bs, b, v);
        lemma_block_mono(bs, b + 1, v);
    } else {
        assert(bs.subrange(0, b) =~= bs);
    }
}

/// The name `s` binds, when it is a `let` or an assignment.
pub open spec fn bound_name(s: Stmt) -> Option<Seq<char>> {
    match s {
        Stmt::Let { var, .. } => Some(var@),
        Stmt::Assign { var, .. } => Some(var@),
        _ => None,
    }
}

/// The names `ss` binds, in statement order, a name bound twice twice.
pub open spec fn stmt_names(ss: Seq<Stmt>) -> Seq<Seq<char>>
    decreases ss.len(),
{
    if ss.len() == 0 {
        Seq::empty()
    } else {
        let prev = stmt_names(ss.drop_last());
        match bound_name(ss.last()) {
            Some(v) => prev.push(v),
            None => prev,
        }
    }
}

/// The names the blocks `bs` bind, block by block.
pub open spec fn block_names(bs: Seq<BasicBlock>) -> Seq<Seq<char>>
    decreases bs.len(),
{
    if bs.len() == 0 {
        Seq::empty()
    } else {
        block_names(bs.drop_last()) + stmt_names(bs.last().stmts@)
    }
}

/// Every name `c` binds at its own level, in order, with repeats.
pub open spec fn bound_names(c: CFG) -> Seq<Seq<char>> {
    block_names(c.blocks@)
}

proof fn lemma_stmt_names(ss: Seq<Stmt>, v: Seq<char>)
    ensures
        stmt_names(ss).contains(v) <==> stmt_rhss(ss, v).len() > 0,
    decreases ss.len(),
{
    if ss.len() > 0 {
        lemma_stmt_names(ss.drop_last(), v);
        let prev = stmt_names(ss.drop_last());
        match bound_name(ss.last()) {
            Some(x) => {
                if prev.contains(v) {
                    let k = choose|k: int| 0 <= k < prev.len() && prev[k] == v;
                    assert(prev.push(x)[k] == v);
                }
                if x == v {
                    assert(prev.push(x)[prev.len() as int] == v);
                }
                if prev.push(x).contains(v) {
                    let k = choose|k: int| 0 <= k < prev.push(x).len() && prev.push(x)[k] == v;
                    if k < prev.len() {
                        assert(prev[k] == v);
                    }
                }
            },
            None => {},
        }
    }
}

/// A name is among the bound names exactly when it has a right-hand side.
pub proof fn lemma_bound_names(c: CFG, v: Seq<char>)
    ensures
        bound_names(c).contains(v) <==> bound_rhss(c, v).len() > 0,
{
    lemma_block_names(c.blocks@, v);
}

proof fn lemma_block_names(bs: Seq<BasicBlock>, v: Seq<char>)
    ensures
        block_names(bs).contains(v) <==> block_rhss(bs, v).len() > 0,
    decreases bs.len(),
{
    if bs.len() > 0 {
        lemma_block_names(bs.drop_last(), v);
        lemma_stmt_names(bs.last().stmts@, v);
        let a = block_names(bs.drop_last());
        let b = stmt_names(bs.last().stmts@);
        if a.contains(v) {
            let k = choose|k: int| 0 <= k < a.len() && a[k] == v;
            assert((a + b)[k] == v);
        }
        if b.contains(v) {
            let k = choose|k: int| 0 <= k < b.len() && b[k] == v;
            assert((a + b)[a.len() + k] == v);
        }
        if (a + b).contains(v) {
            let k = choose|k: int| 0 <= k < (a + b).len() && (a + b)[k] == v;
            if k < a.len() {
                assert(a[k] == v);
            } else {
                assert(b[k - a.len()] == v);
            }
        }
    }
}

/// What the blocks before `b` and the statements of block `b` before `s`
/// bind `v` to.
pub open spec fn rhss_before(c: CFG, b: int, s: int, v: Seq<char>) -> Seq<Expr> {
    block_rhss(c.blocks@.subrange(0, b), v) + stmt_rhss(c.blocks@[b].stmts@.subrange(0, s), v)
}

/// A prefix of the scan binds no more than the whole body.
proof fn lemma_before_within(c: CFG, b: int, s: int, v: Seq<char>)
    requires
        0 <= b < c.blocks.len(),
        0 <= s <= c.blocks@[b].stmts.len(),
    ensures
        rhss_before(c, b, s, v).len() <= bound_rhss(c, v).len(),
{
    lemma_stmt_mono(c.blocks@[b].stmts@, s, v);
    lemma_block_step(c.blocks@, b, v);
    lemma_block_mono(c.blocks@, b + 1, v);
}

/// Moving past the last statement of block `b` starts block `b + 1`.
proof fn lemma_before_next_block(c: CFG, b: int, v: Seq<char>)
    requires
        0 <= b < c.blocks.len(),
    ensures
        block_rhss(c.blocks@.subrange(0, b + 1), v) == rhss_before(c, b, c.blocks@[b].stmts.len() as int, v),
{
    lemma_block_step(c.blocks@, b, v);
    assert(c.blocks@[b].stmts@.subrange(0, c.blocks@[b].stmts.len() as int) =~= c.blocks@[b].stmts@);
}

/// The variable and right-hand side of a `let` or an assignment.
fn stmt_binding(s: &Stmt) -> (r: Option<(&Var, &Expr)>)
    ensures
        r matches Some((x, e)) ==> bound_by(*s, x@) == Some(*e) && forall|v: Seq<char>| v != x@ ==> bound_by(*s, v) is None,
        r is None ==> forall|v: Seq<char>| bound_by(*s, v) is None,
{
    match s {
        Stmt::Let { var, rhs, .. } => Some((var, rhs)),
        Stmt::Assign { var, rhs, .. } => Some((var, rhs)),
        _ => None,
    }
}

/// The right-hand side `var` is bound to in `cfg`, when it is bound exactly
/// once there.
fn only_binding<'c>(var: &str, cfg: &'c CFG) -> (r: Option<&'c Expr>)
    ensures
        r is Some <==> bound_rhss(*cfg, var@).len() == 1,
        r matches Some(e) ==> *e == bound_rhss(*cfg, var@)[0],
{
    let ghost v = var@;
    let mut found: Option<&Expr> = None;
    let mut b: usize = 0;
    assert(block_rhss(cfg.blocks@.subrange(0, 0), v) =~= Seq::<Expr>::empty());
    while b < cfg.blocks.len()
        invariant
            b <= cfg.blocks.len(),
            v == var@,
            found is None <==> block_rhss(cfg.blocks@.subrange(0, b as int), v).len() == 0,
            found matches Some(e) ==> block_rhss(cfg.blocks@.subrange(0, b as int), v).len() == 1 && *e == block_rhss(
                cfg.blocks@.subrange(0, b as int),
                v,
            )[0],
        decreases cfg.blocks.len() - b,
    {
        let blk = &cfg.blocks[b];
        let mut s: usize = 0;
        assert(rhss_before(*cfg, b as int, 0, v) =~= block_rhss(cfg.blocks@.subrange(0, b as int), v)) by {
            assert(blk.stmts@.subrange(0, 0) =~= Seq::<Stmt>::empty());
        }
        while s < blk.stmts.len()
            invariant
                b < cfg.blocks.len(),
                *blk == cfg.blocks@[b as int],
                s <= blk.stmts.len(),
                v == var@,
                found is None <==> rhss_before(*cfg, b as int, s as int, v).len() == 0,
                found matches Some(e) ==> rhss_before(*cfg, b as int, s as int, v).len() == 1 && *e == rhss_before(
                    *cfg,
                    b as int,
                    s as int,
                    v,
                )[0],
            decreases blk.stmts.len() - s,
        {
            proof {
                lemma_stmt_step(blk.stmts@, s as int, v);
            }
            match stmt_binding(&blk.stmts[s]) {
                Some((x, e)) => {
                    if str_eq(x.as_str(), var) {
                        if found.is_some() {
                            proof {
                                assert(rhss_before(*cfg, b as int, s + 1, v).len() == 2);
                                lemma_before_within(*cfg, b as int, s + 1, v);
                            }
                            return None;
                        }
                        found = Some(e);
                        assert(rhss_before(*cfg, b as int, s + 1, v) =~= Seq::<Expr>::empty().push(*e));
                    } else {
                        assert(rhss_before(*cfg, b as int, s + 1, v) =~= rhss_before(*cfg, b as int, s as int, v));
                    }
                },
                None => {
                    assert(rhss_before(*cfg, b as int, s + 1, v) =~= rhss_before(*cfg, b as int, s as int, v));
                },
            }
            s = s + 1;
        }
        proof {
            lemma_before_next_block(*cfg, b as int, v);
        }
        b = b + 1;
    }
    assert(cfg.blocks@.subrange(0, cfg.blocks.len() as int) =~= cfg.blocks@);
    found
}

/// The position of `x` among the names of `entries`, if it is there.
fn entry_position(entries: &Vec<(Var, Vec<&Expr>)>, x: &Var) -> (r: Option<usize>)
    ensures
        r matches Some(i) ==> i < entries.len() && entries@[i as int].0@ == x@,
        r is None ==> forall|i: int| 0 <= i < entries.len() ==> entries@[i].0@ != x@,
{
    let mut i: usize = 0;
    while i < entries.len()
        invariant
            i <= entries.len(),
            forall|q: int| 0 <= q < i ==> entries@[q].0@ != x@,
        decreases entries.len() - i,
    {
        if str_eq(entries[i].0.as_str(), x.as_str()) {
            return Some(i);
        }
        i = i + 1;
    }
    None
}

/// Every `let` and assignment right-hand side in `cfg`, by name, each name
/// once: all of a name's right-hand sides, in block and statement order.
/// Nested function bodies are not descended: a name bound inside a closure is
/// that closure's local.
pub fn local_bindings<'c>(cfg: &'c CFG) -> (r: Vec<(Var, Vec<&'c Expr>)>)
    ensures
        forall|i: int, j: int| 0 <= i < j < r.len() ==> r@[i].0@ != r@[j].0@,
        forall|i: int| 0 <= i < r.len() ==> derefs(r@[i].1@) == bound_rhss(*cfg, #[trigger] r@[i].0@),
        forall|v: Seq<char>| (exists|i: int| 0 <= i < r.len() && r@[i].0@ == v) <==> #[trigger] bound_rhss(*cfg, v).len() > 0,
{
    let mut entries: Vec<(Var, Vec<&'c Expr>)> = Vec::new();
    let mut b: usize = 0;
    proof {
        assert forall|v: Seq<char>| #[trigger] block_rhss(cfg.blocks@.subrange(0, 0), v) == Seq::<Expr>::empty() by {
            assert(cfg.blocks@.subrange(0, 0) =~= Seq::<BasicBlock>::empty());
        }
    }
    while b < cfg.blocks.len()
        invariant
            b <= cfg.blocks.len(),
            forall|i: int, j: int| 0 <= i < j < entries.len() ==> entries@[i].0@ != entries@[j].0@,
            forall|i: int| 0 <= i < entries.len() ==> derefs(entries@[i].1@) == block_rhss(cfg.blocks@.subrange(0, b as int), #[trigger] entries@[i].0@),
            forall|v: Seq<char>| (exists|i: int| 0 <= i < entries.len() && entries@[i].0@ == v) <==> #[trigger] block_rhss(cfg.blocks@.subrange(0, b as int), v).len() > 0,
        decreases cfg.blocks.len() - b,
    {
        let blk = &cfg.blocks[b];
        let mut s: usize = 0;
        proof {
            assert forall|v: Seq<char>| #[trigger] rhss_before(*cfg, b as int, 0, v) == block_rhss(cfg.blocks@.subrange(0, b as int), v) by {
                assert(blk.stmts@.subrange(0, 0) =~= Seq::<Stmt>::empty());
                assert(rhss_before(*cfg, b as int, 0, v) =~= block_rhss(cfg.blocks@.subrange(0, b as int), v));
            }
        }
        while s < blk.stmts.len()
            invariant
                b < cfg.blocks.len(),
                *blk == cfg.blocks@[b as int],
                s <= blk.stmts.len(),
                forall|i: int, j: int| 0 <= i < j < entries.len() ==> entries@[i].0@ != entries@[j].0@,
                forall|i: int| 0 <= i < entries.len() ==> derefs(entries@[i].1@) == rhss_before(*cfg, b as int, s as int, #[trigger] entries@[i].0@),
                forall|v: Seq<char>| (exists|i: int| 0 <= i < entries.len() && entries@[i].0@ == v) <==> #[trigger] rhss_before(*cfg, b as int, s as int, v).len() > 0,
            decreases blk.stmts.len() - s,
        {
            proof {
                assert forall|v: Seq<char>| #[trigger] stmt_rhss(blk.stmts@.subrange(0, s + 1), v) == match bound_by(blk.stmts@[s as int], v) {
                    Some(e) => stmt_rhss(blk.stmts@.subrange(0, s as int), v).push(e),
                    None => stmt_rhss(blk.stmts@.subrange(0, s as int), v),
                } by {
                    lemma_stmt_step(blk.stmts@, s as int, v);
                }
            }
            let ghost e0 = entries@;
            match stmt_binding(&blk.stmts[s]) {
                Some((x, e)) => {
                    proof {
                        assert forall|v: Seq<char>| v != x@ implies #[trigger] rhss_before(*cfg, b as int, s + 1, v) == rhss_before(*cfg, b as int, s as int, v) by {
                            assert(rhss_before(*cfg, b as int, s + 1, v) =~= rhss_before(*cfg, b as int, s as int, v));
                        }
                        assert(rhss_before(*cfg, b as int, s + 1, x@) =~= rhss_before(*cfg, b as int, s as int, x@).push(*e));
                    }
                    match entry_position(&entries, x) {
                        Some(i) => {
                            let (k, mut list) = entries.remove(i);
                            let ghost l0 = list@;
                            list.push(e);
                            assert(derefs(list@) =~= derefs(l0).push(*e));
                            entries.insert(i, (k, list));
                            proof {
                                assert forall|a: int| 0 <= a < entries.len() implies derefs(entries@[a].1@) == rhss_before(*cfg, b as int, s + 1, #[trigger] entries@[a].0@) by {
                                    if a != i {
                                        assert(entries@[a] == e0[a]);
                                        assert(e0[a].0@ != x@);
                                    }
                                }
                                assert forall|p: int, q: int| 0 <= p < q < entries.len() implies entries@[p].0@ != entries@[q].0@ by {
                                    assert(entries@[p].0@ == e0[p].0@);
                                    assert(entries@[q].0@ == e0[q].0@);
                                }
                                assert forall|v: Seq<char>| (exists|a: int| 0 <= a < entries.len() && entries@[a].0@ == v) <==> #[trigger] rhss_before(*cfg, b as int, s + 1, v).len() > 0 by {
                                    if exists|a: int| 0 <= a < entries.len() && entries@[a].0@ == v {
                                        let a = choose|a: int| 0 <= a < entries.len() && entries@[a].0@ == v;
                                        assert(e0[a].0@ == v);
                                    }
                                    if rhss_before(*cfg, b as int, s + 1, v).len() > 0 && v != x@ {
                                        let a = choose|a: int| 0 <= a < e0.len() && e0[a].0@ == v;
                                        assert(entries@[a].0@ == v);
                                    }
                                    if v == x@ {
                                        assert(entries@[i as int].0@ == v);
                                    }
                                }
                            }
                        },
                        None => {
                            let mut list: Vec<&'c Expr> = Vec::new();
                            list.push(e);
                            proof {
                                assert(!(exists|a: int| 0 <= a < e0.len() && e0[a].0@ == x@));
                                assert(rhss_before(*cfg, b as int, s as int, x@).len() == 0);
                                assert(derefs(list@) =~= rhss_before(*cfg, b as int, s + 1, x@));
                            }
                            entries.push((x.clone(), list));
                            proof {
                                assert forall|a: int| 0 <= a < entries.len() implies derefs(entries@[a].1@) == rhss_before(*cfg, b as int, s + 1, #[trigger] entries@[a].0@) by {
                                    if a < e0.len() {
                                        assert(entries@[a] == e0[a]);
                                        assert(e0[a].0@ != x@);
                                    }
                                }
                                assert forall|v: Seq<char>| (exists|a: int| 0 <= a < entries.len() && entries@[a].0@ == v) <==> #[trigger] rhss_before(*cfg, b as int, s + 1, v).len() > 0 by {
                                    if exists|a: int| 0 <= a < entries.len() && entries@[a].0@ == v {
                                        let a = choose|a: int| 0 <= a < entries.len() && entries@[a].0@ == v;
                                        if a < e0.len() {
                                            assert(e0[a].0@ == v);
                                        }
                                    }
                                    if rhss_before(*cfg, b as int, s + 1, v).len() > 0 && v != x@ {
                                        let a = choose|a: int| 0 <= a < e0.len() && e0[a].0@ == v;
                                        assert(entries@[a].0@ == v);
                                    }
                                    if v == x@ {
                                        assert(entries@[e0.len() as int].0@ == v);
                                    }
                                }
                            }
                        },
                    }
                },
                None => {
                    proof {
                        assert forall|v: Seq<char>| #[trigger] rhss_before(*cfg, b as int, s + 1, v) == rhss_before(*cfg, b as int, s as int, v) by {
                            assert(rhss_before(*cfg, b as int, s + 1, v) =~= rhss_before(*cfg, b as int, s as int, v));
                        }
                    }
                },
            }
            s = s + 1;
        }
        proof {
            assert forall|v: Seq<char>| #[trigger] block_rhss(cfg.blocks@.subrange(0, b + 1), v) == rhss_before(*cfg, b as int, blk.stmts.len() as int, v) by {
                lemma_before_next_block(*cfg, b as int, v);
            }
        }
        b = b + 1;
    }
    assert(cfg.blocks@.subrange(0, cfg.blocks.len() as int) =~= cfg.blocks@);
    entries
}

/// The single right-hand side `v` is bound to in `c`, annotations stripped;
/// nothing when `v` is bound zero times or more than once.
pub open spec fn sole_binding(c: CFG, v: Seq<char>) -> Option<Expr> {
    if bound_rhss(c, v).len() == 1 {
        Some(peeled(bound_rhss(c, v)[0]))
    } else {
        None
    }
}

/// Alias hops a chase follows before it gives up. A real chain is one or
/// two; the bound only stops a cycle.
pub const MAX_ALIAS_HOPS: usize = 8;

/// `e` followed through alias bindings with `fuel` steps left: a variable
/// steps to its sole binding, anything else is where the chase ends; out of
/// fuel, or at a name without a sole binding, there is no answer.
pub open spec fn chase_from(c: CFG, e: Expr, fuel: nat) -> Option<Expr>
    decreases fuel,
{
    if fuel == 0 {
        None
    } else {
        match e {
            Expr::Var(n) => match sole_binding(c, n@) {
                Some(next) => chase_from(c, next, (fuel - 1) as nat),
                None => None,
            },
            _ => Some(e),
        }
    }
}

/// What `v` certainly holds in `c`: its sole binding, followed through
/// aliases.
pub open spec fn chased(c: CFG, v: Seq<char>) -> Option<Expr> {
    match sole_binding(c, v) {
        Some(e) => chase_from(c, e, MAX_ALIAS_HOPS as nat),
        None => None,
    }
}

/// The single right-hand side `var` is bound to in `cfg`, annotations
/// stripped.
fn sole_binding_in<'c>(var: &str, cfg: &'c CFG) -> (r: Option<&'c Expr>)
    ensures
        r is Some <==> sole_binding(*cfg, var@) is Some,
        r matches Some(e) ==> sole_binding(*cfg, var@) == Some(*e),
{
    match only_binding(var, cfg) {
        Some(e) => Some(e.peel_ts()),
        None => None,
    }
}

/// [`sole_binding_in`] followed through aliases: `{ bump }` records the
/// member as `Var("bump")`, so a chase that stopped at the first right-hand
/// side would see a name where the value is.
fn chase_var<'c>(var: &str, cfg: &'c CFG) -> (r: Option<&'c Expr>)
    ensures
        r is Some <==> chased(*cfg, var@) is Some,
        r matches Some(e) ==> chased(*cfg, var@) == Some(*e),
{
    let mut cur: &Expr = match sole_binding_in(var, cfg) {
        Some(e) => e,
        None => return None,
    };
    let mut hops: usize = 0;
    while hops < MAX_ALIAS_HOPS
        invariant
            hops <= MAX_ALIAS_HOPS,
            chased(*cfg, var@) == chase_from(*cfg, *cur, (MAX_ALIAS_HOPS - hops) as nat),
        decreases MAX_ALIAS_HOPS - hops,
    {
        match cur {
            Expr::Var(next) => {
                match sole_binding_in(next.as_str(), cfg) {
                    Some(e) => {
                        cur = e;
                    },
                    None => return None,
                }
            },
            _ => return Some(cur),
        }
        hops = hops + 1;
    }
    None
}

/// One step of a member path: `cur` must be an object literal, and the
/// member `seg` of it a certain one; a member that is a bare name is chased.
pub open spec fn member_step(c: CFG, cur: Expr, seg: Seq<char>) -> Option<Expr> {
    match cur {
        Expr::ObjectLit { fields, .. } => match member_of(fields@, seg) {
            Some(m) => match peeled(m) {
                Expr::Var(n) => chased(c, n@),
                other => Some(other),
            },
            None => None,
        },
        _ => None,
    }
}

/// `start` followed through the member names `segs`, in order.
pub open spec fn walk_members(c: CFG, start: Option<Expr>, segs: Seq<Seq<char>>) -> Option<Expr>
    decreases segs.len(),
{
    if segs.len() == 0 {
        start
    } else {
        match walk_members(c, start, segs.drop_last()) {
            Some(e) => member_step(c, e, segs.last()),
            None => None,
        }
    }
}

/// What the path `root.segs…` certainly names in `c`.
pub open spec fn path_target(c: CFG, root: Seq<char>, segs: Seq<Seq<char>>) -> Option<Expr> {
    walk_members(c, chased(c, root), segs)
}

proof fn lemma_walk_none(c: CFG, start: Option<Expr>, segs: Seq<Seq<char>>, i: int)
    requires
        0 <= i <= segs.len(),
        walk_members(c, start, segs.subrange(0, i)) is None,
    ensures
        walk_members(c, start, segs) is None,
    decreases segs.len() - i,
{
    if i < segs.len() {
        assert(segs.subrange(0, i + 1).drop_last() =~= segs.subrange(0, i));
        lemma_walk_none(c, start, segs, i + 1);
    } else {
        assert(segs.subrange(0, i) =~= segs);
    }
}

/// The two spellings a function-valued binding has. Hook extraction rewrites
/// `useCallback(fn, deps)` to `CallbackVal(label)` and lifts `fn` out of the
/// render body, so the second spelling answers a label, and a reader that
/// wants the body asks the hook table for it.
#[derive(Debug)]
pub enum ClosureBinding<'c> {
    Lit { params: &'c [Var], body: &'c CFG },
    Callback(HookLabel),
}

/// The views of a list of names.
pub open spec fn seg_views(segs: Seq<String>) -> Seq<Seq<char>> {
    segs.map_values(|s: String| s@)
}

/// The unique closure the path `root.segments…` names in `cfg`, if any. A
/// bare name is the base case; each segment steps into the certain member
/// of the object literal the prefix is bound to, so a custom hook that
/// returns `{ clear }` hands its caller the closure a bare
/// `const clear = useCallback(…)` would have. Conditional or repeated
/// rebinding answers nothing at every hop; nested bodies are not scanned.
pub fn closure_binding_of<'c>(root: &str, segments: &[String], cfg: &'c CFG) -> (r: Option<ClosureBinding<'c>>)
    ensures
        match path_target(*cfg, root@, seg_views(segments@)) {
            Some(Expr::FnLit { params, body_cfg, .. }) => r matches Some(ClosureBinding::Lit { params: p, body }) && p@ == params@
                && *body == *body_cfg,
            Some(Expr::CallbackVal(l)) => r matches Some(ClosureBinding::Callback(l2)) && l2 == l,
            _ => r is None,
        },
{
    let ghost segs = seg_views(segments@);
    let mut cur: &Expr = match chase_var(root, cfg) {
        Some(e) => e,
        None => {
            proof {
                assert(segs.subrange(0, 0) =~= Seq::<Seq<char>>::empty());
                lemma_walk_none(*cfg, chased(*cfg, root@), segs, 0);
            }
            return None;
        },
    };
    let mut i: usize = 0;
    assert(segs.subrange(0, 0) =~= Seq::<Seq<char>>::empty());
    while i < segments.len()
        invariant
            i <= segments.len(),
            segs == seg_views(segments@),
            walk_members(*cfg, chased(*cfg, root@), segs.subrange(0, i as int)) == Some(*cur),
        decreases segments.len() - i,
    {
        assert(segs.subrange(0, i + 1).drop_last() =~= segs.subrange(0, i as int));
        assert(segs.subrange(0, i + 1).last() == segments@[i as int]@);
        let next: &Expr = match cur {
            Expr::ObjectLit { fields, .. } => match object_member(fields, segments[i].as_str()) {
                Some(m) => match m.peel_ts() {
                    Expr::Var(v) => match chase_var(v.as_str(), cfg) {
                        Some(e) => e,
                        None => {
                            proof {
                                lemma_walk_none(*cfg, chased(*cfg, root@), segs, i + 1);
                            }
                            return None;
                        },
                    },
                    e => e,
                },
                None => {
                    proof {
                        lemma_walk_none(*cfg, chased(*cfg, root@), segs, i + 1);
                    }
                    return None;
                },
            },
            _ => {
                proof {
                    lemma_walk_none(*cfg, chased(*cfg, root@), segs, i + 1);
                }
                return None;
            },
        };
        cur = next;
        i = i + 1;
    }
    assert(segs.subrange(0, segments.len() as int) =~= segs);
    match cur {
        Expr::FnLit { params, body_cfg, .. } => Some(ClosureBinding::Lit { params: params.as_slice(), body: &**body_cfg }),
        Expr::CallbackVal(l) => Some(ClosureBinding::Callback(*l)),
        _ => None,
    }
}

/// The parameters and body of the unique function literal bound to `var`
/// in `cfg`, if any: [`closure_binding_of`] for a bare name, narrowed to the
/// literal spelling.
pub fn fn_binding_in<'c>(var: &str, cfg: &'c CFG) -> (r: Option<(&'c [Var], &'c CFG)>)
    ensures
        match chased(*cfg, var@) {
            Some(Expr::FnLit { params, body_cfg, .. }) => r matches Some((p, body)) && p@ == params@ && *body == *body_cfg,
            _ => r is None,
        },
{
    let segs: Vec<String> = Vec::new();
    assert(seg_views(segs@) =~= Seq::<Seq<char>>::empty());
    match closure_binding_of(var, segs.as_slice(), cfg) {
        Some(ClosureBinding::Lit { params, body }) => Some((params, body)),
        _ => None,
    }
}

/// Some function literal reachable in `e` without crossing another one binds
/// `v` in its body, or in a body nested below it.
pub open spec fn rebinds_expr(e: Expr, v: Seq<char>) -> bool
    decreases e,
{
    match e {
        Expr::FnLit { body_cfg, .. } => defines(*body_cfg, v) || rebound_below(*body_cfg, v),
        Expr::ObjectLit { fields, .. } => exists|i: int| 0 <= i < fields.len() && rebinds_expr(#[trigger] fields@[i].1, v),
        Expr::ArrayLit { elems, .. } => exists|i: int| 0 <= i < elems.len() && rebinds_expr(#[trigger] elems@[i], v),
        Expr::FieldAccess { obj, .. } => rebinds_expr(*obj, v),
        Expr::IndexAccess { arr, idx } => rebinds_expr(*arr, v) || rebinds_expr(*idx, v),
        Expr::BinOp { lhs, rhs, .. } => rebinds_expr(*lhs, v) || rebinds_expr(*rhs, v),
        Expr::UnaryOp { arg, .. } => rebinds_expr(*arg, v),
        Expr::Call { fn_, args } => rebinds_expr(*fn_, v) || exists|i: int| 0 <= i < args.len() && rebinds_expr(#[trigger] args@[i], v),
        Expr::CompApp { props, .. } => rebinds_expr(*props, v),
        Expr::NativeElem { props, children, .. } => rebinds_expr(*props, v) || exists|i: int|
            0 <= i < children.len() && rebinds_expr(#[trigger] children@[i], v),
        Expr::TSAnnotated(inner) => rebinds_expr(*inner, v),
        _ => false,
    }
}

/// A name is rebound inside an expression exactly when a function literal
/// in it binds the name in its body (at any depth), or one of the
/// expressions directly inside it rebinds it.
pub proof fn lemma_rebinds_structure(e: Expr, v: Seq<char>)
    ensures
        rebinds_expr(e, v) <==> {
            ||| (e matches Expr::FnLit { body_cfg, .. } && (defines(*body_cfg, v) || rebound_below(*body_cfg, v)))
            ||| exists|k: int| 0 <= k < children_of(e).len() && rebinds_expr(#[trigger] children_of(e)[k], v)
        },
{
    let c = children_of(e);
    match e {
        Expr::Call { fn_, args } => {
            assert(c[0] == *fn_);
            assert forall|i: int| 0 <= i < args.len() implies c[i + 1] == args@[i] by {}
            assert forall|k: int| 0 <= k < c.len() implies (k == 0 && c[k] == *fn_) || (k >= 1 && c[k] == args@[k - 1]) by {}
        },
        Expr::NativeElem { props, children, .. } => {
            assert(c[0] == *props);
            assert forall|i: int| 0 <= i < children.len() implies c[i + 1] == children@[i] by {}
            assert forall|k: int| 0 <= k < c.len() implies (k == 0 && c[k] == *props) || (k >= 1 && c[k] == children@[k - 1]) by {}
        },
        Expr::CompApp { props, .. } => {
            assert(c[0] == *props);
            assert forall|k: int| 0 <= k < c.len() implies c[k] == *props by {}
        },
        Expr::ObjectLit { fields, .. } => {
            assert(c.len() == fields.len());
            assert forall|k: int| 0 <= k < c.len() implies #[trigger] c[k] == fields@[k].1 by {}
            assert forall|i: int| 0 <= i < fields.len() implies #[trigger] fields@[i].1 == c[i] by {}
        },
        Expr::FieldAccess { obj, .. } => {
            assert(c[0] == *obj);
            assert forall|k: int| 0 <= k < c.len() implies c[k] == *obj by {}
        },
        Expr::IndexAccess { arr, idx } => {
            assert(c[0] == *arr && c[1] == *idx);
            assert forall|k: int| 0 <= k < c.len() implies (k == 0 && c[k] == *arr) || (k == 1 && c[k] == *idx) by {}
        },
        Expr::BinOp { lhs, rhs, .. } => {
            assert(c[0] == *lhs && c[1] == *rhs);
            assert forall|k: int| 0 <= k < c.len() implies (k == 0 && c[k] == *lhs) || (k == 1 && c[k] == *rhs) by {}
        },
        Expr::UnaryOp { arg, .. } => {
            assert(c[0] == *arg);
            assert forall|k: int| 0 <= k < c.len() implies c[k] == *arg by {}
        },
        Expr::TSAnnotated(inner) => {
            assert(c[0] == *inner);
            assert forall|k: int| 0 <= k < c.len() implies c[k] == *inner by {}
        },
        _ => {},
    }
}

/// [`rebinds_expr`] for one of a statement's expressions.
pub open spec fn rebinds_stmt(s: Stmt, v: Seq<char>) -> bool
    decreases s,
{
    match s {
        Stmt::Let { rhs, .. } => rebinds_expr(rhs, v),
        Stmt::Assign { rhs, .. } => rebinds_expr(rhs, v),
        Stmt::MemberWrite { obj, key, rhs, .. } => rebinds_expr(obj, v) || rebinds_expr(rhs, v) || (match key {
            MemberKey::Index(i) => rebinds_expr(i, v),
            _ => false,
        }),
        Stmt::ExprStmt(e, _) => rebinds_expr(e, v),
    }
}

/// [`rebinds_expr`] for a terminator's expression.
pub open spec fn rebinds_term(t: Terminator, v: Seq<char>) -> bool
    decreases t,
{
    match t {
        Terminator::Return(e) => rebinds_expr(e, v),
        Terminator::Branch { cond, .. } => rebinds_expr(cond, v),
        _ => false,
    }
}

/// [`rebinds_expr`] for a statement or the terminator of a block.
pub open spec fn rebinds_block(b: BasicBlock, v: Seq<char>) -> bool
    decreases b,
{
    ||| exists|j: int| 0 <= j < b.stmts.len() && rebinds_stmt(#[trigger] b.stmts@[j], v)
    ||| rebinds_term(b.term, v)
}

/// `v` is bound or assigned in some function body nested, at any depth,
/// under `c`.
pub open spec fn rebound_below(c: CFG, v: Seq<char>) -> bool
    decreases c,
{
    exists|i: int| 0 <= i < c.blocks.len() && rebinds_block(#[trigger] c.blocks@[i], v)
}

/// Does this body bind or assign `var` at its own level?
fn binds(var: &str, cfg: &CFG) -> (r: bool)
    ensures
        r == defines(*cfg, var@),
{
    let mut i: usize = 0;
    while i < cfg.blocks.len()
        invariant
            i <= cfg.blocks.len(),
            forall|k: int, j: int| 0 <= k < i && 0 <= j < cfg.blocks@[k].stmts.len() ==> !stmt_defines(#[trigger] cfg.blocks@[k].stmts@[j], var@),
        decreases cfg.blocks.len() - i,
    {
        let b = &cfg.blocks[i];
        let mut j: usize = 0;
        while j < b.stmts.len()
            invariant
                i < cfg.blocks.len(),
                *b == cfg.blocks@[i as int],
                j <= b.stmts.len(),
                forall|k: int, jj: int| 0 <= k < i && 0 <= jj < cfg.blocks@[k].stmts.len() ==> !stmt_defines(#[trigger] cfg.blocks@[k].stmts@[jj], var@),
                forall|jj: int| 0 <= jj < j ==> !stmt_defines(#[trigger] b.stmts@[jj], var@),
            decreases b.stmts.len() - j,
        {
            let hit = match &b.stmts[j] {
                Stmt::Let { var: x, .. } => str_eq(x.as_str(), var),
                Stmt::Assign { var: x, .. } => str_eq(x.as_str(), var),
                _ => false,
            };
            if hit {
                assert(stmt_defines(cfg.blocks@[i as int].stmts@[j as int], var@));
                return true;
            }
            j = j + 1;
        }
        i = i + 1;
    }
    false
}

/// [`rebinds_expr`], computed.
#[verifier::loop_isolation(false)]
fn rebinds_in_expr(var: &str, e: &Expr) -> (r: bool)
    ensures
        r == rebinds_expr(*e, var@),
    decreases e,
{
    match e {
        Expr::FnLit { body_cfg, .. } => {
            proof {
                assert(decreases_to!(*e => **body_cfg));
            }
            binds(var, &**body_cfg) || bound_below(var, &**body_cfg)
        },
        Expr::ObjectLit { fields, .. } => {
            let mut i: usize = 0;
            while i < fields.len()
                invariant
                    i <= fields.len(),
                    forall|k: int| 0 <= k < i ==> !rebinds_expr(#[trigger] fields@[k].1, var@),
                decreases fields.len() - i,
            {
                proof {
                    assert(decreases_to!(*e => *fields));
                    assert(decreases_to!(*fields => fields@));
                    assert(decreases_to!(fields@ => fields@[i as int]));
                    assert(decreases_to!(fields@[i as int] => fields@[i as int].1));
                }
                if rebinds_in_expr(var, &fields[i].1) {
                    return true;
                }
                i = i + 1;
            }
            false
        },
        Expr::ArrayLit { elems, .. } => rebinds_in_exprs(var, elems),
        Expr::FieldAccess { obj, .. } => rebinds_in_expr(var, &**obj),
        Expr::IndexAccess { arr, idx } => rebinds_in_expr(var, &**arr) || rebinds_in_expr(var, &**idx),
        Expr::BinOp { lhs, rhs, .. } => rebinds_in_expr(var, &**lhs) || rebinds_in_expr(var, &**rhs),
        Expr::UnaryOp { arg, .. } => rebinds_in_expr(var, &**arg),
        Expr::Call { fn_, args } => rebinds_in_expr(var, &**fn_) || rebinds_in_exprs(var, args),
        Expr::CompApp { props, .. } => rebinds_in_expr(var, &**props),
        Expr::NativeElem { props, children, .. } => rebinds_in_expr(var, &**props) || rebinds_in_exprs(var, children),
        Expr::TSAnnotated(inner) => rebinds_in_expr(var, &**inner),
        _ => false,
    }
}

/// [`rebinds_expr`] for any of `es`.
fn rebinds_in_exprs(var: &str, es: &Vec<Expr>) -> (r: bool)
    ensures
        r == exists|k: int| 0 <= k < es.len() && rebinds_expr(#[trigger] es@[k], var@),
    decreases es,
{
    let mut i: usize = 0;
    while i < es.len()
        invariant
            i <= es.len(),
            forall|k: int| 0 <= k < i ==> !rebinds_expr(#[trigger] es@[k], var@),
        decreases es.len() - i,
    {
        proof {
            assert(decreases_to!(*es => es@));
            assert(decreases_to!(es@ => es@[i as int]));
        }
        if rebinds_in_expr(var, &es[i]) {
            return true;
        }
        i = i + 1;
    }
    false
}

/// [`rebinds_stmt`], computed.
fn rebinds_in_stmt(var: &str, st: &Stmt) -> (r: bool)
    ensures
        r == rebinds_stmt(*st, var@),
    decreases st,
{
    match st {
        Stmt::Let { rhs, .. } => rebinds_in_expr(var, rhs),
        Stmt::Assign { rhs, .. } => rebinds_in_expr(var, rhs),
        Stmt::MemberWrite { obj, key, rhs, .. } => {
            let in_key = match key {
                MemberKey::Index(i) => rebinds_in_expr(var, i),
                _ => false,
            };
            rebinds_in_expr(var, obj) || rebinds_in_expr(var, rhs) || in_key
        },
        Stmt::ExprStmt(e, _) => rebinds_in_expr(var, e),
    }
}

/// Is `var` bound or assigned anywhere in a function body nested under
/// `cfg`?
fn bound_below(var: &str, cfg: &CFG) -> (r: bool)
    ensures
        r == rebound_below(*cfg, var@),
    decreases cfg,
{
    let mut i: usize = 0;
    while i < cfg.blocks.len()
        invariant
            i <= cfg.blocks.len(),
            forall|k: int| 0 <= k < i ==> !rebinds_block(#[trigger] cfg.blocks@[k], var@),
        decreases cfg.blocks.len() - i,
    {
        let b = &cfg.blocks[i];
        let mut j: usize = 0;
        while j < b.stmts.len()
            invariant
                i < cfg.blocks.len(),
                *b == cfg.blocks@[i as int],
                j <= b.stmts.len(),
                forall|jj: int| 0 <= jj < j ==> !rebinds_stmt(#[trigger] b.stmts@[jj], var@),
            decreases b.stmts.len() - j,
        {
            proof {
                assert(decreases_to!(*cfg => cfg.blocks));
                assert(decreases_to!(cfg.blocks => cfg.blocks@));
                assert(decreases_to!(cfg.blocks@ => cfg.blocks@[i as int]));
                assert(decreases_to!(cfg.blocks@[i as int] => cfg.blocks@[i as int].stmts));
                assert(decreases_to!(cfg.blocks@[i as int].stmts => cfg.blocks@[i as int].stmts@));
                assert(decreases_to!(cfg.blocks@[i as int].stmts@ => cfg.blocks@[i as int].stmts@[j as int]));
            }
            if rebinds_in_stmt(var, &b.stmts[j]) {
                assert(rebinds_block(cfg.blocks@[i as int], var@));
                return true;
            }
            j = j + 1;
        }
        proof {
            assert(decreases_to!(*cfg => cfg.blocks));
            assert(decreases_to!(cfg.blocks => cfg.blocks@));
            assert(decreases_to!(cfg.blocks@ => cfg.blocks@[i as int]));
            assert(decreases_to!(cfg.blocks@[i as int] => cfg.blocks@[i as int].term));
        }
        let in_term = match &b.term {
            Terminator::Return(e) => rebinds_in_expr(var, e),
            Terminator::Branch { cond, .. } => rebinds_in_expr(var, cond),
            _ => false,
        };
        if in_term {
            assert(rebinds_block(cfg.blocks@[i as int], var@));
            return true;
        }
        i = i + 1;
    }
    false
}

/// `v` is bound exactly once in `root`, to a function literal, and bound or
/// assigned nowhere else: not in a body nested under `root`, and neither in
/// nor under any of `also`.
pub open spec fn certified(v: Seq<char>, root: CFG, also: Seq<&CFG>) -> bool {
    &&& chased(root, v) matches Some(Expr::FnLit { .. })
    &&& !rebound_below(root, v)
    &&& forall|i: int| 0 <= i < also.len() ==> !defines(*#[trigger] also[i], v) && !rebound_below(*also[i], v)
}

/// [`fn_binding_in`], certified against every nested function body: the
/// name must be bound once, to a function literal, and never re-bound or
/// assigned inside any closure below `root`, nor in or below the bodies
/// `also` that hook extraction lifted out of it. That is what makes the
/// binding usable at an arbitrary later program point; otherwise the
/// certificate is refused rather than qualified.
pub fn certified_fn_binding<'c>(var: &str, root: &'c CFG, also: &[&'c CFG]) -> (r: Option<(&'c [Var], &'c CFG)>)
    ensures
        r is Some <==> certified(var@, *root, also@),
        r matches Some((p, body)) ==> chased(*root, var@) matches Some(Expr::FnLit { params, body_cfg, .. }) && p@ == params@
            && *body == *body_cfg,
{
    let binding = match fn_binding_in(var, root) {
        Some(b) => b,
        None => return None,
    };
    if bound_below(var, root) {
        return None;
    }
    let mut i: usize = 0;
    while i < also.len()
        invariant
            i <= also.len(),
            forall|k: int| 0 <= k < i ==> !defines(*#[trigger] also@[k], var@) && !rebound_below(*also@[k], var@),
        decreases also.len() - i,
    {
        let body: &CFG = also[i];
        if binds(var, body) || bound_below(var, body) {
            return None;
        }
        i = i + 1;
    }
    Some(binding)
}

} // verus!
