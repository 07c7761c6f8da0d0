//! Control dependence by reachability: a branch controls a block when
//! exactly one of its sides reaches the block.
use std::collections::HashSet;

use vstd::prelude::*;

use crate::cfg::{reached_from_any, reaches, Terminator, CFG};
use crate::expr::Expr;
use crate::expand::{lemma_names_bound, texts};
use crate::free_vars::{collect_used_vars, compute_free_vars, free_in, reads_block, reads_expr};
use crate::may_written::{collect_vars_block, has_name};
use crate::splice::names;
use crate::stmt::Stmt;
use crate::symbol_graph::name_set;
use crate::types::{BlockId, Var};

verus! {

/// The block at position `k` ends in a branch exactly one side of which
/// reaches `b` (a side reaches itself).
pub open spec fn controls(cfg: CFG, k: int, b: BlockId) -> bool {
    match cfg.blocks@[k].term {
        Terminator::Branch { then_, else_, .. } => reaches(cfg.edges@, then_, b) != reaches(cfg.edges@, else_, b),
        _ => false,
    }
}

/// The ids of the branch blocks among the first `n` that control `b`, in
/// block order.
pub open spec fn controllers_upto(cfg: CFG, n: int, b: BlockId) -> Seq<BlockId>
    decreases n,
{
    if n <= 0 {
        Seq::empty()
    } else {
        let prev = controllers_upto(cfg, n - 1, b);
        if controls(cfg, n - 1, b) {
            prev.push(cfg.blocks@[n - 1].id)
        } else {
            prev
        }
    }
}

/// Reachability from one seed is reachability from that block.
proof fn lemma_single_seed(cfg: CFG, s: BlockId, n: BlockId)
    ensures
        reached_from_any(cfg.edges@, seq![s], n) == reaches(cfg.edges@, s, n),
{
    if reaches(cfg.edges@, s, n) {
        assert(seq![s][0] == s);
    }
}

/// For every block of `cfg`, in block order, the branch blocks that
/// control it, in block order.
pub fn controlling_branches(cfg: &CFG) -> (r: Vec<Vec<BlockId>>)
    ensures
        r.len() == cfg.blocks.len(),
        forall|k: int| 0 <= k < r.len() ==> (#[trigger] r@[k])@ == controllers_upto(*cfg, cfg.blocks.len() as int, cfg.blocks@[k].id),
{
    let n = cfg.blocks.len();
    let mut sides: Vec<Option<(HashSet<BlockId>, HashSet<BlockId>)>> = Vec::new();
    let mut j: usize = 0;
    while j < n
        invariant
            j <= n,
            n == cfg.blocks.len(),
            sides.len() == j,
            forall|q: int|
                0 <= q < j ==> match cfg.blocks@[q].term {
                    Terminator::Branch { then_, else_, .. } => (#[trigger] sides@[q]) matches Some((a, b)) && (forall|x: BlockId|
                        a@.contains(x) == reaches(cfg.edges@, then_, x)) && (forall|x: BlockId|
                        b@.contains(x) == reaches(cfg.edges@, else_, x)),
                    _ => sides@[q] is None,
                },
        decreases n - j,
    {
        match &cfg.blocks[j].term {
            Terminator::Branch { then_, else_, .. } => {
                let a = cfg.closure_from(vec![*then_]);
                let b = cfg.closure_from(vec![*else_]);
                proof {
                    assert forall|x: BlockId| a@.contains(x) == reaches(cfg.edges@, *then_, x) by {
                        lemma_single_seed(*cfg, *then_, x);
                    }
                    assert forall|x: BlockId| b@.contains(x) == reaches(cfg.edges@, *else_, x) by {
                        lemma_single_seed(*cfg, *else_, x);
                    }
                }
                sides.push(Some((a, b)));
            },
            _ => {
                sides.push(None);
            },
        }
        j = j + 1;
    }
    let mut r: Vec<Vec<BlockId>> = Vec::new();
    let mut k: usize = 0;
    while k < n
        invariant
            k <= n,
            n == cfg.blocks.len(),
            sides.len() == n,
            r.len() == k,
            forall|q: int|
                0 <= q < n ==> match cfg.blocks@[q].term {
                    Terminator::Branch { then_, else_, .. } => (#[trigger] sides@[q]) matches Some((a, b)) && (forall|x: BlockId|
                        a@.contains(x) == reaches(cfg.edges@, then_, x)) && (forall|x: BlockId|
                        b@.contains(x) == reaches(cfg.edges@, else_, x)),
                    _ => sides@[q] is None,
                },
            forall|q: int| 0 <= q < k ==> (#[trigger] r@[q])@ == controllers_upto(*cfg, n as int, cfg.blocks@[q].id),
        decreases n - k,
    {
        let id = cfg.blocks[k].id;
        let mut list: Vec<BlockId> = Vec::new();
        let mut j: usize = 0;
        while j < n
            invariant
                j <= n,
                n == cfg.blocks.len(),
                sides.len() == n,
                id == cfg.blocks@[k as int].id,
                forall|q: int|
                    0 <= q < n ==> match cfg.blocks@[q].term {
                        Terminator::Branch { then_, else_, .. } => (#[trigger] sides@[q]) matches Some((a, b)) && (forall|x: BlockId|
                            a@.contains(x) == reaches(cfg.edges@, then_, x)) && (forall|x: BlockId|
                            b@.contains(x) == reaches(cfg.edges@, else_, x)),
                        _ => sides@[q] is None,
                    },
                list@ == controllers_upto(*cfg, j as int, id),
            decreases n - j,
        {
            let ghost q = j as int;
            assert(sides@[q] == sides@[q]);
            match &sides[j] {
                Some((a, b)) => {
                    if a.contains(&id) != b.contains(&id) {
                        list.push(cfg.blocks[j].id);
                    }
                },
                None => {},
            }
            j = j + 1;
        }
        r.push(list);
        k = k + 1;
    }
    r
}


/// The condition of the first block carrying id `br`, when that block ends
/// in a branch.
pub open spec fn branch_cond(cfg: CFG, br: BlockId) -> Option<Expr> {
    if exists|i: int| 0 <= i < cfg.blocks.len() && cfg.blocks@[i].id == br {
        let i = choose|i: int|
            0 <= i < cfg.blocks.len() && cfg.blocks@[i].id == br && forall|j: int| 0 <= j < i ==> cfg.blocks@[j].id != br;
        match cfg.blocks@[i].term {
            Terminator::Branch { cond, .. } => Some(cond),
            _ => None,
        }
    } else {
        None
    }
}

/// `e` reads some variable of `t`.
pub open spec fn uses_any(e: Expr, t: Set<Seq<char>>) -> bool {
    exists|v: Seq<char>| #[trigger] t.contains(v) && reads_expr(e, v)
}

/// The first block carrying `br` ends in a branch whose condition reads `t`.
pub open spec fn cond_tests(cfg: CFG, br: BlockId, t: Set<Seq<char>>) -> bool {
    match branch_cond(cfg, br) {
        Some(c) => uses_any(c, t),
        None => false,
    }
}

/// Block `b` sits behind a test of `t`: a branch controlling it tests a
/// variable of `t`.
pub open spec fn behind(cfg: CFG, b: BlockId, t: Set<Seq<char>>) -> bool {
    let ctrl = controllers_upto(cfg, cfg.blocks.len() as int, b);
    exists|q: int| 0 <= q < ctrl.len() && #[trigger] cond_tests(cfg, ctrl[q], t)
}

/// The variable a `let` or an assignment binds.
pub open spec fn bound_by(s: Stmt) -> Option<(Seq<char>, Expr)> {
    match s {
        Stmt::Let { var, rhs, .. } => Some((var@, rhs)),
        Stmt::Assign { var, rhs, .. } => Some((var@, rhs)),
        _ => None,
    }
}

/// `t` holds the parameters and is closed under flow: a binding whose value
/// reads `t`, or that sits behind a test of `t`, binds a member of `t`.
pub open spec fn taint_closed(cfg: CFG, params: Seq<Var>, t: Set<Seq<char>>) -> bool {
    &&& forall|p: int| 0 <= p < params.len() ==> t.contains(#[trigger] params[p]@)
    &&& forall|i: int, j: int|
        0 <= i < cfg.blocks.len() && 0 <= j < cfg.blocks@[i].stmts.len() ==> match bound_by(#[trigger] cfg.blocks@[i].stmts@[j]) {
            Some((v, rhs)) => (behind(cfg, cfg.blocks@[i].id, t) || uses_any(rhs, t)) ==> t.contains(v),
            None => true,
        }
}

/// `t` is the least set closed under flow from the parameters.
pub open spec fn least_taint(cfg: CFG, params: Seq<Var>, t: Set<Seq<char>>) -> bool {
    &&& taint_closed(cfg, params, t)
    &&& forall|u: Set<Seq<char>>| #[trigger] taint_closed(cfg, params, u) ==> t.subset_of(u)
}

/// The name a statement binds; the empty name for one that binds none.
pub open spec fn bound_name_of(s: Stmt) -> Seq<char> {
    match bound_by(s) {
        Some((v, _)) => v,
        None => Seq::empty(),
    }
}

/// The names every binding of `blocks` could give, one per statement
/// (the empty name for a statement that binds none).
pub open spec fn binding_names(blocks: Seq<crate::cfg::BasicBlock>) -> Seq<Seq<char>>
    decreases blocks.len(),
{
    if blocks.len() == 0 {
        Seq::empty()
    } else {
        binding_names(blocks.drop_last()) + blocks.last().stmts@.map_values(|s: Stmt| bound_name_of(s))
    }
}

proof fn lemma_binding_names(blocks: Seq<crate::cfg::BasicBlock>, i: int, j: int)
    requires
        0 <= i < blocks.len(),
        0 <= j < blocks[i].stmts.len(),
        bound_by(blocks[i].stmts@[j]) is Some,
    ensures
        binding_names(blocks).contains(bound_name_of(blocks[i].stmts@[j])),
    decreases blocks.len(),
{
    let last = blocks.last().stmts@.map_values(|s: Stmt| bound_name_of(s));
    let pre = binding_names(blocks.drop_last());
    if i == blocks.len() - 1 {
        assert((pre + last)[pre.len() + j] == last[j]);
    } else {
        lemma_binding_names(blocks.drop_last(), i, j);
        let k = choose|k: int| 0 <= k < pre.len() && pre[k] == bound_name_of(blocks[i].stmts@[j]);
        assert((pre + last)[k] == pre[k]);
    }
}

/// The first block of `blocks` carrying `id`, if any.
fn first_block_of(blocks: &Vec<crate::cfg::BasicBlock>, id: BlockId) -> (r: Option<usize>)
    ensures
        r is None <==> !exists|i: int| 0 <= i < blocks.len() && blocks@[i].id == id,
        r matches Some(p) ==> p < blocks.len() && blocks@[p as int].id == id && forall|j: int|
            0 <= j < p ==> blocks@[j].id != id,
{
    let mut k: usize = 0;
    while k < blocks.len()
        invariant
            k <= blocks.len(),
            forall|j: int| 0 <= j < k ==> blocks@[j].id != id,
        decreases blocks.len() - k,
    {
        if blocks[k].id == id {
            return Some(k);
        }
        k = k + 1;
    }
    None
}

/// Whether `e` reads a variable of `t`.
fn reads_any(e: &Expr, t: &Vec<Var>) -> (r: bool)
    ensures
        r == uses_any(*e, name_set(t@)),
{
    let mut u: Vec<Var> = Vec::new();
    collect_used_vars(e, &mut u);
    assert(forall|x: Seq<char>| #[trigger] name_set(u@).contains(x) <==> reads_expr(*e, x));
    let mut k: usize = 0;
    while k < u.len()
        invariant
            k <= u.len(),
            forall|x: Seq<char>| #[trigger] name_set(u@).contains(x) <==> reads_expr(*e, x),
            forall|q: int| 0 <= q < k ==> !name_set(t@).contains(#[trigger] u@[q]@),
        decreases u.len() - k,
    {
        if has_name(t, &u[k]) {
            assert(name_set(u@).contains(u@[k as int]@));
            return true;
        }
        k = k + 1;
    }
    proof {
        if uses_any(*e, name_set(t@)) {
            let v = choose|v: Seq<char>| #[trigger] name_set(t@).contains(v) && reads_expr(*e, v);
            assert(name_set(u@).contains(v));
            let q = choose|q: int| 0 <= q < u.len() && #[trigger] u@[q]@ == v;
        }
    }
    false
}

/// Whether the block whose controllers are `ctrl` sits behind a test of `t`.
fn is_behind(cfg: &CFG, ctrl: &Vec<BlockId>, t: &Vec<Var>, Ghost(b): Ghost<BlockId>) -> (r: bool)
    requires
        ctrl@ == controllers_upto(*cfg, cfg.blocks.len() as int, b),
    ensures
        r == behind(*cfg, b, name_set(t@)),
{
    let mut q: usize = 0;
    while q < ctrl.len()
        invariant
            q <= ctrl.len(),
            ctrl@ == controllers_upto(*cfg, cfg.blocks.len() as int, b),
            forall|k: int| 0 <= k < q ==> !#[trigger] cond_tests(*cfg, ctrl@[k], name_set(t@)),
        decreases ctrl.len() - q,
    {
        let ghost br = ctrl@[q as int];
        match first_block_of(&cfg.blocks, ctrl[q]) {
            Some(p) => {
                proof {
                    let i = choose|i: int|
                        0 <= i < cfg.blocks.len() && cfg.blocks@[i].id == br && forall|j: int|
                            0 <= j < i ==> cfg.blocks@[j].id != br;
                    assert(i == p);
                }
                match &cfg.blocks[p].term {
                    Terminator::Branch { cond, .. } => {
                        if reads_any(cond, t) {
                            assert(branch_cond(*cfg, ctrl@[q as int]) == Some(*cond));
                            assert(cond_tests(*cfg, ctrl@[q as int], name_set(t@)));
                            return true;
                        }
                    },
                    _ => {},
                }
            },
            None => {},
        }
        q = q + 1;
    }
    false
}


/// A name is in the texts of a list exactly when the list names it.
proof fn lemma_texts_names(v: Seq<Var>)
    ensures
        forall|x: Seq<char>| #[trigger] texts(v).contains(x) <==> name_set(v).contains(x),
{
    assert forall|x: Seq<char>| #[trigger] texts(v).contains(x) <==> name_set(v).contains(x) by {
        if texts(v).contains(x) {
            let q = choose|q: int| 0 <= q < texts(v).len() && texts(v)[q] == x;
            assert(v[q]@ == x);
        }
        if name_set(v).contains(x) {
            let q = choose|q: int| 0 <= q < v.len() && #[trigger] v[q]@ == x;
            assert(texts(v)[q] == x);
        }
    }
}

/// A larger set makes more blocks sit behind a test of it.
proof fn lemma_behind_mono(cfg: CFG, b: BlockId, t: Set<Seq<char>>, u: Set<Seq<char>>)
    requires
        t.subset_of(u),
        behind(cfg, b, t),
    ensures
        behind(cfg, b, u),
{
    let ctrl = controllers_upto(cfg, cfg.blocks.len() as int, b);
    let q = choose|q: int| 0 <= q < ctrl.len() && #[trigger] cond_tests(cfg, ctrl[q], t);
    let c = branch_cond(cfg, ctrl[q])->0;
    let v = choose|v: Seq<char>| #[trigger] t.contains(v) && reads_expr(c, v);
    assert(u.contains(v));
    assert(cond_tests(cfg, ctrl[q], u));
}

/// `x` is read only in blocks behind a test of `t`, free in `cfg`, and no
/// parameter.
pub open spec fn gated_only(cfg: CFG, t: Set<Seq<char>>, params: Seq<Var>, x: Seq<char>) -> bool {
    &&& exists|k: int| 0 <= k < cfg.blocks.len() && behind(cfg, cfg.blocks@[k].id, t) && reads_block(#[trigger] cfg.blocks@[k], x)
    &&& !exists|k: int| 0 <= k < cfg.blocks.len() && !behind(cfg, cfg.blocks@[k].id, t) && reads_block(#[trigger] cfg.blocks@[k], x)
    &&& free_in(cfg, x)
    &&& !name_set(params).contains(x)
}

/// A binding statement of block `bid` whose value reads `t`, or that sits
/// behind a test of `t`, binds a member of `t`.
pub open spec fn stmt_ok(cfg: CFG, st: Stmt, bid: BlockId, t: Set<Seq<char>>) -> bool {
    match bound_by(st) {
        Some((v, rhs)) => (behind(cfg, bid, t) || uses_any(rhs, t)) ==> t.contains(v),
        None => true,
    }
}

/// The least flow-closed set from the parameters, as names.
fn param_taint(params: &Vec<Var>, body: &CFG, ctrl: &Vec<Vec<BlockId>>) -> (r: Vec<Var>)
    requires
        ctrl.len() == body.blocks.len(),
        forall|k: int| 0 <= k < ctrl.len() ==> (#[trigger] ctrl@[k])@ == controllers_upto(*body, body.blocks.len() as int, body.blocks@[k].id),
    ensures
        least_taint(*body, params@, name_set(r@)),
{
    let ghost univ = names(params@) + binding_names(body.blocks@);
    let mut tainted: Vec<Var> = Vec::new();
    let mut p: usize = 0;
    while p < params.len()
        invariant
            p <= params.len(),
            forall|x: Seq<char>| #[trigger] name_set(tainted@).contains(x) <==> exists|q: int| 0 <= q < p && params@[q]@ == x,
            texts(tainted@).no_duplicates(),
        decreases params.len() - p,
    {
        let ghost t0 = tainted@;
        if !has_name(&tainted, &params[p]) {
            tainted.push(params[p].clone());
            proof {
                lemma_texts_names(t0);
                assert(texts(tainted@) =~= texts(t0).push(params@[p as int]@));
            }
        }
        proof {
            assert forall|x: Seq<char>| #[trigger] name_set(tainted@).contains(x) <==> exists|q: int| 0 <= q < p + 1 && params@[q]@ == x by {
                if name_set(tainted@).contains(x) {
                    let q = choose|q: int| 0 <= q < tainted@.len() && #[trigger] tainted@[q]@ == x;
                    if q < t0.len() {
                        assert(t0[q]@ == x);
                        assert(name_set(t0).contains(x));
                    }
                }
                if exists|q: int| 0 <= q < p + 1 && params@[q]@ == x {
                    let q = choose|q: int| 0 <= q < p + 1 && params@[q]@ == x;
                    if q < p {
                        assert(name_set(t0).contains(x));
                        let w = choose|w: int| 0 <= w < t0.len() && #[trigger] t0[w]@ == x;
                        assert(tainted@[w] == t0[w]);
                    } else if name_set(t0).contains(x) {
                        let w = choose|w: int| 0 <= w < t0.len() && #[trigger] t0[w]@ == x;
                        assert(tainted@[w] == t0[w]);
                    } else {
                        assert(tainted@.last()@ == x);
                    }
                }
            }
        }
        p = p + 1;
    }
    proof {
        assert forall|q: int| 0 <= q < tainted.len() implies univ.contains(#[trigger] texts(tainted@)[q]) by {
            let x = texts(tainted@)[q];
            assert(tainted@[q]@ == x);
            assert(name_set(tainted@).contains(x));
            let w = choose|w: int| 0 <= w < p && params@[w]@ == x;
            assert(univ[w] == x);
        }
    }
    loop
        invariant
            ctrl.len() == body.blocks.len(),
            forall|k: int| 0 <= k < ctrl.len() ==> (#[trigger] ctrl@[k])@ == controllers_upto(*body, body.blocks.len() as int, body.blocks@[k].id),
            univ == names(params@) + binding_names(body.blocks@),
            forall|q: int| 0 <= q < params.len() ==> name_set(tainted@).contains(#[trigger] params@[q]@),
            forall|u: Set<Seq<char>>| #[trigger] taint_closed(*body, params@, u) ==> name_set(tainted@).subset_of(u),
            texts(tainted@).no_duplicates(),
            forall|q: int| 0 <= q < tainted.len() ==> univ.contains(#[trigger] texts(tainted@)[q]),
        decreases univ.len() - tainted.len(),
    {
        proof {
            lemma_names_bound(texts(tainted@), univ);
        }
        let before = tainted.len();
        let ghost t0 = tainted@;
        let mut k: usize = 0;
        while k < body.blocks.len()
            invariant
                k <= body.blocks.len(),
                ctrl.len() == body.blocks.len(),
                forall|k: int| 0 <= k < ctrl.len() ==> (#[trigger] ctrl@[k])@ == controllers_upto(*body, body.blocks.len() as int, body.blocks@[k].id),
                univ == names(params@) + binding_names(body.blocks@),
                forall|q: int| 0 <= q < params.len() ==> name_set(tainted@).contains(#[trigger] params@[q]@),
                forall|u: Set<Seq<char>>| #[trigger] taint_closed(*body, params@, u) ==> name_set(tainted@).subset_of(u),
                texts(tainted@).no_duplicates(),
                forall|q: int| 0 <= q < tainted.len() ==> univ.contains(#[trigger] texts(tainted@)[q]),
                tainted.len() >= before,
                tainted.len() == before ==> tainted@ == t0,
                tainted.len() == before ==> forall|i: int, j: int|
                    0 <= i < k && 0 <= j < body.blocks@[i].stmts.len() ==> match bound_by(#[trigger] body.blocks@[i].stmts@[j]) {
                        Some((v, rhs)) => (behind(*body, body.blocks@[i].id, name_set(t0)) || uses_any(rhs, name_set(t0))) ==> name_set(t0).contains(v),
                        None => true,
                    },
            decreases body.blocks.len() - k,
        {
            let under = is_behind(body, &ctrl[k], &tainted, Ghost(body.blocks@[k as int].id));
            let ghost tb = name_set(tainted@);
            let b = &body.blocks[k];
            let mut j: usize = 0;
            while j < b.stmts.len()
                invariant
                    j <= b.stmts.len(),
                    k < body.blocks.len(),
                    b == body.blocks@[k as int],
                    univ == names(params@) + binding_names(body.blocks@),
                    under == behind(*body, b.id, tb),
                    forall|u: Set<Seq<char>>| #[trigger] taint_closed(*body, params@, u) ==> tb.subset_of(u),
                    tb.subset_of(name_set(tainted@)),
                    forall|q: int| 0 <= q < params.len() ==> name_set(tainted@).contains(#[trigger] params@[q]@),
                    forall|u: Set<Seq<char>>| #[trigger] taint_closed(*body, params@, u) ==> name_set(tainted@).subset_of(u),
                    texts(tainted@).no_duplicates(),
                    forall|q: int| 0 <= q < tainted.len() ==> univ.contains(#[trigger] texts(tainted@)[q]),
                    tainted.len() >= before,
                    tainted.len() == before ==> tainted@ == t0,
                    tainted.len() == before ==> forall|i: int, jj: int|
                        0 <= i < k && 0 <= jj < body.blocks@[i].stmts.len() ==> match bound_by(#[trigger] body.blocks@[i].stmts@[jj]) {
                            Some((v, rhs)) => (behind(*body, body.blocks@[i].id, name_set(t0)) || uses_any(rhs, name_set(t0))) ==> name_set(t0).contains(v),
                            None => true,
                        },
                    tainted.len() == before ==> tb == name_set(t0),
                    tainted.len() == before ==> forall|jj: int|
                        0 <= jj < j ==> stmt_ok(*body, #[trigger] b.stmts@[jj], b.id, name_set(t0)),
                decreases b.stmts.len() - j,
            {
                let (var, rhs) = match &b.stmts[j] {
                    Stmt::Let { var, rhs, .. } => (Some(var), Some(rhs)),
                    Stmt::Assign { var, rhs, .. } => (Some(var), Some(rhs)),
                    _ => (None, None),
                };
                match (var, rhs) {
                    (Some(var), Some(rhs)) => {
                        let hit = under || reads_any(rhs, &tainted);
                        let known = has_name(&tainted, var);
                        proof {
                            assert(bound_by(b.stmts@[j as int]) == Some((var@, *rhs)));
                            if tainted.len() == before {
                                assert(tainted@ == t0);
                                assert(stmt_ok(*body, b.stmts@[j as int], b.id, name_set(t0)) || (hit && !known));
                            }
                        }
                        if hit && !known {
                            proof {
                                let ghost tn = name_set(tainted@);
                                assert(b.stmts@[j as int] == body.blocks@[k as int].stmts@[j as int]);
                                assert(bound_by(body.blocks@[k as int].stmts@[j as int]) == Some((var@, *rhs)));
                                lemma_texts_names(tainted@);
                                assert forall|u: Set<Seq<char>>| #[trigger] taint_closed(*body, params@, u) implies u.contains(var@) by {
                                    assert(tn.subset_of(u));
                                    if under {
                                        lemma_behind_mono(*body, b.id, tb, u);
                                    } else {
                                        let v = choose|v: Seq<char>| #[trigger] tn.contains(v) && reads_expr(*rhs, v);
                                        assert(u.contains(v));
                                        assert(uses_any(*rhs, u));
                                    }
                                    assert(bound_by(body.blocks@[k as int].stmts@[j as int]) == Some((var@, *rhs)));
                                    assert(behind(*body, b.id, u) || uses_any(*rhs, u));
                                }
                                lemma_binding_names(body.blocks@, k as int, j as int);
                                assert(bound_name_of(body.blocks@[k as int].stmts@[j as int]) == var@);
                                let w = choose|w: int| 0 <= w < binding_names(body.blocks@).len() && binding_names(body.blocks@)[w] == var@;
                                assert(univ[names(params@).len() + w] == var@);
                            }
                            let ghost tp = tainted@;
                            tainted.push(var.clone());
                            proof {
                                assert(texts(tainted@) =~= texts(tp).push(var@));
                                assert forall|x: Seq<char>| name_set(tp).contains(x) implies name_set(tainted@).contains(x) by {
                                    let w = choose|w: int| 0 <= w < tp.len() && #[trigger] tp[w]@ == x;
                                    assert(tainted@[w] == tp[w]);
                                }
                                assert forall|u: Set<Seq<char>>| #[trigger] taint_closed(*body, params@, u) implies name_set(tainted@).subset_of(u) by {
                                    assert forall|x: Seq<char>| name_set(tainted@).contains(x) implies u.contains(x) by {
                                        let q = choose|q: int| 0 <= q < tainted@.len() && #[trigger] tainted@[q]@ == x;
                                        if q < tp.len() {
                                            assert(tp[q]@ == x);
                                            assert(name_set(tp).contains(x));
                                            assert(name_set(tp).subset_of(u));
                                        }
                                    }
                                }
                                assert forall|q: int| 0 <= q < params.len() implies name_set(tainted@).contains(#[trigger] params@[q]@) by {
                                    assert(name_set(tp).contains(params@[q]@));
                                }
                            }
                        }
                    },
                    _ => {
                        assert(bound_by(b.stmts@[j as int]) is None);
                        assert(stmt_ok(*body, b.stmts@[j as int], b.id, name_set(t0)));
                    },
                }
                proof {
                    if tainted.len() == before {
                        assert forall|jj: int| 0 <= jj < j + 1 implies stmt_ok(*body, #[trigger] b.stmts@[jj], b.id, name_set(t0)) by {
                        }
                    }
                }
                j = j + 1;
            }
            proof {
                if tainted.len() == before {
                    assert forall|i: int, jj: int|
                        0 <= i < k + 1 && 0 <= jj < body.blocks@[i].stmts.len() implies match bound_by(#[trigger] body.blocks@[i].stmts@[jj]) {
                        Some((v, rhs)) => (behind(*body, body.blocks@[i].id, name_set(t0)) || uses_any(rhs, name_set(t0))) ==> name_set(t0).contains(v),
                        None => true,
                    } by {
                        if i == k {
                            assert(stmt_ok(*body, b.stmts@[jj], b.id, name_set(t0)));
                        }
                    }
                }
            }
            k = k + 1;
        }
        if tainted.len() == before {
            proof {
                assert(taint_closed(*body, params@, name_set(tainted@)));
            }
            return tainted;
        }
        proof {
            lemma_names_bound(texts(tainted@), univ);
        }
    }
}

/// The names of `gated`, each once, that `open` and `params` do not name and
/// `free` does.
fn keep_gated(gated: &Vec<Var>, open: &Vec<Var>, free: &Vec<Var>, params: &Vec<Var>) -> (r: Vec<Var>)
    ensures
        forall|x: Seq<char>| #[trigger] name_set(r@).contains(x) <==> name_set(gated@).contains(x)
            && !name_set(open@).contains(x) && name_set(free@).contains(x) && !name_set(params@).contains(x),
        texts(r@).no_duplicates(),
{
    let mut r: Vec<Var> = Vec::new();
    let mut g: usize = 0;
    while g < gated.len()
        invariant
            g <= gated.len(),
            forall|x: Seq<char>| #[trigger] name_set(r@).contains(x) <==> (exists|q: int| 0 <= q < g && #[trigger] gated@[q]@ == x)
                && !name_set(open@).contains(x) && name_set(free@).contains(x) && !name_set(params@).contains(x),
            texts(r@).no_duplicates(),
        decreases gated.len() - g,
    {
        let v = &gated[g];
        let ghost r0 = r@;
        let c1 = has_name(open, v);
        let c2 = has_name(free, v);
        let c3 = has_name(params, v);
        let c4 = has_name(&r, v);
        if !c1 && c2 && !c3 && !c4 {
            r.push(v.clone());
            proof {
                lemma_texts_names(r0);
                assert(texts(r@) =~= texts(r0).push(v@));
            }
        }
        proof {
            assert forall|x: Seq<char>| #[trigger] name_set(r@).contains(x) <==> (exists|q: int| 0 <= q < g + 1 && #[trigger] gated@[q]@ == x)
                && !name_set(open@).contains(x) && name_set(free@).contains(x) && !name_set(params@).contains(x) by {
                assert(gated@[g as int]@ == v@);
                if name_set(r0).contains(x) {
                    let w = choose|w: int| 0 <= w < r0.len() && #[trigger] r0[w]@ == x;
                    assert(r@[w] == r0[w]);
                }
                if name_set(r@).contains(x) && !name_set(r0).contains(x) {
                    let w = choose|w: int| 0 <= w < r@.len() && #[trigger] r@[w]@ == x;
                    if w < r0.len() {
                        assert(r@[w] == r0[w]);
                    }
                    assert(x == v@);
                }
                if (exists|q: int| 0 <= q < g + 1 && #[trigger] gated@[q]@ == x) && !(exists|q: int| 0 <= q < g && #[trigger] gated@[q]@ == x) {
                    let q = choose|q: int| 0 <= q < g + 1 && #[trigger] gated@[q]@ == x;
                    assert(q == g);
                    assert(x == v@);
                    if !name_set(r0).contains(x) && !c1 && c2 && !c3 {
                        assert(r@.last()@ == x);
                        assert(r@[r@.len() - 1]@ == x);
                    }
                }
            }
        }
        g = g + 1;
    }
    r
}

/// The free variables a function body reaches only behind a test of its own
/// parameters (`e => { if (e.key !== "Enter") return; submit(v) }` gives
/// `submit`): read in blocks that a branch testing what the parameters flow
/// into controls, and in no other block; each once.
#[verifier::rlimit(40)]
pub fn param_gated_vars(params: &Vec<Var>, body: &CFG) -> (r: Vec<Var>)
    ensures
        exists|t: Set<Seq<char>>|
            least_taint(*body, params@, t) && forall|x: Seq<char>| #[trigger] name_set(r@).contains(x) <==> gated_only(*body, t, params@, x),
        texts(r@).no_duplicates(),
{
    let ctrl = controlling_branches(body);
    let tainted = param_taint(params, body, &ctrl);
    let ghost t = name_set(tainted@);
    let mut gated: Vec<Var> = Vec::new();
    let mut open: Vec<Var> = Vec::new();
    let mut k: usize = 0;
    while k < body.blocks.len()
        invariant
            k <= body.blocks.len(),
            ctrl.len() == body.blocks.len(),
            t == name_set(tainted@),
            forall|k: int| 0 <= k < ctrl.len() ==> (#[trigger] ctrl@[k])@ == controllers_upto(*body, body.blocks.len() as int, body.blocks@[k].id),
            forall|x: Seq<char>| #[trigger] name_set(gated@).contains(x) <==> exists|q: int|
                0 <= q < k && behind(*body, body.blocks@[q].id, t) && reads_block(#[trigger] body.blocks@[q], x),
            forall|x: Seq<char>| #[trigger] name_set(open@).contains(x) <==> exists|q: int|
                0 <= q < k && !behind(*body, body.blocks@[q].id, t) && reads_block(#[trigger] body.blocks@[q], x),
        decreases body.blocks.len() - k,
    {
        let under = is_behind(body, &ctrl[k], &tainted, Ghost(body.blocks@[k as int].id));
        if under {
            collect_vars_block(&body.blocks[k], &mut gated);
        } else {
            collect_vars_block(&body.blocks[k], &mut open);
        }
        k = k + 1;
    }
    let free = compute_free_vars(body);
    let r = keep_gated(&gated, &open, &free, params);
    proof {
        assert forall|x: Seq<char>| #[trigger] name_set(r@).contains(x) <==> gated_only(*body, t, params@, x) by {
        }
    }
    r
}

} // verus!
