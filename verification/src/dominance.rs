//! Dominators and reverse post-order over an IR CFG.
use std::collections::{HashMap, HashSet};

use vstd::prelude::*;

use crate::cfg::{
    count_outside, has_block, has_edge, is_path, lemma_closed_contains_reachable,
    lemma_count_outside_insert, lemma_path_extend, lemma_reaches_refl, lemma_sources_into,
    lemma_targets_from,
    reaches, sources_into, targets_from, Edge, CFG,
};
use crate::cfg::BasicBlock;
use crate::types::BlockId;

verus! {

broadcast use vstd::std_specs::hash::group_hash_axioms;

/// Superset shrinks [`count_outside`].
pub proof fn lemma_count_outside_mono(u: Seq<BlockId>, s1: Set<BlockId>, s2: Set<BlockId>)
    requires
        s1.subset_of(s2),
    ensures
        count_outside(u, s2) <= count_outside(u, s1),
    decreases u.len(),
{
    if u.len() > 0 {
        lemma_count_outside_mono(u.drop_last(), s1, s2);
    }
}

/// `s` holds no element twice.
pub open spec fn no_dups(s: Seq<BlockId>) -> bool {
    forall|i: int, j: int| 0 <= i < j < s.len() ==> s[i] != s[j]
}

/// Every edge target lies in `u`.
pub open spec fn covers_targets(edges: Seq<Edge>, u: Seq<BlockId>) -> bool {
    forall|k: int| 0 <= k < edges.len() ==> u.contains(#[trigger] edges[k].to)
}

/// Depth-first walk from `node`, appending each block to `post_order` once
/// all its successors are done.
fn dfs_post(
    cfg: &CFG,
    node: BlockId,
    visited: &mut HashSet<BlockId>,
    post_order: &mut Vec<BlockId>,
    Ghost(u): Ghost<Seq<BlockId>>,
    Ghost(budget): Ghost<nat>,
)
    requires
        budget == count_outside(u, old(visited)@),
        u.contains(node),
        covers_targets(cfg.edges@, u),
        forall|x: BlockId| #[trigger] old(visited)@.contains(x) ==> u.contains(x),
    ensures
        old(visited)@.subset_of(final(visited)@),
        final(visited)@.contains(node),
        forall|x: BlockId| #[trigger] final(visited)@.contains(x) ==> u.contains(x),
        forall|x: BlockId|
            #[trigger] final(visited)@.contains(x) && !old(visited)@.contains(x) ==> reaches(
                cfg.edges@,
                node,
                x,
            ),
        forall|x: BlockId, y: BlockId|
            final(visited)@.contains(x) && !old(visited)@.contains(x) && has_edge(cfg.edges@, x, y)
                ==> final(visited)@.contains(y),
        final(post_order)@.len() >= old(post_order)@.len(),
        final(post_order)@.subrange(0, old(post_order)@.len() as int) == old(post_order)@,
        forall|i: int|
            old(post_order)@.len() <= i < final(post_order)@.len() ==> {
                &&& final(visited)@.contains(#[trigger] final(post_order)@[i])
                &&& !old(visited)@.contains(final(post_order)@[i])
            },
        forall|x: BlockId|
            #[trigger] final(visited)@.contains(x) && !old(visited)@.contains(x) ==> exists|i: int|
                old(post_order)@.len() <= i < final(post_order)@.len() && final(post_order)@[i]
                    == x,
        forall|i: int, j: int|
            old(post_order)@.len() <= i < j < final(post_order)@.len() ==> final(post_order)@[i]
                != final(post_order)@[j],
        !old(visited)@.contains(node) ==> final(post_order)@.len() > old(post_order)@.len()
            && final(post_order)@.last() == node,
    decreases budget,
{
    if visited.contains(&node) {
        assert(post_order@.subrange(0, post_order@.len() as int) =~= post_order@);
        return;
    }
    let ghost v0 = visited@;
    let ghost p0 = post_order@;
    visited.insert(node);
    proof {
        lemma_count_outside_insert(u, v0, node);
        lemma_reaches_refl(cfg.edges@, node);
    }
    let succ = cfg.successors(node);
    proof {
        lemma_targets_from(cfg.edges@, node);
    }
    let mut k: usize = 0;
    while k < succ.len()
        invariant
            u.contains(node),
            covers_targets(cfg.edges@, u),
            succ@ == targets_from(cfg.edges@, node),
            forall|x: BlockId| targets_from(cfg.edges@, node).contains(x) <==> has_edge(cfg.edges@, node, x),
            count_outside(u, v0.insert(node)) < count_outside(u, v0),
            budget == count_outside(u, v0),
            !v0.contains(node),
            0 <= k <= succ@.len(),
            v0.insert(node).subset_of(visited@),
            forall|x: BlockId| #[trigger] visited@.contains(x) ==> u.contains(x),
            forall|x: BlockId|
                #[trigger] visited@.contains(x) && !v0.contains(x) ==> reaches(cfg.edges@, node, x),
            forall|x: BlockId, y: BlockId|
                visited@.contains(x) && !v0.contains(x) && x != node && has_edge(cfg.edges@, x, y)
                    ==> visited@.contains(y),
            forall|j: int| 0 <= j < k ==> visited@.contains(#[trigger] succ@[j]),
            post_order@.len() >= p0.len(),
            post_order@.subrange(0, p0.len() as int) == p0,
            forall|i: int|
                p0.len() <= i < post_order@.len() ==> {
                    &&& visited@.contains(#[trigger] post_order@[i])
                    &&& !v0.contains(post_order@[i])
                    &&& post_order@[i] != node
                },
            forall|x: BlockId|
                #[trigger] visited@.contains(x) && !v0.contains(x) && x != node ==> exists|i: int|
                    p0.len() <= i < post_order@.len() && post_order@[i] == x,
            forall|i: int, j: int|
                p0.len() <= i < j < post_order@.len() ==> post_order@[i] != post_order@[j],
        decreases succ@.len() - k,
    {
        let s = succ[k];
        proof {
            assert(succ@.contains(s));
            assert(has_edge(cfg.edges@, node, s));
            let kk = choose|kk: int|
                0 <= kk < cfg.edges@.len() && #[trigger] cfg.edges@[kk].from == node
                    && cfg.edges@[kk].to == s;
            assert(u.contains(cfg.edges@[kk].to));
            lemma_count_outside_mono(u, v0.insert(node), visited@);
            assert(count_outside(u, visited@) < count_outside(u, v0));
        }
        let ghost v1 = visited@;
        let ghost p1 = post_order@;
        dfs_post(cfg, s, visited, post_order, Ghost(u), Ghost(count_outside(u, visited@)));
        proof {
            assert(has_edge(cfg.edges@, node, s));
            assert forall|x: BlockId|
                #[trigger] visited@.contains(x) && !v0.contains(x) implies reaches(
                cfg.edges@,
                node,
                x,
            ) by {
                if !v1.contains(x) {
                    lemma_reaches_trans_edge(cfg.edges@, node, s, x);
                }
            }
            assert forall|i: int|
                p0.len() <= i < post_order@.len() implies {
                &&& visited@.contains(#[trigger] post_order@[i])
                &&& !v0.contains(post_order@[i])
                &&& post_order@[i] != node
            } by {
                if i < p1.len() {
                    assert(post_order@.subrange(0, p1.len() as int)[i] == p1[i]);
                }
            }
            assert(post_order@.subrange(0, p0.len() as int) =~= p1.subrange(0, p0.len() as int));
            assert forall|x: BlockId|
                #[trigger] visited@.contains(x) && !v0.contains(x) && x != node implies exists|i: int|
                p0.len() <= i < post_order@.len() && post_order@[i] == x by {
                if v1.contains(x) {
                    let i = choose|i: int| p0.len() <= i < p1.len() && p1[i] == x;
                    assert(post_order@.subrange(0, p1.len() as int)[i] == p1[i]);
                }
            }
            assert forall|i: int, j: int|
                p0.len() <= i < j < post_order@.len() implies post_order@[i] != post_order@[j] by {
                if j < p1.len() {
                    assert(post_order@.subrange(0, p1.len() as int)[i] == p1[i]);
                    assert(post_order@.subrange(0, p1.len() as int)[j] == p1[j]);
                } else if i < p1.len() {
                    assert(post_order@.subrange(0, p1.len() as int)[i] == p1[i]);
                    assert(v1.contains(p1[i]));
                }
            }
            assert forall|j: int| 0 <= j < k + 1 implies visited@.contains(#[trigger] succ@[j]) by {
                if j < k {
                    assert(v1.contains(succ@[j]));
                }
            }
        }
        k = k + 1;
    }
    let ghost p2 = post_order@;
    post_order.push(node);
    proof {
        assert(post_order@.subrange(0, p0.len() as int) =~= p2.subrange(0, p0.len() as int));
        assert forall|x: BlockId, y: BlockId|
            visited@.contains(x) && !v0.contains(x) && has_edge(cfg.edges@, x, y) implies visited@.contains(
            y,
        ) by {
            if x == node {
                assert(succ@.contains(y));
                let j = choose|j: int| 0 <= j < succ@.len() && succ@[j] == y;
            }
        }
        assert forall|x: BlockId|
            #[trigger] visited@.contains(x) && !v0.contains(x) implies exists|i: int|
            p0.len() <= i < post_order@.len() && post_order@[i] == x by {
            if x == node {
                assert(post_order@[post_order@.len() - 1] == node);
            } else {
                let i = choose|i: int| p0.len() <= i < p2.len() && p2[i] == x;
                assert(post_order@[i] == x);
            }
        }
        assert forall|i: int|
            p0.len() <= i < post_order@.len() implies {
            &&& visited@.contains(#[trigger] post_order@[i])
            &&& !v0.contains(post_order@[i])
        } by {
            if i < p2.len() {
                assert(post_order@[i] == p2[i]);
            }
        }
    }
}

/// Reachability through a first edge.
pub proof fn lemma_reaches_trans_edge(edges: Seq<Edge>, a: BlockId, b: BlockId, c: BlockId)
    requires
        has_edge(edges, a, b),
        reaches(edges, b, c),
    ensures
        reaches(edges, a, c),
{
    let p = choose|p: Seq<BlockId>| #[trigger] is_path(edges, p) && p[0] == b && p.last() == c;
    let q = seq![a] + p;
    assert forall|i: int| 0 <= i < q.len() - 1 implies has_edge(edges, #[trigger] q[i], q[i + 1]) by {
        if i == 0 {
            assert(q[1] == p[0]);
        } else {
            assert(q[i] == p[i - 1] && q[i + 1] == p[i]);
        }
    }
    assert(is_path(edges, q));
    assert(q.last() == p.last());
}

/// Reverse post-order of a depth-first walk from [`CFG::entry`]: every
/// block reachable from the entry exactly once, the entry first.
pub fn rpo(cfg: &CFG) -> (r: Vec<BlockId>)
    ensures
        r@.len() >= 1,
        r@[0] == cfg.entry,
        no_dups(r@),
        forall|n: BlockId| r@.contains(n) <==> reaches(cfg.edges@, cfg.entry, n),
{
    let ghost u: Seq<BlockId> = seq![cfg.entry] + cfg.edges@.map_values(|e: Edge| e.to);
    proof {
        assert(u[0] == cfg.entry);
        assert forall|k: int| 0 <= k < cfg.edges@.len() implies u.contains(
            #[trigger] cfg.edges@[k].to,
        ) by {
            assert(u[k + 1] == cfg.edges@[k].to);
        }
    }
    let mut visited: HashSet<BlockId> = HashSet::new();
    let mut post_order: Vec<BlockId> = Vec::new();
    dfs_post(
        cfg,
        cfg.entry,
        &mut visited,
        &mut post_order,
        Ghost(u),
        Ghost(count_outside(u, Set::empty())),
    );
    proof {
        lemma_reaches_refl(cfg.edges@, cfg.entry);
        assert forall|n: BlockId| reaches(cfg.edges@, cfg.entry, n) implies visited@.contains(n) by {
            lemma_closed_contains_reachable(cfg.edges@, visited@, cfg.entry, n);
        }
        assert(post_order@.subrange(0, 0) =~= Seq::<BlockId>::empty());
    }
    // Reverse into a fresh vector.
    let n = post_order.len();
    let mut r: Vec<BlockId> = Vec::new();
    let mut i: usize = n;
    while i > 0
        invariant
            n == post_order@.len(),
            0 <= i <= n,
            r@.len() == n - i,
            forall|j: int| 0 <= j < n - i ==> r@[j] == post_order@[n - 1 - j],
        decreases i,
    {
        i = i - 1;
        r.push(post_order[i]);
    }
    proof {
        assert forall|a: int, b: int| 0 <= a < b < r@.len() implies r@[a] != r@[b] by {
            assert(r@[a] == post_order@[n - 1 - a]);
            assert(r@[b] == post_order@[n - 1 - b]);
        }
        assert forall|x: BlockId| r@.contains(x) <==> reaches(cfg.edges@, cfg.entry, x) by {
            if r@.contains(x) {
                let j = choose|j: int| 0 <= j < r@.len() && r@[j] == x;
                assert(post_order@[n - 1 - j] == x);
                assert(visited@.contains(x));
            }
            if reaches(cfg.edges@, cfg.entry, x) {
                assert(visited@.contains(x));
                let i0 = choose|i0: int| 0 <= i0 < post_order@.len() && post_order@[i0] == x;
                assert(r@[n - 1 - i0] == x);
            }
        }
    }
    r
}


// ── Dominators ────────────────────────────────────────────────────────────────

/// `a` lies on every path from `entry` to `b`: `a` dominates `b`.
pub open spec fn on_every_path(edges: Seq<Edge>, entry: BlockId, a: BlockId, b: BlockId) -> bool {
    forall|p: Seq<BlockId>|
        #[trigger] is_path(edges, p) && p[0] == entry && p.last() == b ==> p.contains(a)
}

/// The ids of a CFG's blocks, in block order.
pub open spec fn ids_of(blocks: Seq<BasicBlock>) -> Seq<BlockId> {
    blocks.map_values(|b: BasicBlock| b.id)
}

/// The inputs [`compute_dominators`] handles: blocks in id order, and every
/// block the entry reaches (the entry included) present.
pub open spec fn dominators_defined(cfg: CFG) -> bool {
    &&& cfg.blocks_wf()
    &&& forall|n: BlockId| #[trigger] reaches(cfg.edges@, cfg.entry, n) ==> has_block(cfg.blocks@, n)
}

/// What `compute_dominators` maps block `b` to, as a membership test: for a
/// block the entry reaches, the blocks on every path to it; for any other
/// block, every block.
pub open spec fn dominator_of(cfg: CFG, b: BlockId, a: BlockId) -> bool {
    if reaches(cfg.edges@, cfg.entry, b) {
        on_every_path(cfg.edges@, cfg.entry, a, b)
    } else {
        has_block(cfg.blocks@, a)
    }
}

/// Position of `x` in `ids`.
spec fn idx(ids: Seq<BlockId>, x: BlockId) -> int {
    choose|i: int| 0 <= i < ids.len() && ids[i] == x
}

/// `p` is a predecessor of `b` that is a block.
spec fn pred_in(edges: Seq<Edge>, ids: Seq<BlockId>, b: BlockId, p: BlockId) -> bool {
    has_edge(edges, p, b) && ids.contains(p)
}

/// Bit `j` is set in the row of every block predecessor of `b`.
spec fn meet_bit(edges: Seq<Edge>, ids: Seq<BlockId>, rows: Seq<Vec<bool>>, b: BlockId, j: int) -> bool {
    forall|p: BlockId| #[trigger] pred_in(edges, ids, b, p) ==> rows[idx(ids, p)]@[j]
}

/// `b` has a predecessor that is a block.
spec fn has_pred_in(edges: Seq<Edge>, ids: Seq<BlockId>, b: BlockId) -> bool {
    exists|p: BlockId| #[trigger] pred_in(edges, ids, b, p)
}

/// The dominator equation at row `i`, bit `j`: `{b} ∪ ⋂ dom(preds)`.
spec fn fbit(edges: Seq<Edge>, ids: Seq<BlockId>, rows: Seq<Vec<bool>>, i: int, j: int) -> bool {
    j == i || (has_pred_in(edges, ids, ids[i]) && meet_bit(edges, ids, rows, ids[i], j))
}

/// Number of set bits.
spec fn popcount(r: Seq<bool>) -> nat
    decreases r.len(),
{
    if r.len() == 0 {
        0
    } else {
        popcount(r.drop_last()) + if r.last() {
            1nat
        } else {
            0nat
        }
    }
}

/// Total set bits over all rows.
spec fn total(rows: Seq<Vec<bool>>) -> nat
    decreases rows.len(),
{
    if rows.len() == 0 {
        0
    } else {
        total(rows.drop_last()) + popcount(rows.last()@)
    }
}

proof fn lemma_popcount_subset(a: Seq<bool>, b: Seq<bool>)
    requires
        a.len() == b.len(),
        forall|j: int| 0 <= j < a.len() && a[j] ==> b[j],
    ensures
        popcount(a) <= popcount(b),
        (exists|j: int| 0 <= j < a.len() && b[j] && !a[j]) ==> popcount(a) < popcount(b),
    decreases a.len(),
{
    if a.len() > 0 {
        lemma_popcount_subset(a.drop_last(), b.drop_last());
        if exists|j: int| 0 <= j < a.len() && b[j] && !a[j] {
            let j = choose|j: int| 0 <= j < a.len() && b[j] && !a[j];
            if j < a.len() - 1 {
                assert(b.drop_last()[j] && !a.drop_last()[j]);
            }
        }
    }
}

proof fn lemma_total_update(rows: Seq<Vec<bool>>, i: int, r: Vec<bool>)
    requires
        0 <= i < rows.len(),
    ensures
        total(rows.update(i, r)) + popcount(rows[i]@) == total(rows) + popcount(r@),
    decreases rows.len(),
{
    let u = rows.update(i, r);
    if i < rows.len() - 1 {
        lemma_total_update(rows.drop_last(), i, r);
        assert(u.drop_last() =~= rows.drop_last().update(i, r));
    } else {
        assert(u.drop_last() =~= rows.drop_last());
    }
}

/// A block reached from the entry, other than the entry, has a reached
/// predecessor.
proof fn lemma_reached_has_pred(edges: Seq<Edge>, entry: BlockId, b: BlockId)
    requires
        reaches(edges, entry, b),
        b != entry,
    ensures
        exists|p: BlockId| has_edge(edges, p, b) && reaches(edges, entry, p),
{
    let q = choose|q: Seq<BlockId>| #[trigger] is_path(edges, q) && q[0] == entry && q.last() == b;
    assert(q.len() >= 2);
    let pre = q.drop_last();
    assert(is_path(edges, pre)) by {
        assert forall|i: int| 0 <= i < pre.len() - 1 implies has_edge(
            edges,
            #[trigger] pre[i],
            pre[i + 1],
        ) by {
            assert(pre[i] == q[i] && pre[i + 1] == q[i + 1]);
        }
    }
    assert(has_edge(edges, q[q.len() - 2], q[q.len() - 1]));
    assert(reaches(edges, entry, pre.last()));
}

/// A prefix of a path from the entry reaches its last block.
proof fn lemma_path_prefix_reaches(edges: Seq<Edge>, q: Seq<BlockId>, k: int)
    requires
        is_path(edges, q),
        0 <= k < q.len(),
    ensures
        is_path(edges, q.subrange(0, k + 1)),
        reaches(edges, q[0], q[k]),
{
    let pre = q.subrange(0, k + 1);
    assert forall|i: int| 0 <= i < pre.len() - 1 implies has_edge(edges, #[trigger] pre[i], pre[i + 1]) by {
        assert(pre[i] == q[i] && pre[i + 1] == q[i + 1]);
    }
    assert(pre[0] == q[0] && pre.last() == q[k]);
}

/// `ids` lists distinct blocks.
spec fn distinct(ids: Seq<BlockId>) -> bool {
    forall|i: int, j: int| 0 <= i < ids.len() && 0 <= j < ids.len() && i != j ==> ids[i] != ids[j]
}

/// The row invariants of the iteration: shape, the entry row, untouched
/// rows, the greatest-fixpoint bound, and the descent invariant.
spec fn rows_inv(
    edges: Seq<Edge>,
    entry: BlockId,
    ids: Seq<BlockId>,
    e: int,
    rows: Seq<Vec<bool>>,
) -> bool {
    &&& rows.len() == ids.len()
    &&& 0 <= e < ids.len()
    &&& ids[e] == entry
    &&& forall|i: int| 0 <= i < rows.len() ==> (#[trigger] rows[i])@.len() == ids.len()
    &&& forall|j: int| 0 <= j < ids.len() ==> (rows[e]@[j] <==> j == e)
    &&& forall|i: int, j: int|
        0 <= i < ids.len() && 0 <= j < ids.len() && i != e && !reaches(edges, entry, ids[i])
            ==> #[trigger] rows[i]@[j]
    &&& forall|i: int, j: int|
        0 <= i < ids.len() && 0 <= j < ids.len() && reaches(edges, entry, ids[i])
            && on_every_path(edges, entry, ids[j], ids[i]) ==> #[trigger] rows[i]@[j]
    &&& forall|i: int, j: int|
        0 <= i < ids.len() && 0 <= j < ids.len() && i != e && reaches(edges, entry, ids[i])
            && fbit(edges, ids, rows, i, j) ==> #[trigger] rows[i]@[j]
}

/// Position of `x` in `ids`, if it is there.
fn find_index(ids: &Vec<BlockId>, x: BlockId) -> (r: Option<usize>)
    requires
        distinct(ids@),
    ensures
        r is None <==> !ids@.contains(x),
        r matches Some(i) ==> i < ids@.len() && ids@[i as int] == x && i == idx(ids@, x),
{
    let mut i: usize = 0;
    while i < ids.len()
        invariant
            distinct(ids@),
            0 <= i <= ids@.len(),
            forall|k: int| 0 <= k < i ==> ids@[k] != x,
        decreases ids@.len() - i,
    {
        if ids[i] == x {
            proof {
                let c = idx(ids@, x);
                assert(ids@[c] == x);
            }
            return Some(i);
        }
        i = i + 1;
    }
    None
}

/// The row of `rows` selected by a predecessor fold step.
fn and_rows(a: &Vec<bool>, b: &Vec<bool>) -> (r: Vec<bool>)
    requires
        a@.len() == b@.len(),
    ensures
        r@.len() == a@.len(),
        forall|j: int| 0 <= j < r@.len() ==> (r@[j] <==> a@[j] && b@[j]),
{
    let mut r: Vec<bool> = Vec::new();
    let mut j: usize = 0;
    while j < a.len()
        invariant
            a@.len() == b@.len(),
            0 <= j <= a@.len(),
            r@.len() == j,
            forall|k: int| 0 <= k < j ==> (r@[k] <==> a@[k] && b@[k]),
        decreases a@.len() - j,
    {
        r.push(a[j] && b[j]);
        j = j + 1;
    }
    r
}

/// A copy of a row.
fn copy_row(a: &Vec<bool>) -> (r: Vec<bool>)
    ensures
        r@ == a@,
{
    let mut r: Vec<bool> = Vec::new();
    let mut j: usize = 0;
    while j < a.len()
        invariant
            0 <= j <= a@.len(),
            r@ == a@.subrange(0, j as int),
        decreases a@.len() - j,
    {
        r.push(a[j]);
        j = j + 1;
        assert(r@ =~= a@.subrange(0, j as int));
    }
    assert(a@.subrange(0, a@.len() as int) =~= a@);
    r
}

/// A row of `n` copies of `v`.
fn filled_row(n: usize, v: bool) -> (r: Vec<bool>)
    ensures
        r@.len() == n,
        forall|j: int| 0 <= j < n ==> r@[j] == v,
{
    let mut r: Vec<bool> = Vec::new();
    let mut j: usize = 0;
    while j < n
        invariant
            0 <= j <= n,
            r@.len() == j,
            forall|k: int| 0 <= k < j ==> r@[k] == v,
        decreases n - j,
    {
        r.push(v);
        j = j + 1;
    }
    r
}

/// `true` iff the two rows are equal.
fn rows_equal(a: &Vec<bool>, b: &Vec<bool>) -> (r: bool)
    requires
        a@.len() == b@.len(),
    ensures
        r <==> a@ == b@,
{
    let mut j: usize = 0;
    while j < a.len()
        invariant
            a@.len() == b@.len(),
            0 <= j <= a@.len(),
            forall|k: int| 0 <= k < j ==> a@[k] == b@[k],
        decreases a@.len() - j,
    {
        if a[j] != b[j] {
            return false;
        }
        j = j + 1;
    }
    assert(a@ =~= b@);
    true
}

/// The right-hand side of the dominator equation for row `bi`:
/// `{b} ∪ ⋂ dom(p)` over the predecessors `p` of `b` that are blocks.
fn equation_row(
    cfg: &CFG,
    ids: &Vec<BlockId>,
    rows: &Vec<Vec<bool>>,
    bi: usize,
) -> (r: Vec<bool>)
    requires
        distinct(ids@),
        bi < ids@.len(),
        rows@.len() == ids@.len(),
        forall|i: int| 0 <= i < rows@.len() ==> (#[trigger] rows@[i])@.len() == ids@.len(),
    ensures
        r@.len() == ids@.len(),
        forall|j: int| 0 <= j < ids@.len() ==> (r@[j] <==> fbit(cfg.edges@, ids@, rows@, bi as int, j)),
{
    let n = ids.len();
    let b = ids[bi];
    let preds = cfg.predecessors(b);
    proof {
        lemma_sources_into(cfg.edges@, b);
    }
    let mut acc: Option<Vec<bool>> = None;
    let mut q: usize = 0;
    while q < preds.len()
        invariant
            distinct(ids@),
            n == ids@.len(),
            b == ids@[bi as int],
            rows@.len() == ids@.len(),
            forall|i: int| 0 <= i < rows@.len() ==> (#[trigger] rows@[i])@.len() == ids@.len(),
            preds@ == sources_into(cfg.edges@, b),
            0 <= q <= preds@.len(),
            acc is None <==> forall|k: int| 0 <= k < q ==> !ids@.contains(#[trigger] preds@[k]),
            acc matches Some(a) ==> a@.len() == n && forall|j: int|
                0 <= j < n ==> (a@[j] <==> forall|k: int|
                    0 <= k < q && ids@.contains(#[trigger] preds@[k]) ==> rows@[idx(ids@, preds@[k])]@[j]),
        decreases preds@.len() - q,
    {
        let p = preds[q];
        match find_index(ids, p) {
            None => {},
            Some(pi) => {
                let next = match acc {
                    None => copy_row(&rows[pi]),
                    Some(a) => and_rows(&a, &rows[pi]),
                };
                acc = Some(next);
            },
        }
        q = q + 1;
    }
    let mut r = match acc {
        Some(a) => a,
        None => filled_row(n, false),
    };
    r.set(bi, true);
    proof {
        let edges = cfg.edges@;
        assert forall|j: int| 0 <= j < ids@.len() implies (r@[j] <==> fbit(
            edges,
            ids@,
            rows@,
            bi as int,
            j,
        )) by {
            let hp = has_pred_in(edges, ids@, b);
            let some_k = exists|k: int| 0 <= k < preds@.len() && ids@.contains(#[trigger] preds@[k]);
            if hp {
                let p = choose|p: BlockId| #[trigger] pred_in(edges, ids@, b, p);
                assert(preds@.contains(p));
                let k = choose|k: int| 0 <= k < preds@.len() && preds@[k] == p;
                assert(ids@.contains(preds@[k]));
            }
            if some_k {
                let k = choose|k: int| 0 <= k < preds@.len() && ids@.contains(#[trigger] preds@[k]);
                assert(preds@.contains(preds@[k]));
                assert(pred_in(edges, ids@, b, preds@[k]));
            }
            if j != bi && hp {
                let a = acc.unwrap();
                assert((forall|k: int|
                    0 <= k < preds@.len() && ids@.contains(#[trigger] preds@[k]) ==> rows@[idx(ids@, preds@[k])]@[j])
                    <==> meet_bit(edges, ids@, rows@, b, j)) by {
                    if meet_bit(edges, ids@, rows@, b, j) {
                        assert forall|k: int| 0 <= k < preds@.len() && ids@.contains(#[trigger] preds@[k]) implies rows@[idx(ids@, preds@[k])]@[j] by {
                            assert(preds@.contains(preds@[k]));
                            assert(pred_in(edges, ids@, b, preds@[k]));
                        }
                    }
                    if forall|k: int| 0 <= k < preds@.len() && ids@.contains(#[trigger] preds@[k]) ==> rows@[idx(ids@, preds@[k])]@[j] {
                        assert forall|p: BlockId| #[trigger] pred_in(edges, ids@, b, p) implies rows@[idx(ids@, p)]@[j] by {
                            assert(preds@.contains(p));
                            let k = choose|k: int| 0 <= k < preds@.len() && preds@[k] == p;
                            assert(ids@.contains(preds@[k]));
                        }
                    }
                }
            }
        }
    }
    r
}


/// `fbit` only grows with the rows.
proof fn lemma_fbit_mono(
    edges: Seq<Edge>,
    ids: Seq<BlockId>,
    ra: Seq<Vec<bool>>,
    rb: Seq<Vec<bool>>,
    i: int,
    j: int,
)
    requires
        ra.len() == rb.len(),
        forall|c: int| 0 <= c < ra.len() ==> (#[trigger] ra[c])@.len() == ids.len(),
        0 <= j < ids.len(),
        forall|c: int, k: int|
            0 <= c < ra.len() && 0 <= k < ids.len() && #[trigger] ra[c]@[k] ==> rb[c]@[k],
        forall|x: BlockId| ids.contains(x) ==> 0 <= #[trigger] idx(ids, x) < ra.len(),
        fbit(edges, ids, ra, i, j),
    ensures
        fbit(edges, ids, rb, i, j),
{
    if j != i {
        assert forall|p: BlockId| #[trigger] pred_in(edges, ids, ids[i], p) implies rb[idx(ids, p)]@[j] by {
            assert(ra[idx(ids, p)]@[j]);
        }
    }
}

/// Every block on a path from the entry is reached.
proof fn lemma_path_nodes_reached(edges: Seq<Edge>, q: Seq<BlockId>, k: int)
    requires
        is_path(edges, q),
        0 <= k < q.len(),
    ensures
        reaches(edges, q[0], q[k]),
{
    lemma_path_prefix_reaches(edges, q, k);
}

/// A dominator of a reached block is itself reached, hence a block.
proof fn lemma_dominator_is_block(cfg: CFG, a: BlockId, b: BlockId)
    requires
        dominators_defined(cfg),
        reaches(cfg.edges@, cfg.entry, b),
        on_every_path(cfg.edges@, cfg.entry, a, b),
    ensures
        has_block(cfg.blocks@, a),
{
    let q = choose|q: Seq<BlockId>|
        #[trigger] is_path(cfg.edges@, q) && q[0] == cfg.entry && q.last() == b;
    assert(q.contains(a));
    let k = choose|k: int| 0 <= k < q.len() && q[k] == a;
    lemma_path_nodes_reached(cfg.edges@, q, k);
}

/// The greatest-fixpoint bound survives one equation step.
proof fn lemma_equation_complete(
    cfg: CFG,
    ids: Seq<BlockId>,
    e: int,
    rows: Seq<Vec<bool>>,
    i: int,
    j: int,
)
    requires
        dominators_defined(cfg),
        ids == ids_of(cfg.blocks@),
        distinct(ids),
        rows_inv(cfg.edges@, cfg.entry, ids, e, rows),
        0 <= i < ids.len(),
        0 <= j < ids.len(),
        i != e,
        reaches(cfg.edges@, cfg.entry, ids[i]),
        on_every_path(cfg.edges@, cfg.entry, ids[j], ids[i]),
    ensures
        fbit(cfg.edges@, ids, rows, i, j),
{
    let edges = cfg.edges@;
    if j != i {
        lemma_reached_has_pred(edges, cfg.entry, ids[i]);
        let p0 = choose|p: BlockId| has_edge(edges, p, ids[i]) && reaches(edges, cfg.entry, p);
        assert(has_block(cfg.blocks@, p0));
        let bi = choose|bi: int| 0 <= bi < cfg.blocks@.len() && #[trigger] cfg.blocks@[bi].id == p0;
        assert(ids[bi] == p0);
        assert(pred_in(edges, ids, ids[i], p0));
        assert forall|p: BlockId| #[trigger] pred_in(edges, ids, ids[i], p) implies rows[idx(
            ids,
            p,
        )]@[j] by {
            let pi = idx(ids, p);
            assert(ids[pi] == p);
            if reaches(edges, cfg.entry, p) {
                assert forall|q: Seq<BlockId>|
                    #[trigger] is_path(edges, q) && q[0] == cfg.entry && q.last() == p implies q.contains(
                    ids[j],
                ) by {
                    lemma_path_extend(edges, q, ids[i]);
                    let q2 = q.push(ids[i]);
                    assert(q2.contains(ids[j]));
                    let k = choose|k: int| 0 <= k < q2.len() && q2[k] == ids[j];
                    assert(k < q.len());
                    assert(q[k] == ids[j]);
                }
            } else {
                lemma_reaches_refl(edges, cfg.entry);
                assert(pi != e);
            }
        }
    }
}

/// At a fixpoint of the equations, a set bit of a reached block's row is a
/// dominator: it lies on every path from the entry.
proof fn lemma_fixpoint_sound(
    cfg: CFG,
    ids: Seq<BlockId>,
    e: int,
    rows: Seq<Vec<bool>>,
    q: Seq<BlockId>,
    i: int,
    j: int,
)
    requires
        dominators_defined(cfg),
        ids == ids_of(cfg.blocks@),
        distinct(ids),
        rows_inv(cfg.edges@, cfg.entry, ids, e, rows),
        forall|c: int, k: int|
            0 <= c < ids.len() && 0 <= k < ids.len() && c != e && reaches(cfg.edges@, cfg.entry, ids[c])
                ==> (#[trigger] rows[c]@[k] <==> fbit(cfg.edges@, ids, rows, c, k)),
        is_path(cfg.edges@, q),
        q[0] == cfg.entry,
        0 <= i < ids.len(),
        0 <= j < ids.len(),
        q.last() == ids[i],
        rows[i]@[j],
    ensures
        q.contains(ids[j]),
    decreases q.len(),
{
    let edges = cfg.edges@;
    if ids[j] == q.last() {
        assert(q[q.len() - 1] == ids[j]);
    } else if i == e {
        assert(q[0] == ids[j]);
    } else {
        lemma_path_nodes_reached(edges, q, q.len() - 1);
        assert(fbit(edges, ids, rows, i, j));
        if q.len() == 1 {
            assert(ids[i] == cfg.entry);
            assert(ids[e] == cfg.entry);
        }
        assert(q.len() >= 2);
        let p = q[q.len() - 2];
        assert(has_edge(edges, p, ids[i]));
        lemma_path_nodes_reached(edges, q, q.len() - 2);
        assert(has_block(cfg.blocks@, p));
        let bi = choose|bi: int| 0 <= bi < cfg.blocks@.len() && #[trigger] cfg.blocks@[bi].id == p;
        assert(ids[bi] == p);
        assert(pred_in(edges, ids, ids[i], p));
        let pi = idx(ids, p);
        assert(rows[pi]@[j]);
        let pre = q.drop_last();
        lemma_path_prefix_reaches(edges, q, q.len() - 2);
        assert(pre =~= q.subrange(0, q.len() - 1));
        lemma_fixpoint_sound(cfg, ids, e, rows, pre, pi, j);
        let k = choose|k: int| 0 <= k < pre.len() && pre[k] == ids[j];
        assert(q[k] == ids[j]);
    }
}

/// Dominator sets of every block, by the iterative data-flow algorithm:
/// start every block at "all blocks" (the entry at itself) and re-apply
/// `dom(b) = {b} ∪ ⋂ dom(preds)` in reverse post-order until nothing
/// changes.
///
/// For a block the entry reaches, the result is exactly the set of blocks on
/// every path from the entry to it; a block the entry does not reach keeps
/// "all blocks".
pub fn compute_dominators(cfg: &CFG) -> (dom: HashMap<BlockId, HashSet<BlockId>>)
    requires
        dominators_defined(*cfg),
    ensures
        forall|b: BlockId| dom@.contains_key(b) <==> has_block(cfg.blocks@, b),
        forall|b: BlockId, a: BlockId|
            dom@.contains_key(b) ==> (#[trigger] dom@[b]@.contains(a) <==> dominator_of(*cfg, b, a)),
{
    let ghost edges = cfg.edges@;
    let n = cfg.blocks.len();
    let mut ids: Vec<BlockId> = Vec::new();
    let mut i: usize = 0;
    while i < n
        invariant
            n == cfg.blocks@.len(),
            0 <= i <= n,
            ids@ == ids_of(cfg.blocks@).subrange(0, i as int),
        decreases n - i,
    {
        ids.push(cfg.blocks[i].id);
        i = i + 1;
        assert(ids@ =~= ids_of(cfg.blocks@).subrange(0, i as int));
    }
    assert(ids@ =~= ids_of(cfg.blocks@));
    proof {
        assert forall|a: int, b: int| 0 <= a < ids@.len() && 0 <= b < ids@.len() && a != b implies ids@[a] != ids@[b] by {
            if a < b {
                assert(cfg.blocks@[a].id < cfg.blocks@[b].id);
            } else {
                assert(cfg.blocks@[b].id < cfg.blocks@[a].id);
            }
        }
        lemma_reaches_refl(edges, cfg.entry);
        let bi = choose|bi: int| 0 <= bi < cfg.blocks@.len() && #[trigger] cfg.blocks@[bi].id == cfg.entry;
        assert(ids@[bi] == cfg.entry);
    }
    let e = find_index(&ids, cfg.entry).unwrap();
    let mut rows: Vec<Vec<bool>> = Vec::new();
    let mut i: usize = 0;
    while i < n
        invariant
            n == ids@.len(),
            distinct(ids@),
            e < n,
            ids@[e as int] == cfg.entry,
            0 <= i <= n,
            rows@.len() == i,
            forall|c: int| 0 <= c < i ==> (#[trigger] rows@[c])@.len() == n,
            forall|c: int, j: int| 0 <= c < i && 0 <= j < n ==> (#[trigger] rows@[c]@[j] <==> (c != e || j == e)),
        decreases n - i,
    {
        let row = if i == e {
            let mut r = filled_row(n, false);
            r.set(e, true);
            r
        } else {
            filled_row(n, true)
        };
        rows.push(row);
        i = i + 1;
    }
    proof {
        assert forall|c: int, j: int|
            0 <= c < ids@.len() && 0 <= j < ids@.len() && reaches(edges, cfg.entry, ids@[c])
                && on_every_path(edges, cfg.entry, ids@[j], ids@[c]) implies #[trigger] rows@[c]@[j] by {
            if c == e {
                let q = seq![cfg.entry];
                assert(is_path(edges, q));
                assert(q.contains(ids@[j]));
                assert(q[0] == ids@[j]);
            }
        }
    }
    let order = rpo(cfg);
    let mut changed = true;
    while changed
        invariant
            edges == cfg.edges@,
            dominators_defined(*cfg),
            ids@ == ids_of(cfg.blocks@),
            distinct(ids@),
            n == ids@.len(),
            e < n,
            rows_inv(edges, cfg.entry, ids@, e as int, rows@),
            forall|x: BlockId| order@.contains(x) <==> reaches(edges, cfg.entry, x),
            !changed ==> forall|c: int, k: int|
                0 <= c < n && 0 <= k < n && c != e && reaches(edges, cfg.entry, ids@[c])
                    ==> (#[trigger] rows@[c]@[k] <==> fbit(edges, ids@, rows@, c, k)),
        decreases total(rows@) + if changed {
            1nat
        } else {
            0nat
        },
    {
        changed = false;
        let ghost start = rows@;
        let mut t: usize = 0;
        while t < order.len()
            invariant
                edges == cfg.edges@,
                dominators_defined(*cfg),
                ids@ == ids_of(cfg.blocks@),
                distinct(ids@),
                n == ids@.len(),
                e < n,
                rows_inv(edges, cfg.entry, ids@, e as int, rows@),
                forall|x: BlockId| order@.contains(x) <==> reaches(edges, cfg.entry, x),
                0 <= t <= order@.len(),
                !changed ==> rows@ == start,
                changed ==> total(rows@) < total(start),
                !changed ==> forall|t2: int, k: int|
                    0 <= t2 < t && 0 <= k < n && order@[t2] != cfg.entry ==> (#[trigger] rows@[idx(ids@, order@[t2])]@[k]
                        <==> fbit(edges, ids@, rows@, idx(ids@, order@[t2]), k)),
            decreases order@.len() - t,
        {
            let b = order[t];
            if b != cfg.entry {
                proof {
                    assert(order@.contains(b));
                    assert(has_block(cfg.blocks@, b));
                    let bk = choose|bk: int| 0 <= bk < cfg.blocks@.len() && #[trigger] cfg.blocks@[bk].id == b;
                    assert(ids@[bk] == b);
                }
                let bi = find_index(&ids, b).unwrap();
                let new_row = equation_row(cfg, &ids, &rows, bi);
                proof {
                    assert(bi != e);
                    assert forall|j: int| 0 <= j < n && new_row@[j] implies rows@[bi as int]@[j] by {}
                }
                if !rows_equal(&rows[bi], &new_row) {
                    let ghost before = rows@;
                    proof {
                        assert(!(new_row@ =~= before[bi as int]@));
                        let j0 = choose|j: int| 0 <= j < n && new_row@[j] != before[bi as int]@[j];
                        assert(before[bi as int]@[j0] && !new_row@[j0]);
                        lemma_popcount_subset(new_row@, before[bi as int]@);
                        lemma_total_update(before, bi as int, new_row);
                    }
                    rows.set(bi, new_row);
                    proof {
                        assert(rows@ == before.update(bi as int, new_row));
                        assert forall|x: BlockId| ids@.contains(x) implies 0 <= #[trigger] idx(ids@, x) < before.len() by {}
                        assert forall|c: int, k: int|
                            0 <= c < before.len() && 0 <= k < n && #[trigger] rows@[c]@[k] implies before[c]@[k] by {}
                        assert forall|c: int, j: int|
                            0 <= c < n && 0 <= j < n && c != e && reaches(edges, cfg.entry, ids@[c])
                                && fbit(edges, ids@, rows@, c, j) implies #[trigger] rows@[c]@[j] by {
                            lemma_fbit_mono(edges, ids@, rows@, before, c, j);
                        }
                        assert forall|c: int, j: int|
                            0 <= c < n && 0 <= j < n && reaches(edges, cfg.entry, ids@[c])
                                && on_every_path(edges, cfg.entry, ids@[j], ids@[c]) implies #[trigger] rows@[c]@[j] by {
                            if c == bi {
                                lemma_equation_complete(*cfg, ids@, e as int, before, c, j);
                            }
                        }
                        assert(rows_inv(edges, cfg.entry, ids@, e as int, rows@));
                    }
                    changed = true;
                } else {
                    proof {
                        assert(new_row@ == rows@[bi as int]@);
                    }
                }
            }
            t = t + 1;
        }
        proof {
            if !changed {
                assert forall|c: int, k: int|
                    0 <= c < n && 0 <= k < n && c != e && reaches(edges, cfg.entry, ids@[c])
                        implies (#[trigger] rows@[c]@[k] <==> fbit(edges, ids@, rows@, c, k)) by {
                    assert(order@.contains(ids@[c]));
                    let t2 = choose|t2: int| 0 <= t2 < order@.len() && order@[t2] == ids@[c];
                    assert(idx(ids@, order@[t2]) == c);
                    assert(rows@[idx(ids@, order@[t2])]@[k] <==> fbit(edges, ids@, rows@, idx(ids@, order@[t2]), k));
                }
            }
        }
    }
    proof {
        assert forall|c: int, j: int|
            0 <= c < n && 0 <= j < n && reaches(edges, cfg.entry, ids@[c]) implies (#[trigger] rows@[c]@[j]
                <==> on_every_path(edges, cfg.entry, ids@[j], ids@[c])) by {
            if rows@[c]@[j] {
                assert forall|q: Seq<BlockId>|
                    #[trigger] is_path(edges, q) && q[0] == cfg.entry && q.last() == ids@[c] implies q.contains(ids@[j]) by {
                    lemma_fixpoint_sound(*cfg, ids@, e as int, rows@, q, c, j);
                }
            }
        }
    }
    // Hand the rows out as a map of sets.
    let mut dom: HashMap<BlockId, HashSet<BlockId>> = HashMap::new();
    let mut i: usize = 0;
    while i < n
        invariant
            n == ids@.len(),
            distinct(ids@),
            rows@.len() == n,
            forall|c: int| 0 <= c < n ==> (#[trigger] rows@[c])@.len() == n,
            0 <= i <= n,
            forall|x: BlockId| dom@.contains_key(x) <==> exists|c: int| 0 <= c < i && ids@[c] == x,
            forall|c: int, x: BlockId|
                0 <= c < i ==> (#[trigger] dom@[ids@[c]]@.contains(x) <==> exists|j: int|
                    0 <= j < n && ids@[j] == x && rows@[c]@[j]),
        decreases n - i,
    {
        let mut set: HashSet<BlockId> = HashSet::new();
        let mut j: usize = 0;
        while j < n
            invariant
                n == ids@.len(),
                rows@.len() == n,
                i < n,
                rows@[i as int]@.len() == n,
                0 <= j <= n,
                forall|x: BlockId| set@.contains(x) <==> exists|k: int|
                    0 <= k < j && ids@[k] == x && rows@[i as int]@[k],
            decreases n - j,
        {
            if rows[i][j] {
                set.insert(ids[j]);
            }
            j = j + 1;
        }
        let ghost d0 = dom@;
        dom.insert(ids[i], set);
        proof {
            assert forall|c: int, x: BlockId|
                0 <= c < i + 1 implies (#[trigger] dom@[ids@[c]]@.contains(x) <==> exists|j: int|
                    0 <= j < n && ids@[j] == x && rows@[c]@[j]) by {
                if c < i {
                    assert(ids@[c] != ids@[i as int]);
                    assert(dom@[ids@[c]] == d0[ids@[c]]);
                }
            }
        }
        i = i + 1;
    }
    proof {
        assert forall|b: BlockId| dom@.contains_key(b) <==> has_block(cfg.blocks@, b) by {
            if has_block(cfg.blocks@, b) {
                let bk = choose|bk: int| 0 <= bk < cfg.blocks@.len() && #[trigger] cfg.blocks@[bk].id == b;
                assert(ids@[bk] == b);
            }
            if dom@.contains_key(b) {
                let c = choose|c: int| 0 <= c < n && ids@[c] == b;
                assert(cfg.blocks@[c].id == b);
            }
        }
        assert forall|b: BlockId, a: BlockId|
            dom@.contains_key(b) implies (#[trigger] dom@[b]@.contains(a) <==> dominator_of(*cfg, b, a)) by {
            let c = choose|c: int| 0 <= c < n && ids@[c] == b;
            assert(dom@[ids@[c]]@.contains(a) <==> exists|j: int| 0 <= j < n && ids@[j] == a && rows@[c]@[j]);
            if reaches(edges, cfg.entry, b) {
                if on_every_path(edges, cfg.entry, a, b) {
                    lemma_dominator_is_block(*cfg, a, b);
                    let bk = choose|bk: int| 0 <= bk < cfg.blocks@.len() && #[trigger] cfg.blocks@[bk].id == a;
                    assert(ids@[bk] == a);
                    assert(rows@[c]@[bk]);
                }
            } else {
                lemma_reaches_refl(edges, cfg.entry);
                assert(c != e);
                if has_block(cfg.blocks@, a) {
                    let bk = choose|bk: int| 0 <= bk < cfg.blocks@.len() && #[trigger] cfg.blocks@[bk].id == a;
                    assert(ids@[bk] == a);
                    assert(rows@[c]@[bk]);
                }
                if dom@[b]@.contains(a) {
                    let j = choose|j: int| 0 <= j < n && ids@[j] == a && rows@[c]@[j];
                    assert(cfg.blocks@[j].id == a);
                }
            }
        }
    }
    dom
}

/// `true` iff block `a` dominates block `b`: `b` is a block and, when the
/// entry reaches it, `a` lies on every path from the entry to it (a block
/// the entry does not reach is dominated by every block).
pub fn dominates(cfg: &CFG, a: BlockId, b: BlockId) -> (r: bool)
    requires
        dominators_defined(*cfg),
    ensures
        r <==> has_block(cfg.blocks@, b) && dominator_of(*cfg, b, a),
{
    let dom = compute_dominators(cfg);
    match dom.get(&b) {
        Some(dom_b) => dom_b.contains(&a),
        None => false,
    }
}

} // verus!
