//! The worklist engine's node order: a reverse post-order of a function CFG
//! over its forward edges, every node included.
use std::collections::{HashMap, HashSet};

use vstd::prelude::*;

use crate::function_cfg::{forward_edge, lemma_out_edges, out_edges, CfgEdgeLabel, FunctionCfg};
use crate::module::{count_missing, lemma_count_missing_insert, lemma_count_missing_mono};

verus! {

broadcast use vstd::std_specs::hash::group_hash_axioms;

/// A fixpoint engine over a function CFG, parameterised by its lattice.
pub struct WorklistEngine<L> {
    pub lattice: L,
}

/// No id occurs twice.
pub open spec fn distinct_ids(s: Seq<u32>) -> bool {
    forall|i: int, j: int| 0 <= i < j < s.len() ==> s[i] != s[j]
}

/// The ids a walk of `cfg` can meet: its entry, then every edge target.
pub open spec fn walk_universe(cfg: FunctionCfg) -> Seq<u32> {
    seq![cfg.entry] + cfg.edges@.map_values(|e: crate::function_cfg::CfgEdge| e.to)
}

impl<L> WorklistEngine<L> {
    /// An engine over `lattice`.
    pub fn new(lattice: L) -> (r: Self)
        ensures
            r.lattice == lattice,
    {
        WorklistEngine { lattice }
    }

    /// Depth-first walk from `node` along forward edges, appending each node
    /// to `post_order` once all its successors are done.
    #[verifier::spinoff_prover]
    #[verifier::rlimit(50)]
    fn dfs(
        &self,
        cfg: &FunctionCfg,
        node: u32,
        visited: &mut HashSet<u32>,
        post_order: &mut Vec<u32>,
        Ghost(u): Ghost<Seq<u32>>,
        Ghost(budget): Ghost<nat>,
    )
        requires
            u == walk_universe(*cfg),
            budget == count_missing(u, old(visited)@),
            u.contains(node),
            forall|x: u32| #[trigger] old(visited)@.contains(x) ==> u.contains(x),
        ensures
            old(visited)@.subset_of(final(visited)@),
            final(visited)@.contains(node),
            forall|x: u32| #[trigger] final(visited)@.contains(x) ==> u.contains(x),
            forall|x: u32, y: u32|
                final(visited)@.contains(x) && !old(visited)@.contains(x) && forward_edge(cfg.edges@, x, y)
                    ==> final(visited)@.contains(y),
            final(post_order)@.len() >= old(post_order)@.len(),
            final(post_order)@.subrange(0, old(post_order)@.len() as int) == old(post_order)@,
            forall|i: int|
                old(post_order)@.len() <= i < final(post_order)@.len() ==> {
                    &&& final(visited)@.contains(#[trigger] final(post_order)@[i])
                    &&& !old(visited)@.contains(final(post_order)@[i])
                },
            forall|x: u32|
                #[trigger] final(visited)@.contains(x) && !old(visited)@.contains(x) ==> exists|i: int|
                    old(post_order)@.len() <= i < final(post_order)@.len() && final(post_order)@[i] == x,
            forall|i: int, j: int|
                old(post_order)@.len() <= i < j < final(post_order)@.len() ==> final(post_order)@[i]
                    != final(post_order)@[j],
            !old(visited)@.contains(node) ==> final(post_order)@.len() > old(post_order)@.len()
                && final(post_order)@.last() == node,
        decreases budget,
    {
        if visited.contains(&node) {
            assert(post_order@.subrange(0, post_order@.len() as int) =~= post_order@);
            return;
        }
        let ghost v0 = visited@;
        let ghost p0 = post_order@;
        visited.insert(node);
        proof {
            lemma_count_missing_insert(u, v0, node);
        }
        let succ = cfg.successors(node);
        let mut k: usize = 0;
        while k < succ.len()
            invariant
                u == walk_universe(*cfg),
                u.contains(node),
                succ@ == out_edges(cfg.edges@, node),
                count_missing(u, v0.insert(node)) < count_missing(u, v0),
                budget == count_missing(u, v0),
                !v0.contains(node),
                0 <= k <= succ@.len(),
                v0.insert(node).subset_of(visited@),
                forall|x: u32| #[trigger] visited@.contains(x) ==> u.contains(x),
                forall|x: u32, y: u32|
                    visited@.contains(x) && !v0.contains(x) && x != node && forward_edge(cfg.edges@, x, y)
                        ==> visited@.contains(y),
                forall|j: int| 0 <= j < k && succ@[j].1 != CfgEdgeLabel::Back ==> visited@.contains(#[trigger] succ@[j].0),
                post_order@.len() >= p0.len(),
                post_order@.subrange(0, p0.len() as int) == p0,
                forall|i: int|
                    p0.len() <= i < post_order@.len() ==> {
                        &&& visited@.contains(#[trigger] post_order@[i])
                        &&& !v0.contains(post_order@[i])
                        &&& post_order@[i] != node
                    },
                forall|x: u32|
                    #[trigger] visited@.contains(x) && !v0.contains(x) && x != node ==> exists|i: int|
                        p0.len() <= i < post_order@.len() && post_order@[i] == x,
                forall|i: int, j: int|
                    p0.len() <= i < j < post_order@.len() ==> post_order@[i] != post_order@[j],
            decreases succ@.len() - k,
        {
            let (s, label) = succ[k];
            if label != CfgEdgeLabel::Back {
                proof {
                    lemma_out_edges(cfg.edges@, node);
                    assert(out_edges(cfg.edges@, node)[k as int] == (s, label));
                    let kk = choose|kk: int|
                        0 <= kk < cfg.edges@.len() && #[trigger] cfg.edges@[kk].from == node
                            && cfg.edges@[kk].to == out_edges(cfg.edges@, node)[k as int].0
                            && cfg.edges@[kk].label == out_edges(cfg.edges@, node)[k as int].1;
                    assert(cfg.edges@.map_values(|e: crate::function_cfg::CfgEdge| e.to)[kk] == s);
                    assert(u[kk + 1] == s);
                    lemma_count_missing_mono(u, v0.insert(node), visited@);
                }
                let ghost v1 = visited@;
                let ghost p1 = post_order@;
                let ghost budget1 = count_missing(u, visited@);
                self.dfs(cfg, s, visited, post_order, Ghost(u), Ghost(budget1));
                proof {
                    assert forall|i: int|
                        p0.len() <= i < post_order@.len() implies {
                        &&& visited@.contains(#[trigger] post_order@[i])
                        &&& !v0.contains(post_order@[i])
                        &&& post_order@[i] != node
                    } by {
                        if i < p1.len() {
                            assert(post_order@.subrange(0, p1.len() as int)[i] == p1[i]);
                        }
                    }
                    assert(post_order@.subrange(0, p0.len() as int) =~= p1.subrange(0, p0.len() as int));
                    assert forall|x: u32|
                        #[trigger] visited@.contains(x) && !v0.contains(x) && x != node implies exists|i: int|
                        p0.len() <= i < post_order@.len() && post_order@[i] == x by {
                        if v1.contains(x) {
                            let i = choose|i: int| p0.len() <= i < p1.len() && p1[i] == x;
                            assert(post_order@.subrange(0, p1.len() as int)[i] == p1[i]);
                        }
                    }
                    assert forall|i: int, j: int|
                        p0.len() <= i < j < post_order@.len() implies post_order@[i] != post_order@[j] by {
                        if j < p1.len() {
                            assert(post_order@.subrange(0, p1.len() as int)[i] == p1[i]);
                            assert(post_order@.subrange(0, p1.len() as int)[j] == p1[j]);
                        } else if i < p1.len() {
                            assert(post_order@.subrange(0, p1.len() as int)[i] == p1[i]);
                            assert(v1.contains(p1[i]));
                        }
                    }
                    assert forall|j: int| 0 <= j < k + 1 && succ@[j].1 != CfgEdgeLabel::Back implies visited@.contains(#[trigger] succ@[j].0) by {
                        if j < k {
                            assert(v1.contains(succ@[j].0));
                        }
                    }
                }
            }
            k = k + 1;
        }
        let ghost p2 = post_order@;
        post_order.push(node);
        proof {
            lemma_out_edges(cfg.edges@, node);
            assert forall|x: u32, y: u32|
                visited@.contains(x) && !v0.contains(x) && forward_edge(cfg.edges@, x, y) implies visited@.contains(y) by {
                if x == node {
                    let kk = choose|kk: int|
                        0 <= kk < cfg.edges@.len() && #[trigger] cfg.edges@[kk].from == node
                            && cfg.edges@[kk].to == y && cfg.edges@[kk].label != CfgEdgeLabel::Back;
                    let i = choose|i: int|
                        0 <= i < out_edges(cfg.edges@, node).len() && out_edges(cfg.edges@, node)[i] == (
                        cfg.edges@[kk].to,
                        cfg.edges@[kk].label,
                    );
                    assert(succ@[i].0 == y);
                }
            }
            assert(post_order@.subrange(0, p0.len() as int) =~= p2.subrange(0, p0.len() as int));
            assert forall|x: u32|
                #[trigger] visited@.contains(x) && !v0.contains(x) implies exists|i: int|
                p0.len() <= i < post_order@.len() && post_order@[i] == x by {
                if x == node {
                    assert(post_order@[post_order@.len() - 1] == x);
                } else {
                    let i = choose|i: int| p0.len() <= i < p2.len() && p2[i] == x;
                    assert(post_order@[i] == x);
                }
            }
        }
    }

    /// The nodes of `cfg` in reverse post-order of a walk from the entry
    /// along forward edges, preceded by the nodes the walk did not meet (in
    /// reverse node order), with each node's position.
    #[verifier::spinoff_prover]
    #[verifier::rlimit(50)]
    pub fn compute_rpo(&self, cfg: &FunctionCfg) -> (r: (Vec<u32>, HashMap<u32, usize>))
        ensures
            rpo_of(*cfg, r.0@),
            forall|i: int|
                0 <= i < r.0@.len() ==> r.1@.contains_key(#[trigger] r.0@[i]) && last_index(r.0@, r.0@[i]) == r.1@[r.0@[i]] as int,
            forall|x: u32| #[trigger] r.1@.contains_key(x) ==> r.0@.contains(x),
    {
        let mut visited: HashSet<u32> = HashSet::new();
        let mut post_order: Vec<u32> = Vec::new();
        let ghost u = walk_universe(*cfg);
        proof {
            assert(u[0] == cfg.entry);
        }
        let ghost budget = count_missing(u, visited@);
        self.dfs(cfg, cfg.entry, &mut visited, &mut post_order, Ghost(u), Ghost(budget));
        let ghost walked = post_order@;
        let ghost vis = visited@;
        assert(post_order@.subrange(0, 0) =~= Seq::<u32>::empty());
        assert(walked.subrange(0, walked.len() as int) =~= walked);
        let mut i: usize = 0;
        while i < cfg.nodes.len()
            invariant
                i <= cfg.nodes.len(),
                visited@ == vis,
                post_order@ == walked + unvisited_ids(cfg.nodes@.subrange(0, i as int), vis),
            decreases cfg.nodes.len() - i,
        {
            let id = cfg.nodes[i].id;
            assert(cfg.nodes@.subrange(0, i + 1).drop_last() =~= cfg.nodes@.subrange(0, i as int));
            if !visited.contains(&id) {
                post_order.push(id);
            }
            i = i + 1;
        }
        assert(cfg.nodes@.subrange(0, cfg.nodes@.len() as int) =~= cfg.nodes@);
        let ghost extra = unvisited_ids(cfg.nodes@, vis);
        // Reverse.
        let mut rpo: Vec<u32> = Vec::new();
        let mut k: usize = post_order.len();
        while k > 0
            invariant
                k <= post_order.len(),
                rpo@ == post_order@.subrange(k as int, post_order@.len() as int).reverse(),
            decreases k,
        {
            k = k - 1;
            rpo.push(post_order[k]);
            assert(post_order@.subrange(k as int, post_order@.len() as int).reverse() =~= post_order@.subrange(
                k + 1,
                post_order@.len() as int,
            ).reverse().push(post_order@[k as int]));
        }
        assert(post_order@.subrange(0, post_order@.len() as int) =~= post_order@);
        assert(rpo@ =~= extra.reverse() + walked.reverse()) by {
            assert(post_order@ == walked + extra);
        }
        proof {
            let m = extra.len() as int;
            assert(rpo@.subrange(0, m) =~= extra.reverse());
            assert(rpo@.subrange(m, rpo@.len() as int) =~= walked.reverse());
            let w = walked.reverse();
            assert forall|a: int, b: int| 0 <= a < b < w.len() implies w[a] != w[b] by {
                assert(w[a] == walked[walked.len() - 1 - a]);
                assert(w[b] == walked[walked.len() - 1 - b]);
            }
            assert forall|x: u32| w.contains(x) <==> #[trigger] vis.contains(x) by {
                if w.contains(x) {
                    let a = choose|a: int| 0 <= a < w.len() && w[a] == x;
                    assert(walked[walked.len() - 1 - a] == x);
                }
                if vis.contains(x) {
                    let a = choose|a: int| 0 <= a < walked.len() && walked[a] == x;
                    assert(w[walked.len() - 1 - a] == x);
                }
            }
            assert(w[0] == cfg.entry);
            assert(rpo_of(*cfg, rpo@)) by {
                assert(walked_part(*cfg, w));
                assert(rpo@.subrange(0, m) == unvisited_ids(cfg.nodes@, seq_set(w)).reverse()) by {
                    assert(seq_set(w) =~= vis);
                }
            }
        }
        // Positions: a later occurrence of an id overwrites an earlier one.
        let mut index: HashMap<u32, usize> = HashMap::new();
        let mut j: usize = 0;
        while j < rpo.len()
            invariant
                j <= rpo.len(),
                forall|t: int|
                    0 <= t < j ==> index@.contains_key(#[trigger] rpo@[t]) && last_index(rpo@.subrange(0, j as int), rpo@[t])
                        == index@[rpo@[t]] as int,
                forall|x: u32| #[trigger] index@.contains_key(x) ==> rpo@.subrange(0, j as int).contains(x),
            decreases rpo.len() - j,
        {
            index.insert(rpo[j], j);
            proof {
                let pre = rpo@.subrange(0, j as int);
                let next = rpo@.subrange(0, j + 1);
                assert(next =~= pre.push(rpo@[j as int]));
                assert forall|t: int|
                    0 <= t < j + 1 implies index@.contains_key(#[trigger] rpo@[t]) && last_index(next, rpo@[t])
                        == index@[rpo@[t]] as int by {
                    lemma_last_index_push(pre, rpo@[j as int], rpo@[t]);
                    if rpo@[t] != rpo@[j as int] {
                        assert(pre[t] == rpo@[t]);
                    }
                }
                assert forall|x: u32| #[trigger] index@.contains_key(x) implies next.contains(x) by {
                    if x == rpo@[j as int] {
                        assert(next[j as int] == x);
                    } else {
                        let t = choose|t: int| 0 <= t < pre.len() && pre[t] == x;
                        assert(next[t] == x);
                    }
                }
            }
            j = j + 1;
        }
        assert(rpo@.subrange(0, rpo@.len() as int) =~= rpo@);
        (rpo, index)
    }
}

/// The elements of a sequence, as a set.
pub open spec fn seq_set(s: Seq<u32>) -> Set<u32> {
    Set::new(|x: u32| s.contains(x))
}

/// The ids of `nodes` the walk did not meet, in node order.
pub open spec fn unvisited_ids(nodes: Seq<crate::function_cfg::CfgNode>, visited: Set<u32>) -> Seq<u32>
    decreases nodes.len(),
{
    if nodes.len() == 0 {
        Seq::empty()
    } else {
        let prev = unvisited_ids(nodes.drop_last(), visited);
        if visited.contains(nodes.last().id) {
            prev
        } else {
            prev.push(nodes.last().id)
        }
    }
}

/// `w` is a reverse post-order of a walk from the entry: it starts at the
/// entry, holds no id twice, and is closed under forward edges.
pub open spec fn walked_part(cfg: FunctionCfg, w: Seq<u32>) -> bool {
    &&& w.len() > 0
    &&& w[0] == cfg.entry
    &&& distinct_ids(w)
    &&& forall|x: u32, y: u32| w.contains(x) && forward_edge(cfg.edges@, x, y) ==> w.contains(y)
}

/// `rpo` is the nodes the walk did not meet, last first, then the walked
/// reverse post-order.
pub open spec fn rpo_of(cfg: FunctionCfg, rpo: Seq<u32>) -> bool {
    exists|m: int|
        0 <= m <= rpo.len() && #[trigger] walked_part(cfg, rpo.subrange(m, rpo.len() as int)) && rpo.subrange(0, m)
            == unvisited_ids(cfg.nodes@, seq_set(rpo.subrange(m, rpo.len() as int))).reverse()
}

/// The last position of `x` in `s` (`-1` when absent).
pub open spec fn last_index(s: Seq<u32>, x: u32) -> int
    decreases s.len(),
{
    if s.len() == 0 {
        -1
    } else if s.last() == x {
        s.len() - 1
    } else {
        last_index(s.drop_last(), x)
    }
}

/// Pushing `y` moves the last position of `y` only.
proof fn lemma_last_index_push(s: Seq<u32>, y: u32, x: u32)
    ensures
        last_index(s.push(y), x) == if x == y {
            s.len() as int
        } else {
            last_index(s, x)
        },
{
    assert(s.push(y).drop_last() =~= s);
}

} // verus!
