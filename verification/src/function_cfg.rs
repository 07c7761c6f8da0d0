//! The statement-level control-flow graph of one function body, as the
//! builder produces it and the worklist engine walks it.
use vstd::prelude::*;

verus! {

/// What a node of a function CFG stands for.
#[derive(Debug, Clone, Copy, PartialEq, Eq, Structural)]
pub enum CfgNodeKind {
    Entry,
    Exit,
}

/// Why control flows along an edge.
#[derive(Debug, Clone, Copy, PartialEq, Eq, Structural)]
pub enum CfgEdgeLabel {
    Normal,
    /// A loop's back edge.
    Back,
    /// Control leaving through a thrown exception.
    Exception,
}

/// One node.
#[derive(Debug, Clone, Copy, PartialEq, Eq, Structural)]
pub struct CfgNode {
    pub id: u32,
    pub kind: CfgNodeKind,
    pub ast_node_id: Option<u32>,
}

/// One directed edge.
#[derive(Debug, Clone, Copy, PartialEq, Eq, Structural)]
pub struct CfgEdge {
    pub from: u32,
    pub to: u32,
    pub label: CfgEdgeLabel,
}

/// A function body's control-flow graph.
#[derive(Debug, Clone)]
pub struct FunctionCfg {
    pub entry: u32,
    pub exit: u32,
    pub nodes: Vec<CfgNode>,
    pub edges: Vec<CfgEdge>,
}

/// The edges leaving `node`, as `(target, label)`, in edge order.
pub open spec fn out_edges(edges: Seq<CfgEdge>, node: u32) -> Seq<(u32, CfgEdgeLabel)>
    decreases edges.len(),
{
    if edges.len() == 0 {
        Seq::empty()
    } else {
        let prev = out_edges(edges.drop_last(), node);
        if edges.last().from == node {
            prev.push((edges.last().to, edges.last().label))
        } else {
            prev
        }
    }
}

/// There is an edge `a → b` that is not a back edge.
pub open spec fn forward_edge(edges: Seq<CfgEdge>, a: u32, b: u32) -> bool {
    exists|k: int|
        0 <= k < edges.len() && #[trigger] edges[k].from == a && edges[k].to == b && edges[k].label
            != CfgEdgeLabel::Back
}

/// Every entry of [`out_edges`] is an edge leaving `node`, and the other
/// way round.
pub proof fn lemma_out_edges(edges: Seq<CfgEdge>, node: u32)
    ensures
        forall|i: int|
            #![trigger out_edges(edges, node)[i]]
            0 <= i < out_edges(edges, node).len() ==> exists|k: int|
                0 <= k < edges.len() && #[trigger] edges[k].from == node && edges[k].to == out_edges(
                    edges,
                    node,
                )[i].0 && edges[k].label == out_edges(edges, node)[i].1,
        forall|k: int|
            0 <= k < edges.len() && #[trigger] edges[k].from == node ==> exists|i: int|
                0 <= i < out_edges(edges, node).len() && out_edges(edges, node)[i] == (
                edges[k].to,
                edges[k].label,
            ),
    decreases edges.len(),
{
    if edges.len() > 0 {
        let init = edges.drop_last();
        lemma_out_edges(init, node);
        let prev = out_edges(init, node);
        let cur = out_edges(edges, node);
        assert forall|i: int| #![trigger cur[i]] 0 <= i < cur.len() implies exists|k: int|
            0 <= k < edges.len() && #[trigger] edges[k].from == node && edges[k].to == cur[i].0
                && edges[k].label == cur[i].1 by {
            if i < prev.len() {
                assert(cur[i] == prev[i]);
                let k = choose|k: int|
                    0 <= k < init.len() && #[trigger] init[k].from == node && init[k].to == prev[i].0
                        && init[k].label == prev[i].1;
                assert(edges[k] == init[k]);
            } else {
                assert(edges[edges.len() - 1].from == node);
            }
        }
        assert forall|k: int| 0 <= k < edges.len() && #[trigger] edges[k].from == node implies exists|i: int|
            0 <= i < cur.len() && cur[i] == (edges[k].to, edges[k].label) by {
            if k < edges.len() - 1 {
                assert(init[k] == edges[k]);
                let i = choose|i: int| 0 <= i < prev.len() && prev[i] == (init[k].to, init[k].label);
                assert(cur[i] == prev[i]);
            } else {
                assert(cur[prev.len() as int] == (edges[k].to, edges[k].label));
            }
        }
    }
}

impl FunctionCfg {
    /// The edges leaving `node`, as `(target, label)`, in edge order.
    pub fn successors(&self, node: u32) -> (r: Vec<(u32, CfgEdgeLabel)>)
        ensures
            r@ == out_edges(self.edges@, node),
    {
        let mut r: Vec<(u32, CfgEdgeLabel)> = Vec::new();
        let mut k: usize = 0;
        while k < self.edges.len()
            invariant
                k <= self.edges.len(),
                r@ == out_edges(self.edges@.subrange(0, k as int), node),
            decreases self.edges.len() - k,
        {
            assert(self.edges@.subrange(0, k + 1).drop_last() =~= self.edges@.subrange(0, k as int));
            let e = self.edges[k];
            if e.from == node {
                r.push((e.to, e.label));
            }
            k = k + 1;
        }
        assert(self.edges@.subrange(0, self.edges@.len() as int) =~= self.edges@);
        r
    }
}

} // verus!
