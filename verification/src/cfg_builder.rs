//! Incremental construction of a function CFG: nodes are numbered in
//! creation order, and the pending exits of the code built so far are
//! sealed into the next node they flow to.
use vstd::prelude::*;

use crate::function_cfg::{CfgEdge, CfgEdgeLabel, CfgNode, CfgNodeKind, FunctionCfg};

verus! {

/// A CFG under construction.
pub struct CfgBuilder {
    next_id: u32,
    nodes: Vec<CfgNode>,
    edges: Vec<CfgEdge>,
    current_exits: Vec<u32>,
    catch_stack: Vec<u32>,
    exit_node: u32,
}

/// The edges `froms[i] → target`, in order.
pub open spec fn sealed_edges(froms: Seq<u32>, target: u32, label: CfgEdgeLabel) -> Seq<CfgEdge> {
    froms.map_values(|f: u32| CfgEdge { from: f, to: target, label })
}

impl CfgBuilder {
    /// The id the next node gets.
    pub closed spec fn spec_next_id(&self) -> u32 {
        self.next_id
    }

    /// The nodes built so far.
    pub closed spec fn spec_nodes(&self) -> Seq<CfgNode> {
        self.nodes@
    }

    /// The edges built so far.
    pub closed spec fn spec_edges(&self) -> Seq<CfgEdge> {
        self.edges@
    }

    /// The nodes whose control still has to be sealed into a successor.
    pub closed spec fn spec_exits(&self) -> Seq<u32> {
        self.current_exits@
    }

    /// The innermost enclosing `catch` blocks, innermost last.
    pub closed spec fn spec_catches(&self) -> Seq<u32> {
        self.catch_stack@
    }

    /// Where an exception leaves when no `catch` encloses it.
    pub closed spec fn spec_exit_node(&self) -> u32 {
        self.exit_node
    }

    /// An empty builder.
    pub fn new() -> (r: CfgBuilder)
        ensures
            r.spec_next_id() == 0,
            r.spec_nodes() == Seq::<CfgNode>::empty(),
            r.spec_edges() == Seq::<CfgEdge>::empty(),
            r.spec_exits() == Seq::<u32>::empty(),
            r.spec_catches() == Seq::<u32>::empty(),
            r.spec_exit_node() == 0,
    {
        CfgBuilder {
            next_id: 0,
            nodes: Vec::new(),
            edges: Vec::new(),
            current_exits: Vec::new(),
            catch_stack: Vec::new(),
            exit_node: 0,
        }
    }

    /// A new node of `kind`, numbered with the next id.
    fn new_node(&mut self, kind: CfgNodeKind) -> (id: u32)
        requires
            old(self).spec_next_id() < u32::MAX,
        ensures
            id == old(self).spec_next_id(),
            final(self).spec_next_id() == id + 1,
            final(self).spec_nodes() == old(self).spec_nodes().push(
                CfgNode { id, kind, ast_node_id: None },
            ),
            final(self).spec_edges() == old(self).spec_edges(),
            final(self).spec_exits() == old(self).spec_exits(),
            final(self).spec_catches() == old(self).spec_catches(),
            final(self).spec_exit_node() == old(self).spec_exit_node(),
    {
        let id = self.next_id;
        self.next_id = self.next_id + 1;
        self.nodes.push(CfgNode { id, kind, ast_node_id: None });
        id
    }

    /// Add the edge `from → to`.
    fn add_edge(&mut self, from: u32, to: u32, label: CfgEdgeLabel)
        ensures
            final(self).spec_edges() == old(self).spec_edges().push(CfgEdge { from, to, label }),
            final(self).spec_next_id() == old(self).spec_next_id(),
            final(self).spec_nodes() == old(self).spec_nodes(),
            final(self).spec_exits() == old(self).spec_exits(),
            final(self).spec_catches() == old(self).spec_catches(),
            final(self).spec_exit_node() == old(self).spec_exit_node(),
    {
        self.edges.push(CfgEdge { from, to, label });
    }

    /// Connect every pending exit to `target`, then clear the exits.
    fn seal(&mut self, target: u32, label: CfgEdgeLabel)
        ensures
            final(self).spec_edges() == old(self).spec_edges() + sealed_edges(
                old(self).spec_exits(),
                target,
                label,
            ),
            final(self).spec_exits() == Seq::<u32>::empty(),
            final(self).spec_next_id() == old(self).spec_next_id(),
            final(self).spec_nodes() == old(self).spec_nodes(),
            final(self).spec_catches() == old(self).spec_catches(),
            final(self).spec_exit_node() == old(self).spec_exit_node(),
    {
        let mut exits: Vec<u32> = Vec::new();
        std::mem::swap(&mut exits, &mut self.current_exits);
        let ghost e0 = self.edges@;
        let mut k: usize = 0;
        while k < exits.len()
            invariant
                k <= exits.len(),
                exits@ == old(self).spec_exits(),
                self.edges@ == e0 + sealed_edges(exits@.subrange(0, k as int), target, label),
                self.current_exits@ == Seq::<u32>::empty(),
                self.next_id == old(self).spec_next_id(),
                self.nodes@ == old(self).spec_nodes(),
                self.catch_stack@ == old(self).spec_catches(),
                self.exit_node == old(self).spec_exit_node(),
                e0 == old(self).spec_edges(),
            decreases exits.len() - k,
        {
            self.add_edge(exits[k], target, label);
            assert(sealed_edges(exits@.subrange(0, k + 1), target, label) =~= sealed_edges(
                exits@.subrange(0, k as int),
                target,
                label,
            ).push(CfgEdge { from: exits@[k as int], to: target, label }));
            k = k + 1;
        }
        assert(exits@.subrange(0, exits@.len() as int) =~= exits@);
    }

    /// The edge an exception thrown at `from` takes: to the innermost
    /// `catch`, or to the exit node when none encloses it.
    fn exception_edge(&mut self, from: u32)
        ensures
            final(self).spec_edges() == old(self).spec_edges().push(
                CfgEdge {
                    from,
                    to: if old(self).spec_catches().len() > 0 {
                        old(self).spec_catches().last()
                    } else {
                        old(self).spec_exit_node()
                    },
                    label: CfgEdgeLabel::Exception,
                },
            ),
            final(self).spec_next_id() == old(self).spec_next_id(),
            final(self).spec_nodes() == old(self).spec_nodes(),
            final(self).spec_exits() == old(self).spec_exits(),
            final(self).spec_catches() == old(self).spec_catches(),
            final(self).spec_exit_node() == old(self).spec_exit_node(),
    {
        let dest = if self.catch_stack.len() > 0 {
            self.catch_stack[self.catch_stack.len() - 1]
        } else {
            self.exit_node
        };
        self.add_edge(from, dest, CfgEdgeLabel::Exception);
    }

    /// The CFG of an empty function body: an entry node flowing to an exit
    /// node. The builder is reset first and left empty of nodes and edges.
    pub fn build_empty_function(&mut self) -> (r: FunctionCfg)
        ensures
            r.entry == 0,
            r.exit == 1,
            r.nodes@ == seq![
                CfgNode { id: 0, kind: CfgNodeKind::Entry, ast_node_id: None },
                CfgNode { id: 1, kind: CfgNodeKind::Exit, ast_node_id: None },
            ],
            r.edges@ == seq![CfgEdge { from: 0, to: 1, label: CfgEdgeLabel::Normal }],
            final(self).spec_next_id() == 2,
            final(self).spec_nodes() == Seq::<CfgNode>::empty(),
            final(self).spec_edges() == Seq::<CfgEdge>::empty(),
            final(self).spec_exits() == Seq::<u32>::empty(),
            final(self).spec_catches() == Seq::<u32>::empty(),
            final(self).spec_exit_node() == 1,
    {
        self.next_id = 0;
        self.nodes.clear();
        self.edges.clear();
        self.catch_stack.clear();
        let entry = self.new_node(CfgNodeKind::Entry);
        let exit = self.new_node(CfgNodeKind::Exit);
        self.exit_node = exit;
        self.current_exits = vec![entry];
        self.seal(exit, CfgEdgeLabel::Normal);
        let mut nodes: Vec<CfgNode> = Vec::new();
        std::mem::swap(&mut nodes, &mut self.nodes);
        let mut edges: Vec<CfgEdge> = Vec::new();
        std::mem::swap(&mut edges, &mut self.edges);
        assert(sealed_edges(seq![entry], exit, CfgEdgeLabel::Normal) =~= seq![
            CfgEdge { from: 0, to: 1, label: CfgEdgeLabel::Normal },
        ]);
        assert(nodes@ =~= seq![
            CfgNode { id: 0, kind: CfgNodeKind::Entry, ast_node_id: None },
            CfgNode { id: 1, kind: CfgNodeKind::Exit, ast_node_id: None },
        ]);
        assert(edges@ =~= seq![CfgEdge { from: 0, to: 1, label: CfgEdgeLabel::Normal }]);
        FunctionCfg { entry, exit, nodes, edges }
    }
}

} // verus!
