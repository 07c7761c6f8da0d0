//! Control-flow graphs of IR bodies, and the reachability questions asked of
//! them.
use std::collections::HashSet;

use vstd::prelude::*;
use vstd::string::StringExecFns;

use crate::expr::Expr;
use crate::source_range::SourceRange;
use crate::stmt::Stmt;
use crate::text::{decimal, decimal_string};
use crate::types::BlockId;

verus! {

broadcast use vstd::std_specs::hash::group_hash_axioms;

/// A straight-line sequence of statements ending in a terminator.
#[derive(Debug)]
pub struct BasicBlock {
    pub id: BlockId,
    pub stmts: Vec<Stmt>,
    pub term: Terminator,
}

/// How control leaves a block.
#[derive(Debug)]
pub enum Terminator {
    Jump(BlockId),
    /// `span`: where the condition is evaluated in the source.
    Branch { cond: Expr, then_: BlockId, else_: BlockId, span: Option<SourceRange> },
    Return(Expr),
    Unreachable,
}

/// The expression a terminator evaluates: a returned value or a branch
/// condition; a jump evaluates none.
pub open spec fn term_exprs(t: Terminator) -> Seq<Expr> {
    match t {
        Terminator::Return(e) => seq![e],
        Terminator::Branch { cond, .. } => seq![cond],
        _ => Seq::empty(),
    }
}

/// What kind of control transfer an edge is.
#[derive(Debug, Clone, Copy, PartialEq, Eq, Structural)]
pub enum EdgeKind {
    Unconditional,
    IfTrue,
    IfFalse,
    Back,
    /// The split at an `await`: control is unconditional, but the successor
    /// runs on a later turn of the event loop.
    Await,
}

/// A directed control-flow edge.
#[derive(Debug, Clone, Copy, PartialEq, Eq, Structural)]
pub struct Edge {
    pub from: BlockId,
    pub to: BlockId,
    pub kind: EdgeKind,
}

/// A control-flow graph. `blocks` is kept in ascending, duplicate-free id
/// order (see [`CFG::blocks_wf`]), so every walk over it visits blocks in
/// lowering order and reports the same representative on every run.
#[derive(Debug)]
pub struct CFG {
    pub entry: BlockId,
    pub blocks: Vec<BasicBlock>,
    pub edges: Vec<Edge>,
}

/// There is an edge `a → b`.
pub open spec fn has_edge(edges: Seq<Edge>, a: BlockId, b: BlockId) -> bool {
    exists|k: int| 0 <= k < edges.len() && #[trigger] edges[k].from == a && edges[k].to == b
}

/// `p` is a (non-empty) walk along edges.
pub open spec fn is_path(edges: Seq<Edge>, p: Seq<BlockId>) -> bool {
    &&& p.len() >= 1
    &&& forall|i: int| 0 <= i < p.len() - 1 ==> has_edge(edges, #[trigger] p[i], p[i + 1])
}

/// `b` is reachable from `a` (in zero or more steps).
pub open spec fn reaches(edges: Seq<Edge>, a: BlockId, b: BlockId) -> bool {
    exists|p: Seq<BlockId>| #[trigger] is_path(edges, p) && p[0] == a && p.last() == b
}

/// The targets of the edges leaving `b`, in edge order.
pub open spec fn targets_from(edges: Seq<Edge>, b: BlockId) -> Seq<BlockId>
    decreases edges.len(),
{
    if edges.len() == 0 {
        Seq::empty()
    } else {
        let prev = targets_from(edges.drop_last(), b);
        if edges.last().from == b {
            prev.push(edges.last().to)
        } else {
            prev
        }
    }
}

/// The sources of the edges entering `b`, in edge order.
pub open spec fn sources_into(edges: Seq<Edge>, b: BlockId) -> Seq<BlockId>
    decreases edges.len(),
{
    if edges.len() == 0 {
        Seq::empty()
    } else {
        let prev = sources_into(edges.drop_last(), b);
        if edges.last().to == b {
            prev.push(edges.last().from)
        } else {
            prev
        }
    }
}

/// Membership in [`targets_from`] is having an edge.
pub proof fn lemma_targets_from(edges: Seq<Edge>, b: BlockId)
    ensures
        forall|x: BlockId| targets_from(edges, b).contains(x) <==> has_edge(edges, b, x),
        targets_from(edges, b).len() <= edges.len(),
    decreases edges.len(),
{
    if edges.len() > 0 {
        let init = edges.drop_last();
        lemma_targets_from(init, b);
        assert forall|x: BlockId| targets_from(edges, b).contains(x) <==> has_edge(
            edges,
            b,
            x,
        ) by {
            if has_edge(edges, b, x) {
                let k = choose|k: int|
                    0 <= k < edges.len() && #[trigger] edges[k].from == b && edges[k].to == x;
                if k < edges.len() - 1 {
                    assert(init[k].from == b && init[k].to == x);
                    assert(has_edge(init, b, x));
                    assert(targets_from(init, b).contains(x));
                    if edges.last().from == b {
                        assert(targets_from(edges, b) == targets_from(init, b).push(
                            edges.last().to,
                        ));
                        let j = choose|j: int|
                            0 <= j < targets_from(init, b).len() && targets_from(init, b)[j]
                                == x;
                        assert(targets_from(edges, b)[j] == x);
                    }
                } else {
                    assert(targets_from(edges, b) == targets_from(init, b).push(x));
                    assert(targets_from(edges, b)[targets_from(init, b).len() as int] == x);
                }
            }
            if targets_from(edges, b).contains(x) {
                if edges.last().from == b && edges.last().to == x {
                    assert(edges[edges.len() - 1].from == b);
                } else {
                    let j = choose|j: int|
                        0 <= j < targets_from(edges, b).len() && targets_from(edges, b)[j] == x;
                    if edges.last().from == b {
                        assert(targets_from(edges, b) == targets_from(init, b).push(
                            edges.last().to,
                        ));
                        assert(j < targets_from(init, b).len());
                    }
                    assert(targets_from(init, b)[j] == x);
                    assert(targets_from(init, b).contains(x));
                    assert(has_edge(init, b, x));
                    let k = choose|k: int|
                        0 <= k < init.len() && #[trigger] init[k].from == b && init[k].to == x;
                    assert(edges[k].from == b && edges[k].to == x);
                }
            }
        }
    }
}

/// The targets of the `Await` edges, in edge order.
pub open spec fn await_targets(edges: Seq<Edge>) -> Seq<BlockId>
    decreases edges.len(),
{
    if edges.len() == 0 {
        Seq::empty()
    } else {
        let prev = await_targets(edges.drop_last());
        if edges.last().kind == EdgeKind::Await {
            prev.push(edges.last().to)
        } else {
            prev
        }
    }
}

/// Membership in [`await_targets`] is being the target of an `Await` edge.
pub proof fn lemma_await_targets(edges: Seq<Edge>)
    ensures
        forall|x: BlockId|
            await_targets(edges).contains(x) <==> exists|k: int|
                0 <= k < edges.len() && #[trigger] edges[k].kind == EdgeKind::Await && edges[k].to
                    == x,
    decreases edges.len(),
{
    if edges.len() > 0 {
        let init = edges.drop_last();
        lemma_await_targets(init);
        assert forall|x: BlockId|
            await_targets(edges).contains(x) <==> exists|k: int|
                0 <= k < edges.len() && #[trigger] edges[k].kind == EdgeKind::Await && edges[k].to
                    == x by {
            if exists|k: int|
                0 <= k < edges.len() && #[trigger] edges[k].kind == EdgeKind::Await && edges[k].to
                    == x {
                let k = choose|k: int|
                    0 <= k < edges.len() && #[trigger] edges[k].kind == EdgeKind::Await
                        && edges[k].to == x;
                if k < edges.len() - 1 {
                    assert(init[k].kind == EdgeKind::Await && init[k].to == x);
                    assert(await_targets(init).contains(x));
                    let j = choose|j: int|
                        0 <= j < await_targets(init).len() && await_targets(init)[j] == x;
                    assert(await_targets(edges)[j] == x);
                } else {
                    assert(await_targets(edges)[await_targets(init).len() as int] == x);
                }
            }
            if await_targets(edges).contains(x) {
                let j = choose|j: int|
                    0 <= j < await_targets(edges).len() && await_targets(edges)[j] == x;
                if j < await_targets(init).len() {
                    assert(await_targets(init)[j] == x);
                    assert(await_targets(init).contains(x));
                    let k = choose|k: int|
                        0 <= k < init.len() && #[trigger] init[k].kind == EdgeKind::Await
                            && init[k].to == x;
                    assert(edges[k].kind == EdgeKind::Await && edges[k].to == x);
                } else {
                    assert(edges[edges.len() - 1].kind == EdgeKind::Await);
                }
            }
        }
    }
}

/// Membership in [`sources_into`] is having an edge.
pub proof fn lemma_sources_into(edges: Seq<Edge>, b: BlockId)
    ensures
        forall|x: BlockId| sources_into(edges, b).contains(x) <==> has_edge(edges, x, b),
        sources_into(edges, b).len() <= edges.len(),
    decreases edges.len(),
{
    if edges.len() > 0 {
        let init = edges.drop_last();
        lemma_sources_into(init, b);
        assert forall|x: BlockId| sources_into(edges, b).contains(x) <==> has_edge(
            edges,
            x,
            b,
        ) by {
            if has_edge(edges, x, b) {
                let k = choose|k: int|
                    0 <= k < edges.len() && #[trigger] edges[k].from == x && edges[k].to == b;
                if k < edges.len() - 1 {
                    assert(init[k].from == x && init[k].to == b);
                    assert(has_edge(init, x, b));
                    assert(sources_into(init, b).contains(x));
                    if edges.last().to == b {
                        let j = choose|j: int|
                            0 <= j < sources_into(init, b).len() && sources_into(init, b)[j]
                                == x;
                        assert(sources_into(edges, b)[j] == x);
                    }
                } else {
                    assert(sources_into(edges, b) == sources_into(init, b).push(x));
                    assert(sources_into(edges, b)[sources_into(init, b).len() as int] == x);
                }
            }
            if sources_into(edges, b).contains(x) {
                if edges.last().to == b && edges.last().from == x {
                    assert(edges[edges.len() - 1].to == b);
                } else {
                    let j = choose|j: int|
                        0 <= j < sources_into(edges, b).len() && sources_into(edges, b)[j] == x;
                    if edges.last().to == b {
                        assert(j < sources_into(init, b).len());
                    }
                    assert(sources_into(init, b)[j] == x);
                    assert(sources_into(init, b).contains(x));
                    assert(has_edge(init, x, b));
                    let k = choose|k: int|
                        0 <= k < init.len() && #[trigger] init[k].from == x && init[k].to == b;
                    assert(edges[k].from == x && edges[k].to == b);
                }
            }
        }
    }
}

/// A set closed under the edges that holds `a` holds everything `a` reaches.
pub proof fn lemma_closed_contains_reachable(
    edges: Seq<Edge>,
    s: Set<BlockId>,
    a: BlockId,
    b: BlockId,
)
    requires
        s.contains(a),
        forall|x: BlockId, y: BlockId| s.contains(x) && has_edge(edges, x, y) ==> s.contains(y),
        reaches(edges, a, b),
    ensures
        s.contains(b),
{
    let p = choose|p: Seq<BlockId>| #[trigger] is_path(edges, p) && p[0] == a && p.last() == b;
    assert forall|i: int| 0 <= i < p.len() implies s.contains(#[trigger] p[i]) by {
        lemma_path_prefix_in_closed(edges, s, p, i);
    }
    assert(s.contains(p[p.len() - 1]));
}

proof fn lemma_path_prefix_in_closed(edges: Seq<Edge>, s: Set<BlockId>, p: Seq<BlockId>, i: int)
    requires
        is_path(edges, p),
        s.contains(p[0]),
        forall|x: BlockId, y: BlockId| s.contains(x) && has_edge(edges, x, y) ==> s.contains(y),
        0 <= i < p.len(),
    ensures
        s.contains(p[i]),
    decreases i,
{
    if i > 0 {
        lemma_path_prefix_in_closed(edges, s, p, i - 1);
        assert(has_edge(edges, p[i - 1], p[i]));
    }
}

/// A path extended by one edge is a path.
pub proof fn lemma_path_extend(edges: Seq<Edge>, p: Seq<BlockId>, y: BlockId)
    requires
        is_path(edges, p),
        has_edge(edges, p.last(), y),
    ensures
        is_path(edges, p.push(y)),
        p.push(y)[0] == p[0],
        p.push(y).last() == y,
{
    let q = p.push(y);
    assert forall|i: int| 0 <= i < q.len() - 1 implies has_edge(edges, #[trigger] q[i], q[i + 1]) by {
        if i < p.len() - 1 {
            assert(q[i] == p[i] && q[i + 1] == p[i + 1]);
        } else {
            assert(q[i] == p.last());
        }
    }
}

/// Reachability is extended by one edge.
pub proof fn lemma_reaches_step(edges: Seq<Edge>, a: BlockId, x: BlockId, y: BlockId)
    requires
        reaches(edges, a, x),
        has_edge(edges, x, y),
    ensures
        reaches(edges, a, y),
{
    let p = choose|p: Seq<BlockId>| #[trigger] is_path(edges, p) && p[0] == a && p.last() == x;
    lemma_path_extend(edges, p, y);
    assert(is_path(edges, p.push(y)));
}

/// Every block reaches itself.
pub proof fn lemma_reaches_refl(edges: Seq<Edge>, a: BlockId)
    ensures
        reaches(edges, a, a),
{
    let p = seq![a];
    assert(is_path(edges, p));
}

/// Number of positions of `u` whose value is not in `s`.
pub open spec fn count_outside(u: Seq<BlockId>, s: Set<BlockId>) -> nat
    decreases u.len(),
{
    if u.len() == 0 {
        0
    } else {
        count_outside(u.drop_last(), s) + if s.contains(u.last()) {
            0nat
        } else {
            1nat
        }
    }
}

/// Adding an element of `u` missing from `s` shrinks [`count_outside`].
pub proof fn lemma_count_outside_insert(u: Seq<BlockId>, s: Set<BlockId>, x: BlockId)
    ensures
        count_outside(u, s.insert(x)) <= count_outside(u, s),
        u.contains(x) && !s.contains(x) ==> count_outside(u, s.insert(x)) < count_outside(u, s),
    decreases u.len(),
{
    if u.len() > 0 {
        lemma_count_outside_insert(u.drop_last(), s, x);
        if u.contains(x) && !s.contains(x) && u.last() != x {
            let j = choose|j: int| 0 <= j < u.len() && u[j] == x;
            assert(u.drop_last()[j] == x);
        }
    }
}

/// `n` is reachable from some block of `seeds`.
pub open spec fn reached_from_any(edges: Seq<Edge>, seeds: Seq<BlockId>, n: BlockId) -> bool {
    exists|i: int| 0 <= i < seeds.len() && reaches(edges, #[trigger] seeds[i], n)
}

/// The blocks whose id is `id`: present iff some block carries it.
pub open spec fn has_block(blocks: Seq<BasicBlock>, id: BlockId) -> bool {
    exists|i: int| 0 <= i < blocks.len() && #[trigger] blocks[i].id == id
}

/// The ids a terminator can transfer control to.
pub open spec fn term_targets(t: Terminator) -> Seq<BlockId> {
    match t {
        Terminator::Jump(b) => seq![b],
        Terminator::Branch { then_, else_, .. } => seq![then_, else_],
        Terminator::Return(_) => Seq::empty(),
        Terminator::Unreachable => Seq::empty(),
    }
}

/// The structural well-formedness [`CFG::validate`] checks.
pub open spec fn cfg_valid(cfg: CFG) -> bool {
    &&& has_block(cfg.blocks@, cfg.entry)
    &&& forall|k: int|
        0 <= k < cfg.edges@.len() ==> has_block(cfg.blocks@, #[trigger] cfg.edges@[k].from)
            && has_block(cfg.blocks@, cfg.edges@[k].to)
    &&& forall|i: int, j: int|
        0 <= i < cfg.blocks@.len() && 0 <= j < term_targets(cfg.blocks@[i].term).len() ==> {
            &&& has_block(cfg.blocks@, #[trigger] term_targets(cfg.blocks@[i].term)[j])
            &&& has_edge(cfg.edges@, cfg.blocks@[i].id, term_targets(cfg.blocks@[i].term)[j])
        }
}

/// The position of `id` among `blocks`, if some block carries it.
pub(crate) fn find_block(blocks: &Vec<BasicBlock>, id: BlockId) -> (r: Option<usize>)
    ensures
        r is None <==> !has_block(blocks@, id),
        r matches Some(i) ==> i < blocks.len() && blocks@[i as int].id == id,
        r matches Some(i) ==> forall|k: int| 0 <= k < i ==> blocks@[k].id != id,
{
    let mut i: usize = 0;
    while i < blocks.len()
        invariant
            i <= blocks.len(),
            forall|k: int| 0 <= k < i ==> blocks@[k].id != id,
        decreases blocks.len() - i,
    {
        if blocks[i].id == id {
            return Some(i);
        }
        i = i + 1;
    }
    None
}

impl CFG {
    /// Blocks are kept in strictly ascending id order, as a map keyed by id
    /// iterates them.
    pub open spec fn blocks_wf(&self) -> bool {
        forall|i: int, j: int|
            0 <= i < j < self.blocks@.len() ==> self.blocks@[i].id < self.blocks@[j].id
    }

    /// Every edge joins two blocks of the graph.
    pub open spec fn edges_closed(&self) -> bool {
        forall|k: int|
            0 <= k < self.edges@.len() ==> has_block(self.blocks@, #[trigger] self.edges@[k].from)
                && has_block(self.blocks@, self.edges@[k].to)
    }

    /// A message that names a block id: `before`, the id in decimal, `after`.
    fn id_message(before: &str, id: BlockId, after: &str) -> (r: String)
        ensures
            r@ == before@ + decimal(id as nat) + after@,
    {
        let mut m = String::from_str(before);
        let digits = decimal_string(id);
        m.append(digits.as_str());
        m.append(after);
        m
    }

    /// `true` iff some edge goes from `from` to `to`.
    fn has_edge_exec(&self, from: BlockId, to: BlockId) -> (r: bool)
        ensures
            r <==> has_edge(self.edges@, from, to),
    {
        let mut k: usize = 0;
        while k < self.edges.len()
            invariant
                k <= self.edges.len(),
                forall|q: int| 0 <= q < k ==> !(#[trigger] self.edges@[q].from == from && self.edges@[q].to == to),
            decreases self.edges.len() - k,
        {
            if self.edges[k].from == from && self.edges[k].to == to {
                return true;
            }
            k = k + 1;
        }
        false
    }

    /// Check the structural invariants every pass relies on: the entry block
    /// exists, every edge joins two existing blocks, and every terminator
    /// target exists and has the edge that makes the engine visit it. A
    /// target without its edge is code the worklist never enters.
    pub fn validate(&self) -> (r: Result<(), String>)
        ensures
            r is Ok <==> cfg_valid(*self),
    {
        proof { reveal_strlit(""); }
        if find_block(&self.blocks, self.entry).is_none() {
            return Err(Self::id_message("entry block ", self.entry, " is missing"));
        }
        let mut k: usize = 0;
        while k < self.edges.len()
            invariant
                k <= self.edges.len(),
                forall|q: int|
                    0 <= q < k ==> has_block(self.blocks@, #[trigger] self.edges@[q].from)
                        && has_block(self.blocks@, self.edges@[q].to),
            decreases self.edges.len() - k,
        {
            let e = self.edges[k];
            if find_block(&self.blocks, e.from).is_none() {
                return Err(Self::id_message("edge from missing block ", e.from, ""));
            }
            if find_block(&self.blocks, e.to).is_none() {
                return Err(Self::id_message("edge to missing block ", e.to, ""));
            }
            assert(has_block(self.blocks@, self.edges@[k as int].from));
            assert(has_block(self.blocks@, self.edges@[k as int].to));
            assert forall|q: int| 0 <= q < k + 1 implies has_block(self.blocks@, #[trigger] self.edges@[q].from)
                && has_block(self.blocks@, self.edges@[q].to) by {
                if q == k {
                    assert(self.edges@[q] == e);
                }
            }
            k = k + 1;
        }
        let mut i: usize = 0;
        while i < self.blocks.len()
            invariant
                i <= self.blocks.len(),
                has_block(self.blocks@, self.entry),
                forall|q: int|
                    0 <= q < self.edges@.len() ==> has_block(self.blocks@, #[trigger] self.edges@[q].from)
                        && has_block(self.blocks@, self.edges@[q].to),
                forall|a: int, j: int|
                    0 <= a < i && 0 <= j < term_targets(self.blocks@[a].term).len() ==> {
                        &&& has_block(self.blocks@, #[trigger] term_targets(self.blocks@[a].term)[j])
                        &&& has_edge(self.edges@, self.blocks@[a].id, term_targets(self.blocks@[a].term)[j])
                    },
            decreases self.blocks.len() - i,
        {
            let id = self.blocks[i].id;
            let targets: Vec<BlockId> = match &self.blocks[i].term {
                Terminator::Jump(t) => vec![*t],
                Terminator::Branch { then_, else_, .. } => vec![*then_, *else_],
                Terminator::Return(_) => Vec::new(),
                Terminator::Unreachable => Vec::new(),
            };
            assert(targets@ =~= term_targets(self.blocks@[i as int].term));
            let mut j: usize = 0;
            while j < targets.len()
                invariant
                    i < self.blocks.len(),
                    id == self.blocks@[i as int].id,
                    targets@ == term_targets(self.blocks@[i as int].term),
                    j <= targets.len(),
                    forall|jj: int|
                        0 <= jj < j ==> {
                            &&& has_block(self.blocks@, #[trigger] targets@[jj])
                            &&& has_edge(self.edges@, id, targets@[jj])
                        },
                decreases targets.len() - j,
            {
                let t = targets[j];
                if find_block(&self.blocks, t).is_none() {
                    let mut m = Self::id_message("block ", id, " targets missing block ");
                    let digits = decimal_string(t);
                    m.append(digits.as_str());
                    return Err(m);
                }
                if !self.has_edge_exec(id, t) {
                    let mut m = Self::id_message("block ", id, " targets ");
                    let digits = decimal_string(t);
                    m.append(digits.as_str());
                    m.append(" with no edge");
                    return Err(m);
                }
                j = j + 1;
            }
            i = i + 1;
        }
        Ok(())
    }


    /// Targets of the edges leaving `block_id`, in edge order.
    pub fn successors(&self, block_id: BlockId) -> (r: Vec<BlockId>)
        ensures
            r@ == targets_from(self.edges@, block_id),
    {
        let mut r: Vec<BlockId> = Vec::new();
        let mut k: usize = 0;
        while k < self.edges.len()
            invariant
                0 <= k <= self.edges@.len(),
                r@ == targets_from(self.edges@.subrange(0, k as int), block_id),
            decreases self.edges@.len() - k,
        {
            let e = self.edges[k];
            assert(self.edges@.subrange(0, k + 1).drop_last() =~= self.edges@.subrange(
                0,
                k as int,
            ));
            if e.from == block_id {
                r.push(e.to);
            }
            k = k + 1;
        }
        assert(self.edges@.subrange(0, self.edges@.len() as int) =~= self.edges@);
        r
    }

    /// Sources of the edges entering `block_id`, in edge order.
    pub fn predecessors(&self, block_id: BlockId) -> (r: Vec<BlockId>)
        ensures
            r@ == sources_into(self.edges@, block_id),
    {
        let mut r: Vec<BlockId> = Vec::new();
        let mut k: usize = 0;
        while k < self.edges.len()
            invariant
                0 <= k <= self.edges@.len(),
                r@ == sources_into(self.edges@.subrange(0, k as int), block_id),
            decreases self.edges@.len() - k,
        {
            let e = self.edges[k];
            assert(self.edges@.subrange(0, k + 1).drop_last() =~= self.edges@.subrange(
                0,
                k as int,
            ));
            if e.to == block_id {
                r.push(e.from);
            }
            k = k + 1;
        }
        assert(self.edges@.subrange(0, self.edges@.len() as int) =~= self.edges@);
        r
    }

    /// Everything reachable from some block of `seeds`, seeds included.
    pub(crate) fn closure_from(&self, seeds: Vec<BlockId>) -> (r: HashSet<BlockId>)
        ensures
            forall|n: BlockId| r@.contains(n) <==> reached_from_any(self.edges@, seeds@, n),
    {
        let ghost edges = self.edges@;
        let ghost u: Seq<BlockId> = seeds@ + edges.map_values(|e: Edge| e.to);
        let ghost seeds0 = seeds@;
        let mut seen: HashSet<BlockId> = HashSet::new();
        let mut stack: Vec<BlockId> = seeds;
        proof {
            assert forall|j: int| 0 <= j < stack@.len() implies reached_from_any(
                edges,
                seeds0,
                #[trigger] stack@[j],
            ) by {
                lemma_reaches_refl(edges, stack@[j]);
                assert(reaches(edges, seeds0[j], stack@[j]));
            }
            assert forall|j: int| 0 <= j < stack@.len() implies u.contains(#[trigger] stack@[j]) by {
                assert(u[j] == stack@[j]);
            }
        }
        while stack.len() > 0
            invariant
                edges == self.edges@,
                u == seeds0 + edges.map_values(|e: Edge| e.to),
                forall|j: int| 0 <= j < stack@.len() ==> u.contains(#[trigger] stack@[j]),
                forall|n: BlockId| #[trigger] seen@.contains(n) ==> u.contains(n),
                forall|n: BlockId| #[trigger] seen@.contains(n) ==> reached_from_any(edges, seeds0, n),
                forall|j: int|
                    0 <= j < stack@.len() ==> reached_from_any(edges, seeds0, #[trigger] stack@[j]),
                forall|x: BlockId, y: BlockId|
                    seen@.contains(x) && has_edge(edges, x, y) ==> seen@.contains(y)
                        || stack@.contains(y),
                forall|i: int|
                    0 <= i < seeds0.len() ==> seen@.contains(#[trigger] seeds0[i])
                        || stack@.contains(seeds0[i]),
            decreases count_outside(u, seen@), stack@.len(),
        {
            let ghost stack0 = stack@;
            let id = stack.pop().unwrap();
            assert(stack0 == stack@.push(id));
            assert(stack0[stack0.len() - 1] == id);
            assert forall|y: BlockId| stack0.contains(y) && y != id implies stack@.contains(y) by {
                let j = choose|j: int| 0 <= j < stack0.len() && stack0[j] == y;
                assert(stack@[j] == y);
            }
            if seen.contains(&id) {
                continue;
            }
            let ghost seen0 = seen@;
            seen.insert(id);
            proof {
                assert(u.contains(id));
                lemma_count_outside_insert(u, seen0, id);
                assert(reached_from_any(edges, seeds0, id));
            }
            let succ = self.successors(id);
            proof {
                lemma_targets_from(edges, id);
            }
            let ghost stack1 = stack@;
            let mut k: usize = 0;
            while k < succ.len()
                invariant
                    edges == self.edges@,
                    u == seeds0 + edges.map_values(|e: Edge| e.to),
                    succ@ == targets_from(edges, id),
                    forall|x: BlockId|
                        targets_from(edges, id).contains(x) <==> has_edge(edges, id, x),
                    reached_from_any(edges, seeds0, id),
                    0 <= k <= succ@.len(),
                    stack@ == stack1 + succ@.subrange(0, k as int),
                    forall|j: int| 0 <= j < stack@.len() ==> u.contains(#[trigger] stack@[j]),
                    forall|j: int|
                        0 <= j < stack@.len() ==> reached_from_any(
                            edges,
                            seeds0,
                            #[trigger] stack@[j],
                        ),
                decreases succ@.len() - k,
            {
                let s = succ[k];
                proof {
                    assert(succ@.contains(s));
                    assert(has_edge(edges, id, s));
                    let kk = choose|kk: int|
                        0 <= kk < edges.len() && #[trigger] edges[kk].from == id && edges[kk].to
                            == s;
                    assert(edges.map_values(|e: Edge| e.to)[kk] == s);
                    assert(u[seeds0.len() + kk] == s);
                    let i0 = choose|i: int|
                        0 <= i < seeds0.len() && reaches(edges, #[trigger] seeds0[i], id);
                    lemma_reaches_step(edges, seeds0[i0], id, s);
                    assert(reached_from_any(edges, seeds0, s));
                }
                stack.push(s);
                proof {
                    assert(succ@.subrange(0, k + 1) =~= succ@.subrange(0, k as int).push(s));
                    assert(stack@[stack@.len() - 1] == s);
                }
                k = k + 1;
            }
            proof {
                assert(succ@.subrange(0, succ@.len() as int) =~= succ@);
                assert forall|x: BlockId, y: BlockId|
                    seen@.contains(x) && has_edge(edges, x, y) implies seen@.contains(y)
                    || stack@.contains(y) by {
                    if x == id {
                        assert(succ@.contains(y));
                        let j = choose|j: int| 0 <= j < succ@.len() && succ@[j] == y;
                        assert(stack@[stack1.len() + j] == y);
                    } else {
                        assert(seen0.contains(x));
                        if !seen@.contains(y) {
                            assert(stack0.contains(y));
                            assert(y != id);
                            assert(stack1.contains(y));
                            let j = choose|j: int| 0 <= j < stack1.len() && stack1[j] == y;
                            assert(stack@[j] == y);
                        }
                    }
                }
                assert forall|i: int| 0 <= i < seeds0.len() implies seen@.contains(
                    #[trigger] seeds0[i],
                ) || stack@.contains(seeds0[i]) by {
                    if !seen@.contains(seeds0[i]) {
                        assert(stack0.contains(seeds0[i]));
                        assert(stack1.contains(seeds0[i]));
                        let j = choose|j: int| 0 <= j < stack1.len() && stack1[j] == seeds0[i];
                        assert(stack@[j] == seeds0[i]);
                    }
                }
            }
        }
        proof {
            assert forall|n: BlockId| reached_from_any(edges, seeds0, n) implies seen@.contains(n) by {
                let i = choose|i: int| 0 <= i < seeds0.len() && reaches(edges, #[trigger] seeds0[i], n);
                lemma_closed_contains_reachable(edges, seen@, seeds0[i], n);
            }
        }
        seen
    }

    /// Blocks reachable from [`CFG::entry`] by following edges.
    pub fn reachable_blocks(&self) -> (r: HashSet<BlockId>)
        ensures
            forall|n: BlockId| r@.contains(n) <==> reaches(self.edges@, self.entry, n),
    {
        let mut seeds: Vec<BlockId> = Vec::new();
        seeds.push(self.entry);
        let r = self.closure_from(seeds);
        proof {
            assert forall|n: BlockId| r@.contains(n) <==> reaches(self.edges@, self.entry, n) by {
                if reaches(self.edges@, self.entry, n) {
                    assert(seq![self.entry][0] == self.entry);
                }
            }
        }
        r
    }

    /// Blocks separated from the entry by at least one `await` in this body:
    /// everything reachable from the target of an `Await` edge.
    pub fn post_await_blocks(&self) -> (r: HashSet<BlockId>)
        ensures
            forall|n: BlockId|
                r@.contains(n) <==> exists|k: int|
                    0 <= k < self.edges@.len() && #[trigger] self.edges@[k].kind == EdgeKind::Await
                        && reaches(self.edges@, self.edges@[k].to, n),
    {
        let mut seeds: Vec<BlockId> = Vec::new();
        let mut k: usize = 0;
        while k < self.edges.len()
            invariant
                0 <= k <= self.edges@.len(),
                seeds@ == await_targets(self.edges@.subrange(0, k as int)),
            decreases self.edges@.len() - k,
        {
            let e = self.edges[k];
            assert(self.edges@.subrange(0, k + 1).drop_last() =~= self.edges@.subrange(
                0,
                k as int,
            ));
            if e.kind == EdgeKind::Await {
                seeds.push(e.to);
            }
            k = k + 1;
        }
        assert(self.edges@.subrange(0, self.edges@.len() as int) =~= self.edges@);
        proof {
            lemma_await_targets(self.edges@);
        }
        let ghost s = seeds@;
        let r = self.closure_from(seeds);
        proof {
            assert forall|n: BlockId| r@.contains(n) <==> exists|k: int|
                0 <= k < self.edges@.len() && #[trigger] self.edges@[k].kind == EdgeKind::Await
                    && reaches(self.edges@, self.edges@[k].to, n) by {
                if r@.contains(n) {
                    let i = choose|i: int|
                        0 <= i < s.len() && reaches(self.edges@, #[trigger] s[i], n);
                    assert(s == await_targets(self.edges@));
                    assert(s.contains(s[i]));
                    let j = choose|j: int|
                        0 <= j < self.edges@.len() && #[trigger] self.edges@[j].kind == EdgeKind::Await
                            && self.edges@[j].to == s[i];
                    assert(reaches(self.edges@, self.edges@[j].to, n));
                }
                if exists|k: int|
                    0 <= k < self.edges@.len() && #[trigger] self.edges@[k].kind == EdgeKind::Await
                        && reaches(self.edges@, self.edges@[k].to, n) {
                    let k = choose|k: int|
                        0 <= k < self.edges@.len() && #[trigger] self.edges@[k].kind
                            == EdgeKind::Await && reaches(self.edges@, self.edges@[k].to, n);
                    assert(s.contains(self.edges@[k].to));
                    let i = choose|i: int| 0 <= i < s.len() && s[i] == self.edges@[k].to;
                    assert(reaches(self.edges@, s[i], n));
                }
            }
        }
        r
    }
}

} // verus!
