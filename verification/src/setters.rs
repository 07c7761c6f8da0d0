//! The slot-writer vocabulary: which body a state write sits in, when it can
//! run, through which inlined wrappers it was reached, and the forward
//! reachability the same-tick question is answered by.
use std::collections::HashSet;
use std::sync::Arc;

use vstd::prelude::*;

use crate::cfg::{BasicBlock, has_block, has_edge, reached_from_any, reaches, targets_from, lemma_targets_from, CFG};
use crate::expr::Expr;
use crate::source_range::SourceRange;
use crate::stmt::Stmt;
use crate::types::{BlockId, HookLabel, Symbol, Var};

verus! {

broadcast use vstd::std_specs::hash::group_hash_axioms;

/// A setter call found in a body: the setter variable, a witness span, the
/// block it was found in (`None` inside a nested function body, where
/// dominance is unknowable), and the phase class of the retained site.
#[derive(Debug, Clone)]
pub struct SetterCall {
    pub var: Var,
    pub span: Option<SourceRange>,
    pub block_id: Option<BlockId>,
    pub class: SetterCallPhase,
}

/// The externally visible half of the walk's phase classification.
#[derive(Debug, Clone, Copy, PartialEq, Eq, Structural)]
pub enum SetterCallPhase {
    /// Runs when the enclosing body runs.
    Sync,
    /// Runs only on an external event.
    Handler,
    /// Deferred, in a cleanup, or unclassified.
    Other,
}

/// The phase class a write site is found under by the setter walk.
#[derive(Debug, Clone, Copy, PartialEq, Eq, Structural)]
pub enum WalkClass {
    /// Synchronous in the walked body.
    Sync,
    /// Proved deferred by a callee summary.
    Deferred,
    /// A listener registered on an event target.
    Handler,
    /// An effect's returned cleanup function.
    Cleanup,
    /// Nested under an unknown callee: may run in any phase.
    Unknown,
}

impl SetterCallPhase {
    /// The externally visible phase of a walk class.
    pub fn from_class(c: WalkClass) -> (r: SetterCallPhase)
        ensures
            r == match c {
                WalkClass::Sync => SetterCallPhase::Sync,
                WalkClass::Handler => SetterCallPhase::Handler,
                _ => SetterCallPhase::Other,
            },
    {
        match c {
            WalkClass::Sync => SetterCallPhase::Sync,
            WalkClass::Handler => SetterCallPhase::Handler,
            _ => SetterCallPhase::Other,
        }
    }
}

/// Lexical region a write sits in: which body of the component holds it.
#[derive(Debug, Clone, Copy, PartialEq, Eq, Structural)]
pub enum WriterRegion {
    Render,
    Effect(HookLabel),
    Memo(HookLabel),
    Callback(HookLabel),
    Handler(HookLabel),
}

/// The word a region is printed as.
pub open spec fn region_word(r: WriterRegion) -> Seq<char> {
    match r {
        WriterRegion::Render => seq!['r', 'e', 'n', 'd', 'e', 'r'],
        WriterRegion::Effect(_) => seq!['e', 'f', 'f', 'e', 'c', 't'],
        WriterRegion::Memo(_) => seq!['m', 'e', 'm', 'o'],
        WriterRegion::Callback(_) => seq!['c', 'a', 'l', 'l', 'b', 'a', 'c', 'k'],
        WriterRegion::Handler(_) => seq!['h', 'a', 'n', 'd', 'l', 'e', 'r'],
    }
}

impl WriterRegion {
    /// The word rules and templates print.
    pub fn word(self) -> (r: &'static str)
        ensures
            r@ == region_word(self),
    {
        proof {
            reveal_strlit("render");
            reveal_strlit("effect");
            reveal_strlit("memo");
            reveal_strlit("callback");
            reveal_strlit("handler");
        }
        let r = match self {
            WriterRegion::Render => "render",
            WriterRegion::Effect(_) => "effect",
            WriterRegion::Memo(_) => "memo",
            WriterRegion::Callback(_) => "callback",
            WriterRegion::Handler(_) => "handler",
        };
        assert(r@ =~= region_word(self));
        r
    }

    /// The phase of a write that runs synchronously in this region.
    pub fn sync_phase(self) -> (r: WriterPhase)
        ensures
            r == match self {
                WriterRegion::Render => WriterPhase::Render,
                WriterRegion::Effect(_) => WriterPhase::Effect,
                WriterRegion::Memo(_) => WriterPhase::Memo,
                WriterRegion::Callback(_) => WriterPhase::Callback,
                WriterRegion::Handler(_) => WriterPhase::Handler,
            },
    {
        match self {
            WriterRegion::Render => WriterPhase::Render,
            WriterRegion::Effect(_) => WriterPhase::Effect,
            WriterRegion::Memo(_) => WriterPhase::Memo,
            WriterRegion::Callback(_) => WriterPhase::Callback,
            WriterRegion::Handler(_) => WriterPhase::Handler,
        }
    }
}

/// Execution phase of a write, as far as it may be known: a write synchronous in its
/// body carries that body's phase; one under an unknown callee is `Unknown`.
#[derive(Debug, Clone, Copy, PartialEq, Eq, Structural)]
pub enum WriterPhase {
    Render,
    Effect,
    Memo,
    Callback,
    Handler,
    /// Proved deferred: the write never runs inside a React phase.
    Deferred,
    /// An effect's returned cleanup function.
    Cleanup,
    /// The write may run in any phase.
    Unknown,
}

/// The phase of a write found under walk class `class` in `region`.
pub fn class_phase(class: WalkClass, region: WriterRegion) -> (r: WriterPhase)
    ensures
        r == match class {
            WalkClass::Sync => match region {
                WriterRegion::Render => WriterPhase::Render,
                WriterRegion::Effect(_) => WriterPhase::Effect,
                WriterRegion::Memo(_) => WriterPhase::Memo,
                WriterRegion::Callback(_) => WriterPhase::Callback,
                WriterRegion::Handler(_) => WriterPhase::Handler,
            },
            WalkClass::Deferred => WriterPhase::Deferred,
            WalkClass::Handler => WriterPhase::Handler,
            WalkClass::Cleanup => WriterPhase::Cleanup,
            WalkClass::Unknown => WriterPhase::Unknown,
        },
{
    match class {
        WalkClass::Sync => region.sync_phase(),
        WalkClass::Deferred => WriterPhase::Deferred,
        WalkClass::Handler => WriterPhase::Handler,
        WalkClass::Cleanup => WriterPhase::Cleanup,
        WalkClass::Unknown => WriterPhase::Unknown,
    }
}

/// Argument 0 of a write: a proven function literal (its body kept), or
/// anything else.
#[derive(Debug, Clone)]
pub enum Updater {
    Functional(Arc<CFG>),
    Unknown,
}

impl Updater {
    /// `true` iff the write is a proven functional update.
    pub fn is_functional(&self) -> (r: bool)
        ensures
            r <==> self is Functional,
    {
        match self {
            Updater::Functional(_) => true,
            Updater::Unknown => false,
        }
    }
}

/// Provenance of one write site.
#[derive(Debug, Clone, PartialEq, Eq)]
pub enum WriteProvenance {
    /// Caller-authored: the site sits outside every recorded splice region.
    Direct,
    /// Reached through inlined wrappers, outermost first.
    Via(Vec<Symbol>),
    /// The site could not be placed; certifies nothing.
    Unknown,
}

/// One writer of a state slot, one row per call site.
#[derive(Debug, Clone)]
pub struct SlotWriter {
    pub slot: HookLabel,
    /// The setter variable at the call site.
    pub setter: Var,
    /// Witness call-site span.
    pub span: Option<SourceRange>,
    pub region: WriterRegion,
    pub phase: WriterPhase,
    pub via: WriteProvenance,
    pub updater: Updater,
    /// Another write of the same slot in this region may land in the same
    /// tick as this one.
    pub same_tick: bool,
}

/// One spliced-callee block range in a CFG: `start..end` are the callee's
/// blocks, `name` the callee's exported name, `from` the file the spliced
/// body came from, `parent` the region the call site itself sat in.
#[derive(Debug, Clone)]
pub struct InlineRegion {
    pub start: BlockId,
    pub end: BlockId,
    pub name: Symbol,
    pub from: String,
    pub parent: Option<usize>,
}

/// Every splice region of one component, per CFG.
#[derive(Debug, Clone)]
pub struct InlineRegions {
    /// Regions in the render CFG.
    pub render: Vec<InlineRegion>,
    /// Regions in a hook body CFG, by the owning hook's label.
    pub bodies: Vec<(HookLabel, Vec<InlineRegion>)>,
    /// A splice fell back to entry-block grafting: `Direct` is unprovable in
    /// the render CFG.
    pub render_poisoned: bool,
}

/// A region's parent was recorded before it: every parent index points to
/// an earlier region, so following parents ends.
pub open spec fn parents_precede(regions: Seq<InlineRegion>) -> bool {
    forall|i: int| 0 <= i < regions.len() ==> match #[trigger] regions[i].parent {
        Some(p) => p < i,
        None => true,
    }
}

/// The names along the parent chain of region `i`, outermost first.
pub open spec fn chain_names(regions: Seq<InlineRegion>, i: int) -> Seq<Seq<char>>
    decreases i,
    when 0 <= i < regions.len() && parents_precede(regions)
{
    match regions[i].parent {
        Some(p) => chain_names(regions, p as int).push(regions[i].name@),
        None => seq![regions[i].name@],
    }
}

/// The first region whose range holds `block`.
pub open spec fn first_holding(regions: Seq<InlineRegion>, block: BlockId) -> Option<int>
    decreases regions.len(),
{
    if regions.len() == 0 {
        None
    } else {
        match first_holding(regions.drop_last(), block) {
            Some(i) => Some(i),
            None => if regions.last().start <= block && block < regions.last().end {
                Some(regions.len() - 1)
            } else {
                None
            },
        }
    }
}

/// The regions recorded for body `label`: those of its first entry.
pub open spec fn body_regions(bodies: Seq<(HookLabel, Vec<InlineRegion>)>, label: HookLabel) -> Option<Seq<InlineRegion>>
    decreases bodies.len(),
{
    if bodies.len() == 0 {
        None
    } else if bodies[0].0 == label {
        Some(bodies[0].1@)
    } else {
        body_regions(bodies.drop_first(), label)
    }
}

/// The wrapper chain of a site at `block` among `regions`, outermost first;
/// empty outside every region.
pub open spec fn chain_spec(regions: Seq<InlineRegion>, block: BlockId) -> Seq<Seq<char>> {
    match first_holding(regions, block) {
        Some(i) => chain_names(regions, i),
        None => Seq::empty(),
    }
}

impl InlineRegions {
    /// Every region list keeps its parents before their children.
    pub open spec fn wf(&self) -> bool {
        &&& parents_precede(self.render@)
        &&& forall|k: int| 0 <= k < self.bodies.len() ==> parents_precede(#[trigger] self.bodies@[k].1@)
    }

    /// The wrapper chain for a site at `block` of the CFG `cfg` (`None` is
    /// the render CFG), outermost first; empty outside every region.
    pub fn chain(&self, cfg: Option<HookLabel>, block: BlockId) -> (r: Vec<Symbol>)
        requires
            self.wf(),
        ensures
            names_of(r@) == match cfg {
                None => chain_spec(self.render@, block),
                Some(l) => match body_regions(self.bodies@, l) {
                    Some(rs) => chain_spec(rs, block),
                    None => Seq::empty(),
                },
            },
    {
        let regions: &Vec<InlineRegion> = match cfg {
            None => &self.render,
            Some(label) => {
                let mut k: usize = 0;
                let mut found: Option<usize> = None;
                assert(self.bodies@.subrange(0, self.bodies@.len() as int) =~= self.bodies@);
                while found.is_none() && k < self.bodies.len()
                    invariant
                        k <= self.bodies.len(),
                        found is None ==> body_regions(self.bodies@, label) == body_regions(
                            self.bodies@.subrange(k as int, self.bodies@.len() as int),
                            label,
                        ),
                        found matches Some(j) ==> j < self.bodies.len() && body_regions(
                            self.bodies@,
                            label,
                        ) == Some(self.bodies@[j as int].1@),
                    decreases self.bodies.len() - k + (if found is None {
                        1int
                    } else {
                        0int
                    }),
                {
                    let ghost rest = self.bodies@.subrange(k as int, self.bodies@.len() as int);
                    assert(rest[0] == self.bodies@[k as int]);
                    assert(rest.drop_first() =~= self.bodies@.subrange(k + 1, self.bodies@.len() as int));
                    if self.bodies[k].0 == label {
                        found = Some(k);
                    } else {
                        k = k + 1;
                    }
                }
                match found {
                    Some(k) => &self.bodies[k].1,
                    None => {
                        let r: Vec<Symbol> = Vec::new();
                        assert(names_of(r@) =~= Seq::<Seq<char>>::empty());
                        return r;
                    },
                }
            },
        };
        assert(parents_precede(regions@));
        // At most one region holds the block; parents encode the nesting.
        let mut at: Option<usize> = None;
        let mut i: usize = 0;
        while at.is_none() && i < regions.len()
            invariant
                i <= regions.len(),
                at is None ==> first_holding(regions@.subrange(0, i as int), block) is None,
                at matches Some(j) ==> j < regions.len() && first_holding(regions@.subrange(0, j + 1), block) == Some(j as int),
            decreases regions.len() - i + (if at is None {
                1int
            } else {
                0int
            }),
        {
            assert(regions@.subrange(0, i + 1).drop_last() =~= regions@.subrange(0, i as int));
            if regions[i].start <= block && block < regions[i].end {
                at = Some(i);
            } else {
                i = i + 1;
            }
        }
        if at.is_none() {
            assert(regions@.subrange(0, regions@.len() as int) =~= regions@);
            let r: Vec<Symbol> = Vec::new();
            assert(names_of(r@) =~= Seq::<Seq<char>>::empty());
            return r;
        }
        let first = at.unwrap();
        proof {
            lemma_first_holding_prefix(regions@, first + 1, block);
        }
        // Innermost first while walking up, reversed at the end.
        let mut inner_first: Vec<Symbol> = Vec::new();
        let mut cur = first;
        let mut done = false;
        while !done
            invariant
                parents_precede(regions@),
                cur < regions.len(),
                first < regions.len(),
                !done ==> chain_names(regions@, first as int) == chain_names(regions@, cur as int)
                    + names_of(inner_first@).reverse(),
                done ==> chain_names(regions@, first as int) == names_of(inner_first@).reverse(),
            decreases (cur as int) + (if done {
                0int
            } else {
                1int
            }),
        {
            let ghost before = inner_first@;
            inner_first.push(regions[cur].name.clone());
            assert(names_of(inner_first@).reverse() =~= seq![regions@[cur as int].name@] + names_of(before).reverse());
            match regions[cur].parent {
                Some(p) => {
                    assert(chain_names(regions@, cur as int) == chain_names(regions@, p as int).push(regions@[cur as int].name@));
                    assert(chain_names(regions@, p as int).push(regions@[cur as int].name@) + names_of(before).reverse()
                        =~= chain_names(regions@, p as int) + names_of(inner_first@).reverse());
                    cur = p;
                },
                None => {
                    assert(chain_names(regions@, cur as int) == seq![regions@[cur as int].name@]);
                    done = true;
                },
            }
        }
        let mut chain: Vec<Symbol> = Vec::new();
        let mut k: usize = inner_first.len();
        while k > 0
            invariant
                k <= inner_first.len(),
                names_of(chain@) == names_of(inner_first@.subrange(k as int, inner_first@.len() as int)).reverse(),
            decreases k,
        {
            k = k - 1;
            let ghost before = chain@;
            chain.push(inner_first[k].clone());
            assert(names_of(inner_first@.subrange(k as int, inner_first@.len() as int)) =~= seq![inner_first@[k as int]@]
                + names_of(inner_first@.subrange(k + 1, inner_first@.len() as int)));
            assert(names_of(chain@) =~= names_of(before).push(inner_first@[k as int]@));
        }
        assert(inner_first@.subrange(0, inner_first@.len() as int) =~= inner_first@);
        chain
    }
}

/// The names of a list of symbols.
pub open spec fn names_of(v: Seq<Symbol>) -> Seq<Seq<char>> {
    v.map_values(|s: Symbol| s@)
}

/// The first holder among all regions is the first holder of the prefix
/// when the prefix has one, and otherwise lies past it.
proof fn lemma_first_holding_prefix(regions: Seq<InlineRegion>, i: int, block: BlockId)
    requires
        0 <= i <= regions.len(),
    ensures
        first_holding(regions.subrange(0, i), block) is Some ==> first_holding(regions, block)
            == first_holding(regions.subrange(0, i), block),
    decreases regions.len(),
{
    if i < regions.len() {
        assert(regions.drop_last().subrange(0, i) =~= regions.subrange(0, i));
        lemma_first_holding_prefix(regions.drop_last(), i, block);
    } else {
        assert(regions.subrange(0, i) =~= regions);
    }
}

/// Forward reachability within one CFG, computed once: for each block, every
/// block reachable from it along at least one edge. Starting at the
/// successors is what makes a block reach itself only through a cycle.
#[derive(Debug)]
pub struct Reachability {
    forward: Vec<(BlockId, HashSet<BlockId>)>,
}

/// The set recorded for `from`: that of its first entry.
pub open spec fn forward_of(forward: Seq<(BlockId, HashSet<BlockId>)>, from: BlockId) -> Option<Set<BlockId>>
    decreases forward.len(),
{
    if forward.len() == 0 {
        None
    } else if forward[0].0 == from {
        Some(forward[0].1@)
    } else {
        forward_of(forward.drop_first(), from)
    }
}

/// `to` is reachable from `from` along at least one edge.
pub open spec fn reaches_after_step(edges: Seq<crate::cfg::Edge>, from: BlockId, to: BlockId) -> bool {
    reached_from_any(edges, targets_from(edges, from), to)
}

impl Reachability {
    /// What the table answers for `(from, to)`.
    pub closed spec fn reaches_spec(&self, from: BlockId, to: BlockId) -> bool {
        match forward_of(self.forward@, from) {
            Some(set) => set.contains(to),
            None => false,
        }
    }

    /// The table of `cfg`: `from` reaches `to` iff `from` is a block of
    /// `cfg` and `to` is reachable from it along at least one edge.
    pub fn of(cfg: &CFG) -> (r: Reachability)
        ensures
            forall|from: BlockId, to: BlockId|
                #[trigger] r.reaches_spec(from, to) <==> has_block(cfg.blocks@, from)
                    && reaches_after_step(cfg.edges@, from, to),
    {
        let mut forward: Vec<(BlockId, HashSet<BlockId>)> = Vec::new();
        let mut i: usize = 0;
        while i < cfg.blocks.len()
            invariant
                i <= cfg.blocks.len(),
                forward.len() == i,
                forall|k: int|
                    0 <= k < i ==> #[trigger] forward@[k].0 == cfg.blocks@[k].id && forall|n: BlockId|
                        forward@[k].1@.contains(n) <==> reaches_after_step(cfg.edges@, cfg.blocks@[k].id, n),
            decreases cfg.blocks.len() - i,
        {
            let id = cfg.blocks[i].id;
            let succ = cfg.successors(id);
            let set = cfg.closure_from(succ);
            forward.push((id, set));
            i = i + 1;
        }
        let r = Reachability { forward };
        assert forall|from: BlockId, to: BlockId|
            #[trigger] r.reaches_spec(from, to) <==> has_block(cfg.blocks@, from) && reaches_after_step(cfg.edges@, from, to) by {
            lemma_forward_of(r.forward@, cfg.blocks@, cfg.edges@, from);
        }
        r
    }

    /// `true` iff `to` is reachable from `from` along at least one edge.
    pub fn reaches(&self, from: BlockId, to: BlockId) -> (r: bool)
        ensures
            r == self.reaches_spec(from, to),
    {
        let mut k: usize = 0;
        assert(self.forward@.subrange(0, self.forward@.len() as int) =~= self.forward@);
        while k < self.forward.len()
            invariant
                k <= self.forward.len(),
                forward_of(self.forward@, from) == forward_of(self.forward@.subrange(k as int, self.forward@.len() as int), from),
            decreases self.forward.len() - k,
        {
            let ghost rest = self.forward@.subrange(k as int, self.forward@.len() as int);
            assert(rest[0] == self.forward@[k as int]);
            assert(rest.drop_first() =~= self.forward@.subrange(k + 1, self.forward@.len() as int));
            if self.forward[k].0 == from {
                return self.forward[k].1.contains(&to);
            }
            k = k + 1;
        }
        false
    }
}

/// A table built entry by entry from the blocks answers as its first entry
/// for the id says.
proof fn lemma_forward_of(
    forward: Seq<(BlockId, HashSet<BlockId>)>,
    blocks: Seq<crate::cfg::BasicBlock>,
    edges: Seq<crate::cfg::Edge>,
    from: BlockId,
)
    requires
        forward.len() == blocks.len(),
        forall|k: int|
            0 <= k < forward.len() ==> #[trigger] forward[k].0 == blocks[k].id && forall|n: BlockId|
                forward[k].1@.contains(n) <==> reaches_after_step(edges, blocks[k].id, n),
    ensures
        match forward_of(forward, from) {
            Some(set) => has_block(blocks, from) && forall|n: BlockId| set.contains(n) <==> reaches_after_step(edges, from, n),
            None => !has_block(blocks, from),
        },
    decreases forward.len(),
{
    if forward.len() > 0 {
        assert(forward[0].0 == blocks[0].id);
        if forward[0].0 != from {
            lemma_forward_of(forward.drop_first(), blocks.drop_first(), edges, from);
            if has_block(blocks, from) {
                let i = choose|i: int| 0 <= i < blocks.len() && #[trigger] blocks[i].id == from;
                assert(blocks.drop_first()[i - 1].id == from);
            }
            if has_block(blocks.drop_first(), from) {
                let i = choose|i: int| 0 <= i < blocks.drop_first().len() && #[trigger] blocks.drop_first()[i].id == from;
                assert(blocks[i + 1].id == from);
            }
        } else {
            assert(blocks[0].id == from);
        }
    }
}

// ── Name → label tables ─────────────────────────────────────────────────────

/// `variable → hook label`, as pairs in which no variable occurs twice.
pub type LabelMap = Vec<(Var, HookLabel)>;

/// No variable occurs twice.
pub open spec fn label_wf(m: Seq<(Var, HookLabel)>) -> bool {
    forall|i: int, j: int| 0 <= i < j < m.len() ==> m[i].0@ != m[j].0@
}

/// The label of `v`, if the table has one.
pub open spec fn label_of(m: Seq<(Var, HookLabel)>, v: Seq<char>) -> Option<HookLabel>
    decreases m.len(),
{
    if m.len() == 0 {
        None
    } else if m.last().0@ == v {
        Some(m.last().1)
    } else {
        label_of(m.drop_last(), v)
    }
}

/// The label of `v` in a table.
pub fn get_label(m: &LabelMap, v: &Var) -> (r: Option<HookLabel>)
    ensures
        r == label_of(m@, v@),
{
    let mut k: usize = m.len();
    assert(m@.subrange(0, m@.len() as int) =~= m@);
    while k > 0
        invariant
            k <= m.len(),
            label_of(m@, v@) == label_of(m@.subrange(0, k as int), v@),
        decreases k,
    {
        let ghost pre = m@.subrange(0, k as int);
        assert(pre.drop_last() =~= m@.subrange(0, k - 1));
        if crate::text::str_eq(m[k - 1].0.as_str(), v.as_str()) {
            return Some(m[k - 1].1);
        }
        k = k - 1;
    }
    None
}

/// `true` iff `v` has an entry in `m` (a label-free lookup).
proof fn lemma_label_of_push(m: Seq<(Var, HookLabel)>, v: Var, l: HookLabel, x: Seq<char>)
    ensures
        label_of(m.push((v, l)), x) == if x == v@ {
            Some(l)
        } else {
            label_of(m, x)
        },
{
    assert(m.push((v, l)).drop_last() =~= m);
}

/// Give `v` the label `l`, replacing the label it had.
fn set_label(m: &mut LabelMap, v: &Var, l: HookLabel)
    requires
        label_wf(old(m)@),
    ensures
        label_wf(final(m)@),
        forall|x: Seq<char>| #[trigger] label_of(final(m)@, x) == if x == v@ {
            Some(l)
        } else {
            label_of(old(m)@, x)
        },
{
    let mut k: usize = 0;
    while k < m.len()
        invariant
            k <= m.len(),
            m@ == old(m)@,
            label_wf(old(m)@),
            forall|q: int| 0 <= q < k ==> m@[q].0@ != v@,
        decreases m.len() - k,
    {
        if crate::text::str_eq(m[k].0.as_str(), v.as_str()) {
            let ghost before = m@;
            let key = m[k].0.clone();
            m[k] = (key, l);
            assert(m@ == before.update(k as int, (before[k as int].0, l)));
            assert(label_wf(m@)) by {
                assert forall|i: int, j: int| 0 <= i < j < m@.len() implies m@[i].0@ != m@[j].0@ by {
                    assert(m@[i].0 == before[i].0);
                    assert(m@[j].0 == before[j].0);
                }
            }
            proof {
                assert forall|x: Seq<char>| #[trigger] label_of(m@, x) == if x == v@ {
                    Some(l)
                } else {
                    label_of(before, x)
                } by {
                    lemma_label_of_update(before, k as int, l, x);
                }
            }
            return;
        }
        k = k + 1;
    }
    let ghost before = m@;
    m.push((v.clone(), l));
    assert(label_wf(m@)) by {
        assert forall|i: int, j: int| 0 <= i < j < m@.len() implies m@[i].0@ != m@[j].0@ by {
            if j == m@.len() - 1 {
                assert(m@[i] == before[i]);
            }
        }
    }
    proof {
        assert forall|x: Seq<char>| #[trigger] label_of(m@, x) == if x == v@ {
            Some(l)
        } else {
            label_of(before, x)
        } by {
            lemma_label_of_push(before, m@.last().0, l, x);
        }
    }
}

/// Replacing the label of entry `k` (whose variable occurs nowhere else)
/// changes the lookup of that variable only.
proof fn lemma_label_of_update(m: Seq<(Var, HookLabel)>, k: int, l: HookLabel, x: Seq<char>)
    requires
        0 <= k < m.len(),
        label_wf(m),
    ensures
        label_of(m.update(k, (m[k].0, l)), x) == if x == m[k].0@ {
            Some(l)
        } else {
            label_of(m, x)
        },
    decreases m.len(),
{
    let u = m.update(k, (m[k].0, l));
    if k == m.len() - 1 {
        assert(u.drop_last() =~= m.drop_last());
        if x != m[k].0@ {
            assert(label_of(u, x) == label_of(u.drop_last(), x));
        }
    } else {
        assert(u.drop_last() =~= m.drop_last().update(k, (m[k].0, l)));
        lemma_label_of_update(m.drop_last(), k, l, x);
        assert(u.last() == m.last());
        if m.last().0@ == x {
            assert(x != m[k].0@);
        }
    }
}

/// Which hook-bound values a binding table collects.
#[derive(Debug, Clone, Copy, PartialEq, Eq, Structural)]
pub enum BindingKind {
    /// The setter of a `useState`.
    Setter,
    /// The value of a `useState`.
    StateValue,
    /// The value of a `useMemo` or `useCallback`.
    MemoValue,
    /// The value of any hook: state, memo, callback, or any other hook's
    /// marked result.
    HookValue,
}

/// The label a `let` of `rhs` binds for `kind`, if any.
pub open spec fn picked(kind: BindingKind, rhs: Expr) -> Option<HookLabel> {
    match kind {
        BindingKind::Setter => match rhs {
            Expr::StateSetter(l) => Some(l),
            _ => None,
        },
        BindingKind::StateValue => match rhs {
            Expr::StateVal(l) => Some(l),
            _ => None,
        },
        BindingKind::MemoValue => match rhs {
            Expr::MemoVal(l) => Some(l),
            Expr::CallbackVal(l) => Some(l),
            _ => None,
        },
        BindingKind::HookValue => match rhs {
            Expr::StateVal(l) => Some(l),
            Expr::MemoVal(l) => Some(l),
            Expr::CallbackVal(l) => Some(l),
            Expr::HookMarker(l, _) => Some(l),
            _ => None,
        },
    }
}

/// The label `kind` picks from `rhs`.
fn pick(kind: BindingKind, rhs: &Expr) -> (r: Option<HookLabel>)
    ensures
        r == picked(kind, *rhs),
{
    match kind {
        BindingKind::Setter => match rhs {
            Expr::StateSetter(l) => Some(*l),
            _ => None,
        },
        BindingKind::StateValue => match rhs {
            Expr::StateVal(l) => Some(*l),
            _ => None,
        },
        BindingKind::MemoValue => match rhs {
            Expr::MemoVal(l) => Some(*l),
            Expr::CallbackVal(l) => Some(*l),
            _ => None,
        },
        BindingKind::HookValue => match rhs {
            Expr::StateVal(l) => Some(*l),
            Expr::MemoVal(l) => Some(*l),
            Expr::CallbackVal(l) => Some(*l),
            Expr::HookMarker(l, _) => Some(*l),
            _ => None,
        },
    }
}

/// The table the `let`s of `stmts` build for `kind`, in order: a later
/// binding of a variable replaces an earlier one.
pub open spec fn bindings_in(stmts: Seq<Stmt>, kind: BindingKind, m: Map<Seq<char>, HookLabel>) -> Map<Seq<char>, HookLabel>
    decreases stmts.len(),
{
    if stmts.len() == 0 {
        m
    } else {
        let next = match stmts[0] {
            Stmt::Let { var, rhs, .. } => match picked(kind, rhs) {
                Some(l) => m.insert(var@, l),
                None => m,
            },
            _ => m,
        };
        bindings_in(stmts.drop_first(), kind, next)
    }
}

/// The table the blocks of a CFG build, block after block.
pub open spec fn bindings_in_blocks(blocks: Seq<BasicBlock>, kind: BindingKind, m: Map<Seq<char>, HookLabel>) -> Map<Seq<char>, HookLabel>
    decreases blocks.len(),
{
    if blocks.len() == 0 {
        m
    } else {
        bindings_in_blocks(blocks.drop_first(), kind, bindings_in(blocks[0].stmts@, kind, m))
    }
}

/// The table of a label map, as a map.
pub open spec fn label_table(m: Seq<(Var, HookLabel)>) -> Map<Seq<char>, HookLabel> {
    Map::new(|x: Seq<char>| label_of(m, x) is Some, |x: Seq<char>| label_of(m, x)->0)
}

/// `var → label` for every `let var = <hook-bound value>` of `kind` in
/// `cfg`, blocks in order; a later binding of a variable wins.
pub fn state_binding_labels(cfg: &CFG, kind: BindingKind) -> (r: LabelMap)
    ensures
        label_wf(r@),
        label_table(r@) == bindings_in_blocks(cfg.blocks@, kind, Map::empty()),
{
    let mut m: LabelMap = Vec::new();
    let mut i: usize = 0;
    assert(label_table(m@) =~= Map::<Seq<char>, HookLabel>::empty());
    assert(cfg.blocks@.subrange(0, cfg.blocks@.len() as int) =~= cfg.blocks@);
    while i < cfg.blocks.len()
        invariant
            i <= cfg.blocks.len(),
            label_wf(m@),
            bindings_in_blocks(cfg.blocks@, kind, Map::empty()) == bindings_in_blocks(
                cfg.blocks@.subrange(i as int, cfg.blocks@.len() as int),
                kind,
                label_table(m@),
            ),
        decreases cfg.blocks.len() - i,
    {
        let ghost start = label_table(m@);
        let ghost rest = cfg.blocks@.subrange(i as int, cfg.blocks@.len() as int);
        assert(rest[0] == cfg.blocks@[i as int]);
        assert(rest.drop_first() =~= cfg.blocks@.subrange(i + 1, cfg.blocks@.len() as int));
        let ghost stmts = cfg.blocks@[i as int].stmts@;
        let mut j: usize = 0;
        assert(stmts.subrange(0, stmts.len() as int) =~= stmts);
        while j < cfg.blocks[i].stmts.len()
            invariant
                i < cfg.blocks.len(),
                stmts == cfg.blocks@[i as int].stmts@,
                j <= stmts.len(),
                label_wf(m@),
                bindings_in(stmts, kind, start) == bindings_in(
                    stmts.subrange(j as int, stmts.len() as int),
                    kind,
                    label_table(m@),
                ),
            decreases stmts.len() - j,
        {
            let ghost srest = stmts.subrange(j as int, stmts.len() as int);
            assert(srest[0] == stmts[j as int]);
            assert(srest.drop_first() =~= stmts.subrange(j + 1, stmts.len() as int));
            if let Stmt::Let { var, rhs, .. } = &cfg.blocks[i].stmts[j] {
                match pick(kind, rhs) {
                    Some(l) => {
                        let ghost before = label_table(m@);
                        set_label(&mut m, var, l);
                        assert(label_table(m@) =~= before.insert(var@, l));
                    },
                    None => {},
                }
            }
            j = j + 1;
        }
        i = i + 1;
    }
    m
}

/// `var → state label` for every `let var = <state setter>` in `cfg`.
pub fn setter_var_labels(cfg: &CFG) -> (r: LabelMap)
    ensures
        label_wf(r@),
        label_table(r@) == bindings_in_blocks(cfg.blocks@, BindingKind::Setter, Map::empty()),
{
    state_binding_labels(cfg, BindingKind::Setter)
}

/// `var → state label` for every `let var = <state value>` in `cfg`.
pub fn state_val_labels(cfg: &CFG) -> (r: LabelMap)
    ensures
        label_wf(r@),
        label_table(r@) == bindings_in_blocks(cfg.blocks@, BindingKind::StateValue, Map::empty()),
{
    state_binding_labels(cfg, BindingKind::StateValue)
}

/// `var → memo label` for every `let var = useMemo/useCallback(...)` in
/// `cfg`.
pub fn memo_val_labels(cfg: &CFG) -> (r: LabelMap)
    ensures
        label_wf(r@),
        label_table(r@) == bindings_in_blocks(cfg.blocks@, BindingKind::MemoValue, Map::empty()),
{
    state_binding_labels(cfg, BindingKind::MemoValue)
}

/// `var → hook label` for every `let var = <hook call>` in `cfg`, whatever
/// the kind of hook.
pub fn hook_val_labels(cfg: &CFG) -> (r: LabelMap)
    ensures
        label_wf(r@),
        label_table(r@) == bindings_in_blocks(cfg.blocks@, BindingKind::HookValue, Map::empty()),
{
    state_binding_labels(cfg, BindingKind::HookValue)
}

// ── Setter aliases ──────────────────────────────────────────────────────────

/// `s` is `let var = src` or `var = src`, `src` a variable.
pub open spec fn is_alias_stmt(s: Stmt, var: Seq<char>, src: Seq<char>) -> bool {
    match s {
        Stmt::Let { var: v, rhs: Expr::Var(x), .. } => v@ == var && x@ == src,
        Stmt::Assign { var: v, rhs: Expr::Var(x), .. } => v@ == var && x@ == src,
        _ => false,
    }
}

/// Some statement of `cfg` makes `var` an alias of `src`.
pub open spec fn aliases_to(cfg: CFG, var: Seq<char>, src: Seq<char>) -> bool {
    exists|i: int, j: int|
        0 <= i < cfg.blocks.len() && 0 <= j < cfg.blocks@[i].stmts.len() && is_alias_stmt(
            #[trigger] cfg.blocks@[i].stmts@[j],
            var,
            src,
        )
}

/// The alias pairs as plain names.
pub open spec fn pair_names(p: (Var, Var)) -> (Seq<char>, Seq<char>) {
    (p.0@, p.1@)
}

/// How many alias statements of `aliases` still have an unlabelled target.
pub open spec fn unmapped(aliases: Seq<(Var, Var)>, m: Seq<(Var, HookLabel)>) -> nat
    decreases aliases.len(),
{
    if aliases.len() == 0 {
        0
    } else {
        unmapped(aliases.drop_last(), m) + if label_of(m, aliases.last().0@) is None {
            1nat
        } else {
            0nat
        }
    }
}

/// `m2` keeps every label of `m1`.
pub open spec fn grows(m1: Seq<(Var, HookLabel)>, m2: Seq<(Var, HookLabel)>) -> bool {
    forall|v: Seq<char>| #[trigger] label_of(m1, v) is Some ==> label_of(m2, v) == label_of(m1, v)
}

/// A table that only grows leaves no more targets unlabelled, and one fewer
/// for a target it newly labels.
proof fn lemma_unmapped_grows(
    aliases: Seq<(Var, Var)>,
    m1: Seq<(Var, HookLabel)>,
    m2: Seq<(Var, HookLabel)>,
    k: int,
)
    requires
        grows(m1, m2),
    ensures
        unmapped(aliases, m2) <= unmapped(aliases, m1),
        0 <= k < aliases.len() && label_of(m1, aliases[k].0@) is None && label_of(m2, aliases[k].0@) is Some
            ==> unmapped(aliases, m2) < unmapped(aliases, m1),
    decreases aliases.len(),
{
    if aliases.len() > 0 {
        lemma_unmapped_grows(aliases.drop_last(), m1, m2, k);
        let x = aliases.last().0@;
        if label_of(m1, x) is Some {
            assert(label_of(m2, x) == label_of(m1, x));
        }
        if 0 <= k < aliases.len() - 1 {
            assert(aliases.drop_last()[k] == aliases[k]);
        }
    }
}

/// `r` holds the pair `(a, b)`.
pub open spec fn has_pair(r: Seq<(Var, Var)>, a: Seq<char>, b: Seq<char>) -> bool {
    exists|k: int| 0 <= k < r.len() && #[trigger] pair_names(r[k]) == (a, b)
}

/// Some statement before position `(i, j)` of `cfg` makes `a` an alias of `b`.
pub open spec fn alias_upto(cfg: CFG, i: int, j: int, a: Seq<char>, b: Seq<char>) -> bool {
    ||| exists|ii: int, jj: int|
        0 <= ii < i && 0 <= jj < cfg.blocks@[ii].stmts.len() && is_alias_stmt(
            #[trigger] cfg.blocks@[ii].stmts@[jj],
            a,
            b,
        )
    ||| (0 <= i < cfg.blocks.len() && exists|jj: int|
        0 <= jj < j && is_alias_stmt(#[trigger] cfg.blocks@[i].stmts@[jj], a, b))
}

/// The alias statements of `cfg`, in block order.
fn collect_aliases(cfg: &CFG) -> (r: Vec<(Var, Var)>)
    ensures
        forall|a: Seq<char>, b: Seq<char>|
            #![trigger aliases_to(*cfg, a, b)]
            #![trigger has_pair(r@, a, b)]
            aliases_to(*cfg, a, b) <==> has_pair(r@, a, b),
{
    let mut r: Vec<(Var, Var)> = Vec::new();
    let mut i: usize = 0;
    while i < cfg.blocks.len()
        invariant
            i <= cfg.blocks.len(),
            forall|a: Seq<char>, b: Seq<char>| #[trigger] has_pair(r@, a, b) <==> alias_upto(*cfg, i as int, 0, a, b),
        decreases cfg.blocks.len() - i,
    {
        let mut j: usize = 0;
        while j < cfg.blocks[i].stmts.len()
            invariant
                i < cfg.blocks.len(),
                j <= cfg.blocks@[i as int].stmts.len(),
                forall|a: Seq<char>, b: Seq<char>| #[trigger] has_pair(r@, a, b) <==> alias_upto(*cfg, i as int, j as int, a, b),
            decreases cfg.blocks@[i as int].stmts.len() - j,
        {
            let pair: Option<(Var, Var)> = match &cfg.blocks[i].stmts[j] {
                Stmt::Let { var, rhs: Expr::Var(src), .. } => Some((var.clone(), src.clone())),
                Stmt::Assign { var, rhs: Expr::Var(src), .. } => Some((var.clone(), src.clone())),
                _ => None,
            };
            let ghost before = r@;
            let ghost st = cfg.blocks@[i as int].stmts@[j as int];
            match pair {
                Some(p) => {
                    r.push(p);
                    assert forall|a: Seq<char>, b: Seq<char>| #[trigger] has_pair(r@, a, b) <==> alias_upto(*cfg, i as int, j + 1, a, b) by {
                        if has_pair(r@, a, b) {
                            let k = choose|k: int| 0 <= k < r@.len() && #[trigger] pair_names(r@[k]) == (a, b);
                            if k < before.len() {
                                assert(pair_names(before[k]) == (a, b));
                                assert(has_pair(before, a, b));
                            } else {
                                assert(is_alias_stmt(st, a, b));
                            }
                        }
                        if alias_upto(*cfg, i as int, j + 1, a, b) {
                            if alias_upto(*cfg, i as int, j as int, a, b) {
                                assert(has_pair(before, a, b));
                                let k = choose|k: int| 0 <= k < before.len() && #[trigger] pair_names(before[k]) == (a, b);
                                assert(pair_names(r@[k]) == (a, b));
                            } else {
                                let jj = choose|jj: int| 0 <= jj < j + 1 && is_alias_stmt(#[trigger] cfg.blocks@[i as int].stmts@[jj], a, b);
                                assert(jj == j);
                                assert(pair_names(r@[before.len() as int]) == (a, b));
                            }
                        }
                    }
                },
                None => {
                    assert forall|a: Seq<char>, b: Seq<char>| #[trigger] has_pair(r@, a, b) <==> alias_upto(*cfg, i as int, j + 1, a, b) by {
                        assert(!is_alias_stmt(st, a, b));
                        if alias_upto(*cfg, i as int, j + 1, a, b) && !alias_upto(*cfg, i as int, j as int, a, b) {
                            let jj = choose|jj: int| 0 <= jj < j + 1 && is_alias_stmt(#[trigger] cfg.blocks@[i as int].stmts@[jj], a, b);
                            assert(jj == j);
                        }
                    }
                },
            }
            j = j + 1;
        }
        assert forall|a: Seq<char>, b: Seq<char>| #[trigger] has_pair(r@, a, b) <==> alias_upto(*cfg, i + 1, 0, a, b) by {
            if alias_upto(*cfg, i as int, j as int, a, b) {
                if !(exists|ii: int, jj: int| 0 <= ii < i && 0 <= jj < cfg.blocks@[ii].stmts.len() && is_alias_stmt(#[trigger] cfg.blocks@[ii].stmts@[jj], a, b)) {
                    let jj = choose|jj: int| 0 <= jj < j && is_alias_stmt(#[trigger] cfg.blocks@[i as int].stmts@[jj], a, b);
                    assert(is_alias_stmt(cfg.blocks@[i as int].stmts@[jj], a, b));
                }
            }
            if alias_upto(*cfg, i + 1, 0, a, b) {
                let (ii, jj) = choose|ii: int, jj: int| 0 <= ii < i + 1 && 0 <= jj < cfg.blocks@[ii].stmts.len() && is_alias_stmt(#[trigger] cfg.blocks@[ii].stmts@[jj], a, b);
                if ii == i {
                    assert(is_alias_stmt(cfg.blocks@[i as int].stmts@[jj], a, b));
                }
            }
        }
        i = i + 1;
    }
    assert forall|a: Seq<char>, b: Seq<char>| aliases_to(*cfg, a, b) <==> #[trigger] has_pair(r@, a, b) by {
        assert(alias_upto(*cfg, i as int, 0, a, b) <==> aliases_to(*cfg, a, b));
    }
    r
}

/// A copy of a label table.
fn copy_labels(m: &LabelMap) -> (r: LabelMap)
    ensures
        r@ == m@,
{
    let mut r: LabelMap = Vec::new();
    let mut k: usize = 0;
    while k < m.len()
        invariant
            k <= m.len(),
            r@ == m@.subrange(0, k as int),
        decreases m.len() - k,
    {
        let name = m[k].0.clone();
        r.push((name, m[k].1));
        k = k + 1;
    }
    assert(m@.subrange(0, m@.len() as int) =~= m@);
    r
}

/// Extend a `setter var → state label` table with the alias bindings of
/// `cfg` (`b` a known setter makes `let a = b` or `a = b` one too),
/// iterating to a fixpoint so that chains resolve.
///
/// The result keeps every label of `base`; every label it adds is that of an
/// aliased variable, through an alias statement of `cfg`; and it is closed:
/// the target of an alias of a labelled variable is labelled.
pub fn resolve_setter_aliases(cfg: &CFG, base: &LabelMap) -> (r: LabelMap)
    requires
        label_wf(base@),
    ensures
        label_wf(r@),
        grows(base@, r@),
        forall|v: Seq<char>|
            #[trigger] label_of(r@, v) is Some && label_of(base@, v) is None ==> exists|src: Seq<char>|
                aliases_to(*cfg, v, src) && label_of(r@, src) == label_of(r@, v),
        forall|v: Seq<char>, src: Seq<char>|
            aliases_to(*cfg, v, src) && #[trigger] label_of(r@, src) is Some ==> #[trigger] label_of(r@, v) is Some,
{
    let aliases = collect_aliases(cfg);
    let mut map = copy_labels(base);
    let mut changed = true;
    while changed
        invariant
            forall|a: Seq<char>, b: Seq<char>|
                #![trigger aliases_to(*cfg, a, b)]
                #![trigger has_pair(aliases@, a, b)]
                aliases_to(*cfg, a, b) <==> has_pair(aliases@, a, b),
            label_wf(map@),
            grows(base@, map@),
            forall|v: Seq<char>|
                #[trigger] label_of(map@, v) is Some && label_of(base@, v) is None ==> exists|src: Seq<char>|
                    aliases_to(*cfg, v, src) && label_of(map@, src) == label_of(map@, v),
            !changed ==> forall|k: int|
                0 <= k < aliases@.len() && #[trigger] label_of(map@, aliases@[k].1@) is Some ==> label_of(map@, aliases@[k].0@) is Some,
        decreases 2 * unmapped(aliases@, map@) + if changed {
            1int
        } else {
            0int
        },
    {
        let ghost start = map@;
        changed = false;
        let mut k: usize = 0;
        while k < aliases.len()
            invariant
                forall|a: Seq<char>, b: Seq<char>|
                    #![trigger aliases_to(*cfg, a, b)]
                    #![trigger has_pair(aliases@, a, b)]
                    aliases_to(*cfg, a, b) <==> has_pair(aliases@, a, b),
                k <= aliases.len(),
                label_wf(map@),
                grows(base@, map@),
                grows(start, map@),
                forall|v: Seq<char>|
                    #[trigger] label_of(map@, v) is Some && label_of(base@, v) is None ==> exists|src: Seq<char>|
                        aliases_to(*cfg, v, src) && label_of(map@, src) == label_of(map@, v),
                changed ==> unmapped(aliases@, map@) < unmapped(aliases@, start),
                !changed ==> map@ == start,
                !changed ==> forall|q: int|
                    0 <= q < k && #[trigger] label_of(map@, aliases@[q].1@) is Some ==> label_of(map@, aliases@[q].0@) is Some,
            decreases aliases.len() - k,
        {
            let var = &aliases[k].0;
            let src = &aliases[k].1;
            if get_label(&map, var).is_none() {
                match get_label(&map, src) {
                    Some(label) => {
                        let ghost before = map@;
                        set_label(&mut map, var, label);
                        proof {
                            assert(pair_names(aliases@[k as int]) == (var@, src@));
                            assert(has_pair(aliases@, var@, src@));
                            assert(aliases_to(*cfg, var@, src@));
                            assert(src@ != var@);
                            assert(grows(before, map@));
                            assert forall|v: Seq<char>| #[trigger] label_of(base@, v) is Some implies label_of(map@, v) == label_of(base@, v) by {
                                assert(label_of(before, v) == label_of(base@, v));
                            }
                            assert forall|v: Seq<char>| #[trigger] label_of(start, v) is Some implies label_of(map@, v) == label_of(start, v) by {
                                assert(label_of(before, v) == label_of(start, v));
                            }
                            assert forall|v: Seq<char>|
                                #[trigger] label_of(map@, v) is Some && label_of(base@, v) is None implies exists|s: Seq<char>|
                                    aliases_to(*cfg, v, s) && label_of(map@, s) == label_of(map@, v) by {
                                if v == var@ {
                                    assert(aliases_to(*cfg, v, src@) && label_of(map@, src@) == label_of(map@, v));
                                } else {
                                    let s = choose|s: Seq<char>| aliases_to(*cfg, v, s) && label_of(before, s) == label_of(before, v);
                                    assert(label_of(before, s) is Some);
                                    assert(label_of(map@, s) == label_of(before, s));
                                }
                            }
                            lemma_unmapped_grows(aliases@, start, map@, k as int);
                            lemma_unmapped_grows(aliases@, before, map@, k as int);
                        }
                        changed = true;
                    },
                    None => {},
                }
            }
            k = k + 1;
        }
    }
    map
}

} // verus!
