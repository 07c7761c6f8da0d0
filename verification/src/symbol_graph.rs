//! Symbol-level dependency graph for cross-file analysis: nodes are the
//! components and custom hooks of the batch, and `A → B` means that `A`
//! calls `B`. Cycles are tolerated; the topological order is best-effort.
use vstd::prelude::*;

use crate::cfg::{term_exprs, Terminator, CFG};
use crate::component::{ComponentIR, HookIR};
use crate::expr::{children_of, Expr};
use crate::hooks::HookEntry;
use crate::stmt::{stmt_exprs, MemberKey, Stmt};
use crate::text::{lemma_seq_lt_order, seq_lt, str_eq, str_lt};
use crate::types::Symbol;

verus! {

/// What kind of symbol a node is.
#[derive(Debug, Clone, Copy, PartialEq, Eq, Structural)]
pub enum SymbolKind {
    Component,
    Hook,
}

/// A component or custom hook, identified by its file and name.
#[derive(Debug, Clone)]
pub struct SymbolNode {
    pub file: String,
    pub name: Symbol,
    pub kind: SymbolKind,
}

/// A node as plain values.
pub type NodeView = (Seq<char>, Seq<char>, SymbolKind);

impl SymbolNode {
    /// The node as plain values.
    pub open spec fn view(&self) -> NodeView {
        (self.file@, self.name@, self.kind)
    }

    /// The node `(file, name, kind)`.
    pub fn new(file: String, name: Symbol, kind: SymbolKind) -> (r: SymbolNode)
        ensures
            r.file == file,
            r.name == name,
            r.kind == kind,
    {
        SymbolNode { file, name, kind }
    }

    /// A copy of the node, equal to it.
    pub fn duplicate(&self) -> (r: SymbolNode)
        ensures
            r == *self,
    {
        SymbolNode { file: self.file.clone(), name: self.name.clone(), kind: self.kind }
    }

    /// `true` iff the two nodes are the same symbol.
    pub fn same(&self, other: &SymbolNode) -> (r: bool)
        ensures
            r <==> self@ == other@,
    {
        self.kind == other.kind && str_eq(self.file.as_str(), other.file.as_str()) && str_eq(
            self.name.as_str(),
            other.name.as_str(),
        )
    }
}

/// The order of nodes: by file, then name, then kind (components first).
pub open spec fn node_lt(a: NodeView, b: NodeView) -> bool {
    ||| seq_lt(a.0, b.0)
    ||| (a.0 == b.0 && seq_lt(a.1, b.1))
    ||| (a.0 == b.0 && a.1 == b.1 && a.2 == SymbolKind::Component && b.2 == SymbolKind::Hook)
}

/// `node_lt` is a strict total order on node views.
pub proof fn lemma_node_lt(a: NodeView, b: NodeView, c: NodeView)
    ensures
        !node_lt(a, a),
        node_lt(a, b) ==> !node_lt(b, a),
        node_lt(a, b) || node_lt(b, a) || a == b,
        node_lt(a, b) && node_lt(b, c) ==> node_lt(a, c),
{
    lemma_seq_lt_order(a.0, b.0, c.0);
    lemma_seq_lt_order(a.1, b.1, c.1);
    lemma_seq_lt_order(b.0, c.0, a.0);
    lemma_seq_lt_order(b.1, c.1, a.1);
    lemma_seq_lt_order(c.0, a.0, b.0);
    lemma_seq_lt_order(c.1, a.1, b.1);
    lemma_seq_lt_order(a.0, c.0, b.0);
    lemma_seq_lt_order(a.1, c.1, b.1);
}

/// `true` iff `a` sorts strictly before `b`.
pub fn node_lt_exec(a: &SymbolNode, b: &SymbolNode) -> (r: bool)
    ensures
        r == node_lt(a@, b@),
{
    proof { lemma_seq_lt_order(a.file@, b.file@, a.file@); lemma_seq_lt_order(a.name@, b.name@, a.name@); }
    if str_lt(a.file.as_str(), b.file.as_str()) {
        return true;
    }
    if !str_eq(a.file.as_str(), b.file.as_str()) {
        return false;
    }
    if str_lt(a.name.as_str(), b.name.as_str()) {
        return true;
    }
    if !str_eq(a.name.as_str(), b.name.as_str()) {
        return false;
    }
    a.kind == SymbolKind::Component && b.kind == SymbolKind::Hook
}

/// The views of a list of nodes.
pub open spec fn views(v: Seq<SymbolNode>) -> Seq<NodeView> {
    v.map_values(|n: SymbolNode| n@)
}

/// No view occurs twice.
pub open spec fn distinct_views(v: Seq<NodeView>) -> bool {
    forall|i: int, j: int| 0 <= i < j < v.len() ==> v[i] != v[j]
}

/// The recorded callees of `caller`: those of its first adjacency entry,
/// none when it has no entry.
pub open spec fn adjacency(edges: Seq<(SymbolNode, Vec<SymbolNode>)>, caller: NodeView) -> Seq<NodeView>
    decreases edges.len(),
{
    if edges.len() == 0 {
        Seq::empty()
    } else if edges[0].0@ == caller {
        views(edges[0].1@)
    } else {
        adjacency(edges.drop_first(), caller)
    }
}

/// The recorded callees of a caller are none, or the callee list of one
/// adjacency entry.
pub proof fn lemma_adjacency_entry(edges: Seq<(SymbolNode, Vec<SymbolNode>)>, caller: NodeView)
    ensures
        adjacency(edges, caller).len() == 0 || exists|k: int|
            0 <= k < edges.len() && adjacency(edges, caller) == views(edges[k].1@) && edges[k].0@ == caller,
    decreases edges.len(),
{
    if edges.len() > 0 && edges[0].0@ != caller {
        lemma_adjacency_entry(edges.drop_first(), caller);
        if adjacency(edges.drop_first(), caller).len() != 0 {
            let k = choose|k: int|
                0 <= k < edges.drop_first().len() && adjacency(edges.drop_first(), caller) == views(
                    edges.drop_first()[k].1@,
                ) && edges.drop_first()[k].0@ == caller;
            assert(edges.drop_first()[k] == edges[k + 1]);
        }
    }
    if edges.len() > 0 && edges[0].0@ == caller {
        assert(adjacency(edges, caller) == views(edges[0].1@));
    }
}

/// A dependency graph of symbols.
#[derive(Debug, Clone)]
pub struct SymbolGraph {
    nodes: Vec<SymbolNode>,
    /// `caller → callees`, one entry per caller.
    edges: Vec<(SymbolNode, Vec<SymbolNode>)>,
}

impl SymbolGraph {
    /// The nodes, in insertion order.
    pub closed spec fn spec_nodes(&self) -> Seq<NodeView> {
        views(self.nodes@)
    }

    /// The callees recorded for `caller`, in recording order.
    pub closed spec fn spec_callees(&self, caller: NodeView) -> Seq<NodeView> {
        adjacency(self.edges@, caller)
    }

    /// Nodes are distinct, callers are distinct, and every caller and
    /// callee is a node.
    pub closed spec fn wf(&self) -> bool {
        &&& distinct_views(views(self.nodes@))
        &&& distinct_views(self.edges@.map_values(|e: (SymbolNode, Vec<SymbolNode>)| e.0@))
        &&& forall|k: int| 0 <= k < self.edges.len() ==> views(self.nodes@).contains(#[trigger] self.edges@[k].0@)
        &&& forall|k: int, j: int|
            0 <= k < self.edges.len() && 0 <= j < self.edges@[k].1.len() ==> views(self.nodes@).contains(
                #[trigger] self.edges@[k].1@[j]@,
            )
    }

    /// An empty graph.
    pub fn new() -> (r: SymbolGraph)
        ensures
            r.wf(),
            r.spec_nodes() == Seq::<NodeView>::empty(),
            forall|c: NodeView| r.spec_callees(c) == Seq::<NodeView>::empty(),
    {
        let r = SymbolGraph { nodes: Vec::new(), edges: Vec::new() };
        assert(views(r.nodes@) =~= Seq::<NodeView>::empty());
        assert(r.edges@.map_values(|e: (SymbolNode, Vec<SymbolNode>)| e.0@) =~= Seq::<NodeView>::empty());
        r
    }

    /// The nodes.
    pub fn nodes(&self) -> (r: &[SymbolNode])
        ensures
            views(r@) == self.spec_nodes(),
    {
        self.nodes.as_slice()
    }

    /// The callees recorded for `node` (none when it calls nothing).
    /// In a well-formed graph every recorded callee is a node of the graph.
    pub proof fn lemma_callees_are_nodes(&self, caller: NodeView)
        requires
            self.wf(),
        ensures
            forall|x: NodeView| #[trigger] self.spec_callees(caller).contains(x) ==> self.spec_nodes().contains(x),
    {
        lemma_adjacency_entry(self.edges@, caller);
        assert forall|x: NodeView| #[trigger] self.spec_callees(caller).contains(x) implies self.spec_nodes().contains(x) by {
            let k = choose|k: int| 0 <= k < self.edges@.len() && adjacency(self.edges@, caller) == views(self.edges@[k].1@);
            let j = choose|j: int| 0 <= j < views(self.edges@[k].1@).len() && views(self.edges@[k].1@)[j] == x;
            assert(self.edges@[k].1@[j]@ == x);
        }
    }

    pub fn callees_of(&self, node: &SymbolNode) -> (r: Vec<SymbolNode>)
        ensures
            views(r@) == self.spec_callees(node@),
            self.wf() && !self.spec_nodes().contains(node@) ==> r.len() == 0,
    {
        proof {
            lemma_adjacency_entry(self.edges@, node@);
        }
        let mut k: usize = 0;
        assert(self.edges@.subrange(0, self.edges@.len() as int) =~= self.edges@);
        while k < self.edges.len()
            invariant
                k <= self.edges.len(),
                adjacency(self.edges@, node@) == adjacency(self.edges@.subrange(k as int, self.edges@.len() as int), node@),
            decreases self.edges.len() - k,
        {
            let ghost rest = self.edges@.subrange(k as int, self.edges@.len() as int);
            assert(rest[0] == self.edges@[k as int]);
            assert(rest.drop_first() =~= self.edges@.subrange(k + 1, self.edges@.len() as int));
            if self.edges[k].0.same(node) {
                return copy_nodes(&self.edges[k].1);
            }
            k = k + 1;
        }
        let r: Vec<SymbolNode> = Vec::new();
        assert(views(r@) =~= Seq::<NodeView>::empty());
        r
    }
}

/// A copy of a list of nodes.
fn copy_nodes(v: &Vec<SymbolNode>) -> (r: Vec<SymbolNode>)
    ensures
        r@ == v@,
{
    let mut r: Vec<SymbolNode> = Vec::new();
    let mut i: usize = 0;
    while i < v.len()
        invariant
            i <= v.len(),
            r@ == v@.subrange(0, i as int),
        decreases v.len() - i,
    {
        r.push(v[i].duplicate());
        i = i + 1;
    }
    assert(v@.subrange(0, v@.len() as int) =~= v@);
    r
}

// ── Who calls whom ──────────────────────────────────────────────────────────

/// `e` calls the symbol `n`: a call whose callee is the variable `n`, or a
/// component element `<n …>`, anywhere in `e` short of a function literal's
/// body (those are scanned on their own).
pub open spec fn calls(e: Expr, n: Seq<char>) -> bool
    decreases e,
{
    match e {
        Expr::Call { fn_, args } => {
            ||| (match *fn_ {
                Expr::Var(v) => v@ == n,
                _ => false,
            })
            ||| calls(*fn_, n)
            ||| exists|i: int| 0 <= i < args.len() && calls(#[trigger] args@[i], n)
        },
        Expr::CompApp { name, props, .. } => name@ == n || calls(*props, n),
        Expr::ObjectLit { fields, .. } => exists|i: int| 0 <= i < fields.len() && calls(#[trigger] fields@[i].1, n),
        Expr::ArrayLit { elems, .. } => exists|i: int| 0 <= i < elems.len() && calls(#[trigger] elems@[i], n),
        Expr::FieldAccess { obj, .. } => calls(*obj, n),
        Expr::IndexAccess { arr, idx } => calls(*arr, n) || calls(*idx, n),
        Expr::BinOp { lhs, rhs, .. } => calls(*lhs, n) || calls(*rhs, n),
        Expr::UnaryOp { arg, .. } => calls(*arg, n),
        Expr::NativeElem { props, children, .. } => calls(*props, n) || exists|i: int|
            0 <= i < children.len() && calls(#[trigger] children@[i], n),
        Expr::TSAnnotated(inner) => calls(*inner, n),
        _ => false,
    }
}

/// `e` itself names `n` as what it calls: a call of the bare name `n`, or
/// the element `<n …>`.
pub open spec fn names_callee(e: Expr, n: Seq<char>) -> bool {
    ||| (e matches Expr::Call { fn_, .. } && (*fn_ matches Expr::Var(v) && v@ == n))
    ||| (e matches Expr::CompApp { name, .. } && name@ == n)
}

/// What a body calls is found through the whole expression tree: `e` calls
/// `n` exactly when it is itself a call of `n` or the element `<n …>`, or
/// one of the expressions directly inside it (a callee, an argument, an
/// element's props or children, a member, an operand; not a function
/// literal's body) calls `n`.
pub proof fn lemma_calls_structure(e: Expr, n: Seq<char>)
    ensures
        calls(e, n) <==> (names_callee(e, n) || exists|k: int|
            0 <= k < children_of(e).len() && calls(#[trigger] children_of(e)[k], n)),
{
    let c = children_of(e);
    match e {
        Expr::Call { fn_, args } => {
            assert(c[0] == *fn_);
            assert forall|i: int| 0 <= i < args.len() implies c[i + 1] == args@[i] by {}
            if exists|k: int| 0 <= k < c.len() && calls(#[trigger] c[k], n) {
                let k = choose|k: int| 0 <= k < c.len() && calls(#[trigger] c[k], n);
                if k > 0 {
                    assert(c[k] == args@[k - 1]);
                }
            }
            if exists|i: int| 0 <= i < args.len() && calls(#[trigger] args@[i], n) {
                let i = choose|i: int| 0 <= i < args.len() && calls(#[trigger] args@[i], n);
                assert(c[i + 1] == args@[i]);
            }
        },
        Expr::NativeElem { props, children, .. } => {
            assert(c[0] == *props);
            if exists|k: int| 0 <= k < c.len() && calls(#[trigger] c[k], n) {
                let k = choose|k: int| 0 <= k < c.len() && calls(#[trigger] c[k], n);
                if k > 0 {
                    assert(c[k] == children@[k - 1]);
                }
            }
            if exists|i: int| 0 <= i < children.len() && calls(#[trigger] children@[i], n) {
                let i = choose|i: int| 0 <= i < children.len() && calls(#[trigger] children@[i], n);
                assert(c[i + 1] == children@[i]);
            }
        },
        Expr::CompApp { props, .. } => {
            assert(c[0] == *props);
        },
        Expr::ObjectLit { fields, .. } => {
            if exists|k: int| 0 <= k < c.len() && calls(#[trigger] c[k], n) {
                let k = choose|k: int| 0 <= k < c.len() && calls(#[trigger] c[k], n);
                assert(c[k] == fields@[k].1);
            }
            if exists|i: int| 0 <= i < fields.len() && calls(#[trigger] fields@[i].1, n) {
                let i = choose|i: int| 0 <= i < fields.len() && calls(#[trigger] fields@[i].1, n);
                assert(c[i] == fields@[i].1);
            }
        },
        Expr::FieldAccess { obj, .. } => {
            assert(c[0] == *obj);
        },
        Expr::IndexAccess { arr, idx } => {
            assert(c[0] == *arr && c[1] == *idx);
        },
        Expr::BinOp { lhs, rhs, .. } => {
            assert(c[0] == *lhs && c[1] == *rhs);
        },
        Expr::UnaryOp { arg, .. } => {
            assert(c[0] == *arg);
        },
        Expr::TSAnnotated(inner) => {
            assert(c[0] == *inner);
        },
        _ => {},
    }
}

/// A statement of a body calls `n` in one of its expressions.
pub open spec fn stmt_calls(s: Stmt, n: Seq<char>) -> bool {
    match s {
        Stmt::Let { rhs, .. } => calls(rhs, n),
        Stmt::Assign { rhs, .. } => calls(rhs, n),
        Stmt::MemberWrite { obj, key, rhs, .. } => calls(obj, n) || calls(rhs, n) || (match key {
            MemberKey::Index(i) => calls(i, n),
            _ => false,
        }),
        Stmt::ExprStmt(e, _) => calls(e, n),
    }
}

/// A terminator calls `n` in its expression.
pub open spec fn term_calls(t: Terminator, n: Seq<char>) -> bool {
    match t {
        Terminator::Return(e) => calls(e, n),
        Terminator::Branch { cond, .. } => calls(cond, n),
        _ => false,
    }
}

/// Some top-level expression of `c` calls `n`.
pub open spec fn cfg_calls(c: CFG, n: Seq<char>) -> bool {
    exists|i: int|
        0 <= i < c.blocks.len() && (term_calls(#[trigger] c.blocks@[i].term, n) || exists|j: int|
            0 <= j < c.blocks@[i].stmts.len() && stmt_calls(#[trigger] c.blocks@[i].stmts@[j], n))
}

/// A statement or a terminator calls `n` exactly when one of the
/// expressions it evaluates does.
pub proof fn lemma_calls_in_stmts(s: Stmt, t: Terminator, n: Seq<char>)
    ensures
        stmt_calls(s, n) <==> exists|k: int| 0 <= k < stmt_exprs(s).len() && calls(#[trigger] stmt_exprs(s)[k], n),
        term_calls(t, n) <==> exists|k: int| 0 <= k < term_exprs(t).len() && calls(#[trigger] term_exprs(t)[k], n),
{
    let es = stmt_exprs(s);
    match s {
        Stmt::MemberWrite { obj, key, rhs, .. } => {
            assert(es[0] == obj && es[1] == rhs);
            if let MemberKey::Index(i) = key {
                assert(es[2] == i);
            }
        },
        Stmt::Let { rhs, .. } => {
            assert(es[0] == rhs);
        },
        Stmt::Assign { rhs, .. } => {
            assert(es[0] == rhs);
        },
        Stmt::ExprStmt(e, _) => {
            assert(es[0] == e);
        },
    }
    let ts = term_exprs(t);
    match t {
        Terminator::Return(e) => {
            assert(ts[0] == e);
        },
        Terminator::Branch { cond, .. } => {
            assert(ts[0] == cond);
        },
        _ => {},
    }
}

/// The body or arguments of a hook call call `n`.
pub open spec fn hook_calls(h: HookEntry, n: Seq<char>) -> bool {
    match h {
        HookEntry::Effect { body_cfg, .. } => cfg_calls(body_cfg, n),
        HookEntry::Memo { body_cfg, .. } => cfg_calls(body_cfg, n),
        HookEntry::Callback { body_cfg, .. } => cfg_calls(body_cfg, n),
        HookEntry::Handler { body_cfg, .. } => cfg_calls(body_cfg, n),
        HookEntry::Custom { args, .. } => exists|i: int| 0 <= i < args.len() && calls(#[trigger] args@[i], n),
        _ => false,
    }
}

/// The names a list holds.
pub open spec fn name_set(v: Seq<Symbol>) -> Set<Seq<char>> {
    Set::new(|x: Seq<char>| exists|i: int| 0 <= i < v.len() && #[trigger] v[i]@ == x)
}

/// Add to `out` every symbol `e` calls.
#[verifier::loop_isolation(false)]
fn collect_callees_in_expr(e: &Expr, out: &mut Vec<Symbol>)
    ensures
        forall|x: Seq<char>| #[trigger] name_set(final(out)@).contains(x) <==> name_set(old(out)@).contains(x) || calls(*e, x),
    decreases e,
{
    let ghost o0 = out@;
    match e {
        Expr::Call { fn_, args } => {
            if let Expr::Var(name) = &**fn_ {
                push_name(out, name);
            }
            collect_callees_in_expr(&**fn_, out);
            collect_callees_in_exprs(args, out);
        },
        Expr::CompApp { name, props, .. } => {
            push_name(out, name);
            collect_callees_in_expr(&**props, out);
        },
        Expr::ObjectLit { fields, .. } => {
            let mut i: usize = 0;
            while i < fields.len()
                invariant
                    i <= fields.len(),
                    forall|x: Seq<char>| #[trigger] name_set(out@).contains(x) <==> name_set(o0).contains(x)
                        || exists|k: int| 0 <= k < i && calls(#[trigger] fields@[k].1, x),
                decreases fields.len() - i,
            {
                proof {
                    assert(decreases_to!(*e => *fields));
                    assert(decreases_to!(*fields => fields@));
                    assert(decreases_to!(fields@ => fields@[i as int]));
                    assert(decreases_to!(fields@[i as int] => fields@[i as int].1));
                }
                collect_callees_in_expr(&fields[i].1, out);
                proof {
                    assert forall|x: Seq<char>| #[trigger] name_set(out@).contains(x) <==> name_set(o0).contains(x)
                        || exists|k: int| 0 <= k < i + 1 && calls(#[trigger] fields@[k].1, x) by {
                        if exists|k: int| 0 <= k < i + 1 && calls(#[trigger] fields@[k].1, x) {
                            let k = choose|k: int| 0 <= k < i + 1 && calls(#[trigger] fields@[k].1, x);
                            if k < i {
                            }
                        }
                    }
                }
                i = i + 1;
            }
        },
        Expr::ArrayLit { elems, .. } => collect_callees_in_exprs(elems, out),
        Expr::FieldAccess { obj, .. } => collect_callees_in_expr(&**obj, out),
        Expr::IndexAccess { arr, idx } => {
            collect_callees_in_expr(&**arr, out);
            collect_callees_in_expr(&**idx, out);
        },
        Expr::BinOp { lhs, rhs, .. } => {
            collect_callees_in_expr(&**lhs, out);
            collect_callees_in_expr(&**rhs, out);
        },
        Expr::UnaryOp { arg, .. } => collect_callees_in_expr(&**arg, out),
        Expr::NativeElem { props, children, .. } => {
            collect_callees_in_expr(&**props, out);
            collect_callees_in_exprs(children, out);
        },
        Expr::TSAnnotated(inner) => collect_callees_in_expr(&**inner, out),
        _ => {},
    }
}

/// Add to `out` every symbol one of `es` calls.
#[verifier::loop_isolation(false)]
fn collect_callees_in_exprs(es: &Vec<Expr>, out: &mut Vec<Symbol>)
    ensures
        forall|x: Seq<char>| #[trigger] name_set(final(out)@).contains(x) <==> name_set(old(out)@).contains(x)
            || exists|k: int| 0 <= k < es.len() && calls(#[trigger] es@[k], x),
    decreases es,
{
    let ghost o0 = out@;
    let mut i: usize = 0;
    while i < es.len()
        invariant
            i <= es.len(),
            forall|x: Seq<char>| #[trigger] name_set(out@).contains(x) <==> name_set(o0).contains(x)
                || exists|k: int| 0 <= k < i && calls(#[trigger] es@[k], x),
        decreases es.len() - i,
    {
        proof {
            assert(decreases_to!(*es => es@));
            assert(decreases_to!(es@ => es@[i as int]));
        }
        collect_callees_in_expr(&es[i], out);
        i = i + 1;
    }
}

/// Add `name` to `out`.
pub(crate) fn push_name(out: &mut Vec<Symbol>, name: &Symbol)
    ensures
        name_set(final(out)@) == name_set(old(out)@).insert(name@),
{
    let ghost before = out@;
    out.push(name.clone());
    assert(name_set(out@) =~= name_set(before).insert(name@)) by {
        assert forall|x: Seq<char>| name_set(out@).contains(x) implies name_set(before).insert(name@).contains(x) by {
            let i = choose|i: int| 0 <= i < out@.len() && #[trigger] out@[i]@ == x;
            if i < before.len() {
                assert(before[i]@ == x);
            }
        }
        assert forall|x: Seq<char>| name_set(before).insert(name@).contains(x) implies name_set(out@).contains(x) by {
            if x == name@ {
                assert(out@[before.len() as int]@ == x);
            } else {
                let i = choose|i: int| 0 <= i < before.len() && #[trigger] before[i]@ == x;
                assert(out@[i]@ == x);
            }
        }
    }
}

/// Add to `out` every symbol a statement calls.
fn collect_callees_in_stmt(st: &Stmt, out: &mut Vec<Symbol>)
    ensures
        forall|x: Seq<char>| #[trigger] name_set(final(out)@).contains(x) <==> name_set(old(out)@).contains(x) || stmt_calls(*st, x),
{
    match st {
        Stmt::Let { rhs, .. } => collect_callees_in_expr(rhs, out),
        Stmt::Assign { rhs, .. } => collect_callees_in_expr(rhs, out),
        Stmt::MemberWrite { obj, key, rhs, .. } => {
            collect_callees_in_expr(obj, out);
            if let MemberKey::Index(i) = key {
                collect_callees_in_expr(i, out);
            }
            collect_callees_in_expr(rhs, out);
        },
        Stmt::ExprStmt(e, _) => collect_callees_in_expr(e, out),
    }
}

/// Add to `out` every symbol the top-level expressions of `cfg` call,
/// blocks in order.
fn collect_callees_in_cfg(cfg: &CFG, out: &mut Vec<Symbol>)
    ensures
        forall|x: Seq<char>| #[trigger] name_set(final(out)@).contains(x) <==> name_set(old(out)@).contains(x) || cfg_calls(*cfg, x),
{
    let ghost o0 = out@;
    let mut i: usize = 0;
    while i < cfg.blocks.len()
        invariant
            i <= cfg.blocks.len(),
            forall|x: Seq<char>| #[trigger] name_set(out@).contains(x) <==> name_set(o0).contains(x) || exists|a: int|
                0 <= a < i && (term_calls(#[trigger] cfg.blocks@[a].term, x) || exists|j: int|
                    0 <= j < cfg.blocks@[a].stmts.len() && stmt_calls(#[trigger] cfg.blocks@[a].stmts@[j], x)),
        decreases cfg.blocks.len() - i,
    {
        let ghost o1 = out@;
        let mut j: usize = 0;
        while j < cfg.blocks[i].stmts.len()
            invariant
                i < cfg.blocks.len(),
                j <= cfg.blocks@[i as int].stmts.len(),
                forall|x: Seq<char>| #[trigger] name_set(out@).contains(x) <==> name_set(o1).contains(x) || exists|jj: int|
                    0 <= jj < j && stmt_calls(#[trigger] cfg.blocks@[i as int].stmts@[jj], x),
            decreases cfg.blocks@[i as int].stmts.len() - j,
        {
            collect_callees_in_stmt(&cfg.blocks[i].stmts[j], out);
            j = j + 1;
        }
        match &cfg.blocks[i].term {
            Terminator::Return(e) => collect_callees_in_expr(e, out),
            Terminator::Branch { cond, .. } => collect_callees_in_expr(cond, out),
            _ => {},
        }
        assert forall|x: Seq<char>| #[trigger] name_set(out@).contains(x) <==> name_set(o0).contains(x) || exists|a: int|
            0 <= a < i + 1 && (term_calls(#[trigger] cfg.blocks@[a].term, x) || exists|jj: int|
                0 <= jj < cfg.blocks@[a].stmts.len() && stmt_calls(#[trigger] cfg.blocks@[a].stmts@[jj], x)) by {
            if exists|a: int| 0 <= a < i + 1 && (term_calls(#[trigger] cfg.blocks@[a].term, x) || exists|jj: int|
                0 <= jj < cfg.blocks@[a].stmts.len() && stmt_calls(#[trigger] cfg.blocks@[a].stmts@[jj], x)) {
                let a = choose|a: int| 0 <= a < i + 1 && (term_calls(#[trigger] cfg.blocks@[a].term, x) || exists|jj: int|
                    0 <= jj < cfg.blocks@[a].stmts.len() && stmt_calls(#[trigger] cfg.blocks@[a].stmts@[jj], x));
                if a < i {
                    assert(exists|a2: int| 0 <= a2 < i && (term_calls(#[trigger] cfg.blocks@[a2].term, x) || exists|jj: int|
                        0 <= jj < cfg.blocks@[a2].stmts.len() && stmt_calls(#[trigger] cfg.blocks@[a2].stmts@[jj], x)));
                }
            }
        }
        i = i + 1;
    }
}

/// Add to `out` every symbol a hook call's body or arguments call.
fn collect_callees_in_hook_body(entry: &HookEntry, out: &mut Vec<Symbol>)
    ensures
        forall|x: Seq<char>| #[trigger] name_set(final(out)@).contains(x) <==> name_set(old(out)@).contains(x) || hook_calls(*entry, x),
{
    match entry {
        HookEntry::Effect { body_cfg, .. } => collect_callees_in_cfg(body_cfg, out),
        HookEntry::Memo { body_cfg, .. } => collect_callees_in_cfg(body_cfg, out),
        HookEntry::Callback { body_cfg, .. } => collect_callees_in_cfg(body_cfg, out),
        HookEntry::Handler { body_cfg, .. } => collect_callees_in_cfg(body_cfg, out),
        HookEntry::Custom { args, .. } => collect_callees_in_exprs(args, out),
        _ => {},
    }
}

// ── Recording edges ─────────────────────────────────────────────────────────

/// Every symbol of the batch, by name: `name → nodes so named`, in
/// declaration order.
type ByName = Vec<(Symbol, Vec<SymbolNode>)>;

/// The nodes named `n`: those of its first entry.
pub open spec fn named(by_name: Seq<(Symbol, Vec<SymbolNode>)>, n: Seq<char>) -> Option<Seq<NodeView>>
    decreases by_name.len(),
{
    if by_name.len() == 0 {
        None
    } else if by_name[0].0@ == n {
        Some(views(by_name[0].1@))
    } else {
        named(by_name.drop_first(), n)
    }
}

/// The first of `ms` defined in file `f`.
pub open spec fn first_in_file(ms: Seq<NodeView>, f: Seq<char>) -> Option<NodeView>
    decreases ms.len(),
{
    if ms.len() == 0 {
        None
    } else if ms[0].0 == f {
        Some(ms[0])
    } else {
        first_in_file(ms.drop_first(), f)
    }
}

/// Which of the same-named `ms` a call from `caller` means: one in the
/// caller's own file if any, else the first.
pub open spec fn chosen(caller: NodeView, ms: Seq<NodeView>) -> Option<NodeView> {
    match first_in_file(ms, caller.0) {
        Some(t) => Some(t),
        None => if ms.len() > 0 {
            Some(ms[0])
        } else {
            None
        },
    }
}

/// The edges calls to `names` from `caller` record, in order: each name's
/// chosen node, unless that is the caller itself.
pub open spec fn name_targets(caller: NodeView, names: Seq<Symbol>, by_name: Seq<(Symbol, Vec<SymbolNode>)>) -> Seq<NodeView>
    decreases names.len(),
{
    if names.len() == 0 {
        Seq::empty()
    } else {
        let prev = name_targets(caller, names.drop_last(), by_name);
        match named(by_name, names.last()@) {
            Some(ms) => match chosen(caller, ms) {
                Some(t) => if t != caller {
                    prev.push(t)
                } else {
                    prev
                },
                None => prev,
            },
            None => prev,
        }
    }
}

/// The edge a custom-hook call from `caller` records: to the hook of its
/// resolved file when that is a node, else to the chosen hook of that name.
pub open spec fn hook_target(
    caller: NodeView,
    entry: HookEntry,
    nodes: Seq<NodeView>,
    by_name: Seq<(Symbol, Vec<SymbolNode>)>,
) -> Option<NodeView> {
    match entry {
        HookEntry::Custom { name, resolved_file, .. } => {
            if resolved_file is Some && nodes.contains((resolved_file->0@, name@, SymbolKind::Hook)) {
                Some((resolved_file->0@, name@, SymbolKind::Hook))
            } else {
                match named(by_name, name@) {
                    Some(ms) => chosen(caller, ms),
                    None => None,
                }
            }
        },
        _ => None,
    }
}

/// Every node `by_name` lists is one of `nodes`.
pub open spec fn by_name_within(by_name: Seq<(Symbol, Vec<SymbolNode>)>, nodes: Seq<NodeView>) -> bool {
    forall|k: int, j: int|
        0 <= k < by_name.len() && 0 <= j < by_name[k].1.len() ==> nodes.contains(#[trigger] by_name[k].1@[j]@)
}

/// The nodes named `n` in `by_name`.
fn lookup_named<'a>(by_name: &'a ByName, n: &Symbol) -> (r: Option<&'a Vec<SymbolNode>>)
    ensures
        match r {
            Some(ms) => named(by_name@, n@) == Some(views(ms@)) && exists|k: int| 0 <= k < by_name.len() && by_name@[k].1 == *ms,
            None => named(by_name@, n@) is None,
        },
{
    let mut k: usize = 0;
    assert(by_name@.subrange(0, by_name@.len() as int) =~= by_name@);
    while k < by_name.len()
        invariant
            k <= by_name.len(),
            named(by_name@, n@) == named(by_name@.subrange(k as int, by_name@.len() as int), n@),
        decreases by_name.len() - k,
    {
        let ghost rest = by_name@.subrange(k as int, by_name@.len() as int);
        assert(rest[0] == by_name@[k as int]);
        assert(rest.drop_first() =~= by_name@.subrange(k + 1, by_name@.len() as int));
        if str_eq(by_name[k].0.as_str(), n.as_str()) {
            return Some(&by_name[k].1);
        }
        k = k + 1;
    }
    None
}

/// Which of `ms` a call from `caller` means.
fn choose_target<'a>(caller: &SymbolNode, ms: &'a Vec<SymbolNode>) -> (r: Option<&'a SymbolNode>)
    ensures
        match r {
            Some(t) => chosen(caller@, views(ms@)) == Some(t@) && exists|j: int| 0 <= j < ms.len() && ms@[j] == *t,
            None => chosen(caller@, views(ms@)) is None,
        },
{
    let mut j: usize = 0;
    assert(views(ms@).subrange(0, ms@.len() as int) =~= views(ms@));
    while j < ms.len()
        invariant
            j <= ms.len(),
            first_in_file(views(ms@), caller.file@) == first_in_file(views(ms@).subrange(j as int, ms@.len() as int), caller.file@),
        decreases ms.len() - j,
    {
        let ghost rest = views(ms@).subrange(j as int, ms@.len() as int);
        assert(rest[0] == ms@[j as int]@);
        assert(rest.drop_first() =~= views(ms@).subrange(j + 1, ms@.len() as int));
        if str_eq(ms[j].file.as_str(), caller.file.as_str()) {
            return Some(&ms[j]);
        }
        j = j + 1;
    }
    if ms.len() > 0 {
        Some(&ms[0])
    } else {
        None
    }
}

impl SymbolGraph {
    /// Append `targets` to the callees of `caller`, creating its entry.
    #[verifier::spinoff_prover]
    #[verifier::rlimit(30)]
    fn append_callees(&mut self, caller: &SymbolNode, targets: Vec<SymbolNode>)
        requires
            old(self).wf(),
            views(old(self).nodes@).contains(caller@),
            forall|j: int| 0 <= j < targets.len() ==> views(old(self).nodes@).contains(#[trigger] targets@[j]@),
        ensures
            final(self).wf(),
            final(self).spec_nodes() == old(self).spec_nodes(),
            final(self).spec_callees(caller@) == old(self).spec_callees(caller@) + views(targets@),
            forall|c: NodeView| c != caller@ ==> #[trigger] final(self).spec_callees(c) == old(self).spec_callees(c),
    {
        let ghost e0 = self.edges@;
        let mut k: usize = 0;
        let mut pos: Option<usize> = None;
        while pos.is_none() && k < self.edges.len()
            invariant
                self.edges@ == e0,
                k <= self.edges.len(),
                pos is None ==> forall|q: int| 0 <= q < k ==> self.edges@[q].0@ != caller@,
                pos matches Some(p) ==> p < self.edges.len() && self.edges@[p as int].0@ == caller@,
            decreases self.edges.len() - k + if pos is None {
                1int
            } else {
                0int
            },
        {
            if self.edges[k].0.same(caller) {
                pos = Some(k);
            } else {
                k = k + 1;
            }
        }
        let ghost keys0 = e0.map_values(|e: (SymbolNode, Vec<SymbolNode>)| e.0@);
        match pos {
            Some(p) => {
                let (key, mut list) = self.edges.remove(p);
                let ghost l0 = list@;
                let mut t = targets;
                list.append(&mut t);
                self.edges.insert(p, (key, list));
                proof {
                    assert(e0.update(p as int, (e0[p as int].0, e0[p as int].1)) =~= e0);
                    lemma_adjacency_update(e0, p as int, e0[p as int].1, caller@);
                    assert(l0 == e0[p as int].1@);
                    assert(self.edges@ == e0.update(p as int, (e0[p as int].0, self.edges@[p as int].1)));
                    assert(views(self.edges@[p as int].1@) =~= views(l0) + views(targets@));
                    assert forall|c: NodeView| #[trigger] adjacency(self.edges@, c) == if c == caller@ {
                        views(self.edges@[p as int].1@)
                    } else {
                        adjacency(e0, c)
                    } by {
                        lemma_adjacency_update(e0, p as int, self.edges@[p as int].1, c);
                    }
                    assert(self.edges@.map_values(|e: (SymbolNode, Vec<SymbolNode>)| e.0@) =~= keys0);
                    assert forall|a: int, j: int|
                        0 <= a < self.edges.len() && 0 <= j < self.edges@[a].1.len() implies views(self.nodes@).contains(
                            #[trigger] self.edges@[a].1@[j]@) by {
                        if a == p {
                            if j >= l0.len() {
                                assert(self.edges@[a].1@[j] == targets@[j - l0.len()]);
                            } else {
                                assert(self.edges@[a].1@[j] == e0[a].1@[j]);
                            }
                        } else {
                            assert(self.edges@[a] == e0[a]);
                        }
                    }
                    assert forall|a: int| 0 <= a < self.edges.len() implies views(self.nodes@).contains(#[trigger] self.edges@[a].0@) by {
                        assert(self.edges@[a].0 == e0[a].0);
                    }
                }
            },
            None => {
                self.edges.push((caller.duplicate(), targets));
                proof {
                    assert forall|d: NodeView| #[trigger] adjacency(self.edges@, d) == if d == caller@ {
                        views(self.edges@.last().1@)
                    } else {
                        adjacency(e0, d)
                    } by {
                        lemma_adjacency_push(e0, caller@, self.edges@.last(), d);
                    }
                    assert(self.edges@.map_values(|e: (SymbolNode, Vec<SymbolNode>)| e.0@) =~= keys0.push(caller@));
                    let ghost keys1 = self.edges@.map_values(|e: (SymbolNode, Vec<SymbolNode>)| e.0@);
                    assert forall|a: int, b: int| 0 <= a < b < keys1.len() implies #[trigger] keys1[a] != #[trigger] keys1[b] by {
                        if b == keys1.len() - 1 {
                            assert(e0[a].0@ != caller@);
                        } else {
                            assert(keys0[a] != keys0[b]);
                        }
                    }
                    assert(adjacency(e0, caller@) =~= Seq::<NodeView>::empty()) by {
                        lemma_adjacency_absent(e0, caller@);
                    }
                    assert(views(self.edges@.last().1@) =~= Seq::<NodeView>::empty() + views(targets@));
                    assert forall|a: int, j: int|
                        0 <= a < self.edges.len() && 0 <= j < self.edges@[a].1.len() implies views(self.nodes@).contains(
                            #[trigger] self.edges@[a].1@[j]@) by {
                        if a < e0.len() {
                            assert(self.edges@[a] == e0[a]);
                        }
                    }
                    assert forall|a: int| 0 <= a < self.edges.len() implies views(self.nodes@).contains(#[trigger] self.edges@[a].0@) by {
                        if a < e0.len() {
                            assert(self.edges@[a] == e0[a]);
                        }
                    }
                }
            },
        }
    }

    /// Record the edges calls to `callee_names` from `caller` make.
    fn record_name_edges(&mut self, caller: &SymbolNode, callee_names: &[Symbol], by_name: &ByName)
        requires
            old(self).wf(),
            old(self).spec_nodes().contains(caller@),
            by_name_within(by_name@, old(self).spec_nodes()),
        ensures
            final(self).wf(),
            final(self).spec_nodes() == old(self).spec_nodes(),
            final(self).spec_callees(caller@) == old(self).spec_callees(caller@) + name_targets(
                caller@,
                callee_names@,
                by_name@,
            ),
            forall|c: NodeView| c != caller@ ==> #[trigger] final(self).spec_callees(c) == old(self).spec_callees(c),
    {
        let mut targets: Vec<SymbolNode> = Vec::new();
        let mut i: usize = 0;
        while i < callee_names.len()
            invariant
                i <= callee_names.len(),
                views(targets@) == name_targets(caller@, callee_names@.subrange(0, i as int), by_name@),
                forall|j: int| 0 <= j < targets.len() ==> views(self.nodes@).contains(#[trigger] targets@[j]@),
                by_name_within(by_name@, views(self.nodes@)),
            decreases callee_names.len() - i,
        {
            assert(callee_names@.subrange(0, i + 1).drop_last() =~= callee_names@.subrange(0, i as int));
            let ghost before = targets@;
            match lookup_named(by_name, &callee_names[i]) {
                Some(ms) => match choose_target(caller, ms) {
                    Some(t) => {
                        if !t.same(caller) {
                            targets.push(t.duplicate());
                            assert(views(targets@) =~= views(before).push(t@));
                            proof {
                                let k = choose|k: int| 0 <= k < by_name.len() && by_name@[k].1 == *ms;
                                let j = choose|j: int| 0 <= j < ms.len() && ms@[j] == *t;
                                assert(by_name@[k].1@[j]@ == t@);
                            }
                        }
                    },
                    None => {},
                },
                None => {},
            }
            i = i + 1;
        }
        assert(callee_names@.subrange(0, callee_names@.len() as int) =~= callee_names@);
        if targets.len() > 0 {
            self.append_callees(caller, targets);
        } else {
            assert(views(targets@) =~= Seq::<NodeView>::empty());
            assert(self.spec_callees(caller@) + name_targets(caller@, callee_names@, by_name@) =~= self.spec_callees(caller@));
        }
    }

    /// `true` iff `n` is a node.
    fn has_node(&self, n: &SymbolNode) -> (r: bool)
        ensures
            r <==> views(self.nodes@).contains(n@),
    {
        let mut k: usize = 0;
        while k < self.nodes.len()
            invariant
                k <= self.nodes.len(),
                forall|q: int| 0 <= q < k ==> self.nodes@[q]@ != n@,
            decreases self.nodes.len() - k,
        {
            if self.nodes[k].same(n) {
                assert(views(self.nodes@)[k as int] == n@);
                return true;
            }
            k = k + 1;
        }
        false
    }

    /// Record the edge a custom-hook call from `caller` makes.
    fn record_hook_edge(&mut self, caller: &SymbolNode, entry: &HookEntry, by_name: &ByName)
        requires
            old(self).wf(),
            old(self).spec_nodes().contains(caller@),
            by_name_within(by_name@, old(self).spec_nodes()),
        ensures
            final(self).wf(),
            final(self).spec_nodes() == old(self).spec_nodes(),
            final(self).spec_callees(caller@) == old(self).spec_callees(caller@) + match hook_target(
                caller@,
                *entry,
                old(self).spec_nodes(),
                by_name@,
            ) {
                Some(t) => seq![t],
                None => Seq::<NodeView>::empty(),
            },
            forall|c: NodeView| c != caller@ ==> #[trigger] final(self).spec_callees(c) == old(self).spec_callees(c),
    {
        if let HookEntry::Custom { name, resolved_file, .. } = entry {
            if let Some(file) = resolved_file {
                let target = SymbolNode::new(file.clone(), name.clone(), SymbolKind::Hook);
                if self.has_node(&target) {
                    let mut t: Vec<SymbolNode> = Vec::new();
                    t.push(target);
                    assert(views(t@) =~= seq![t@[0]@]);
                    self.append_callees(caller, t);
                    return;
                }
            }
            match lookup_named(by_name, name) {
                Some(ms) => match choose_target(caller, ms) {
                    Some(target) => {
                        let mut t: Vec<SymbolNode> = Vec::new();
                        t.push(target.duplicate());
                        proof {
                            let k = choose|k: int| 0 <= k < by_name.len() && by_name@[k].1 == *ms;
                            let j = choose|j: int| 0 <= j < ms.len() && ms@[j] == *target;
                            assert(by_name@[k].1@[j]@ == target@);
                        }
                        assert(views(t@) =~= seq![target@]);
                        self.append_callees(caller, t);
                        return;
                    },
                    None => {},
                },
                None => {},
            }
        }
        assert(self.spec_callees(caller@) + Seq::<NodeView>::empty() =~= self.spec_callees(caller@));
    }
}

/// Replacing the callee list of entry `p` changes the adjacency of its key
/// only.
proof fn lemma_adjacency_update(e: Seq<(SymbolNode, Vec<SymbolNode>)>, p: int, l: Vec<SymbolNode>, c: NodeView)
    requires
        0 <= p < e.len(),
        distinct_views(e.map_values(|x: (SymbolNode, Vec<SymbolNode>)| x.0@)),
    ensures
        adjacency(e.update(p, (e[p].0, l)), c) == if c == e[p].0@ {
            views(l@)
        } else {
            adjacency(e, c)
        },
    decreases e.len(),
{
    let u = e.update(p, (e[p].0, l));
    let keys = e.map_values(|x: (SymbolNode, Vec<SymbolNode>)| x.0@);
    if p == 0 {
        assert(u.drop_first() =~= e.drop_first());
    } else {
        assert(u[0] == e[0]);
        if e[0].0@ == c {
            assert(keys[0] != keys[p]);
        } else {
            assert(u.drop_first() =~= e.drop_first().update(p - 1, (e[p].0, l)));
            assert(e.drop_first().map_values(|x: (SymbolNode, Vec<SymbolNode>)| x.0@) =~= keys.drop_first());
            assert(e.drop_first()[p - 1] == e[p]);
            lemma_adjacency_update(e.drop_first(), p - 1, l, c);
        }
    }
}

/// A key absent from every entry has no callees.
proof fn lemma_adjacency_absent(e: Seq<(SymbolNode, Vec<SymbolNode>)>, c: NodeView)
    requires
        forall|q: int| 0 <= q < e.len() ==> e[q].0@ != c,
    ensures
        adjacency(e, c) == Seq::<NodeView>::empty(),
    decreases e.len(),
{
    if e.len() > 0 {
        lemma_adjacency_absent(e.drop_first(), c);
    }
}

/// Pushing an entry for a new key gives it that entry's callees and leaves
/// every other key's.
proof fn lemma_adjacency_push(e: Seq<(SymbolNode, Vec<SymbolNode>)>, c: NodeView, x: (SymbolNode, Vec<SymbolNode>), d: NodeView)
    requires
        x.0@ == c,
        forall|q: int| 0 <= q < e.len() ==> e[q].0@ != c,
    ensures
        adjacency(e.push(x), d) == if d == c {
            views(x.1@)
        } else {
            adjacency(e, d)
        },
    decreases e.len(),
{
    if e.len() == 0 {
        assert(e.push(x).drop_first() =~= Seq::<(SymbolNode, Vec<SymbolNode>)>::empty());
        assert(adjacency(Seq::<(SymbolNode, Vec<SymbolNode>)>::empty(), d) == Seq::<NodeView>::empty());
    } else {
        assert(e.push(x)[0] == e[0]);
        assert(e.push(x).drop_first() =~= e.drop_first().push(x));
        if e[0].0@ != d {
            lemma_adjacency_push(e.drop_first(), c, x, d);
        }
    }
}

// ── Topological order ───────────────────────────────────────────────────────

/// `x` occurs in `out` before position `i`.
pub open spec fn occurs_before(out: Seq<NodeView>, i: int, x: NodeView) -> bool {
    exists|q: int| 0 <= q < i && out[q] == x
}

/// The node at position `i` of `out` calls some node outside `out[..k]`.
pub open spec fn calls_past(g: SymbolGraph, out: Seq<NodeView>, k: int, i: int) -> bool {
    exists|m: int| 0 <= m < g.spec_callees(out[i]).len() && !out.subrange(0, k).contains(#[trigger] g.spec_callees(out[i])[m])
}

/// Every node in `out` is placed after all its callees for the first `k`
/// positions; the rest (the nodes on or downstream of a cycle) come in
/// ascending order, and each of them calls another of them.
pub open spec fn topo_split(g: SymbolGraph, out: Seq<NodeView>, k: int) -> bool {
    &&& 0 <= k <= out.len()
    &&& forall|i: int, m: int|
        0 <= i < out.len() && 0 <= m < g.spec_callees(out[i]).len() ==> out.contains(#[trigger] g.spec_callees(out[i])[m])
    &&& forall|i: int, m: int|
        0 <= i < k && 0 <= m < g.spec_callees(out[i]).len() ==> occurs_before(out, i, #[trigger] g.spec_callees(out[i])[m])
    &&& forall|i: int, j: int| k <= i < j < out.len() ==> node_lt(out[i], out[j])
    &&& forall|i: int| k <= i < out.len() ==> #[trigger] calls_past(g, out, k, i)
}

/// On a graph without cycles — witnessed by a rank under which every
/// callee ranks below its caller — a topological split leaves no remnant:
/// every node comes after all its callees.
pub proof fn lemma_topo_acyclic(g: SymbolGraph, out: Seq<NodeView>, k: int, rank: spec_fn(NodeView) -> nat)
    requires
        topo_split(g, out, k),
        forall|x: NodeView, m: int| 0 <= m < g.spec_callees(x).len() ==> rank(#[trigger] g.spec_callees(x)[m]) < rank(x),
    ensures
        k == out.len(),
{
    if k < out.len() {
        lemma_remnant_rank(g, out, k, rank, rank(out[k]) + 1);
        assert(rank(out[k]) >= rank(out[k]) + 1);
    }
}

/// Every remnant node ranks at least `b` when callees rank below callers.
proof fn lemma_remnant_rank(g: SymbolGraph, out: Seq<NodeView>, k: int, rank: spec_fn(NodeView) -> nat, b: nat)
    requires
        topo_split(g, out, k),
        forall|x: NodeView, m: int| 0 <= m < g.spec_callees(x).len() ==> rank(#[trigger] g.spec_callees(x)[m]) < rank(x),
    ensures
        forall|i: int| k <= i < out.len() ==> rank(#[trigger] out[i]) >= b,
    decreases b,
{
    if b > 0 {
        lemma_remnant_rank(g, out, k, rank, (b - 1) as nat);
        assert forall|i: int| k <= i < out.len() implies rank(#[trigger] out[i]) >= b by {
            assert(calls_past(g, out, k, i));
            let m = choose|m: int|
                0 <= m < g.spec_callees(out[i]).len() && !out.subrange(0, k).contains(#[trigger] g.spec_callees(out[i])[m]);
            let c = g.spec_callees(out[i])[m];
            assert(out.contains(c));
            let j = choose|j: int| 0 <= j < out.len() && out[j] == c;
            if j < k {
                assert(out.subrange(0, k)[j] == c);
            }
            assert(rank(out[j]) >= b - 1);
            assert(rank(c) < rank(out[i]));
        }
    }
}

/// The callees of `c` are all nodes.
proof fn lemma_callees_are_nodes(g: SymbolGraph, c: NodeView, m: int)
    requires
        g.wf(),
        0 <= m < g.spec_callees(c).len(),
    ensures
        g.spec_nodes().contains(g.spec_callees(c)[m]),
{
    lemma_adjacency_within(g.edges@, views(g.nodes@), c, m);
}

/// Each entry an adjacency lists is one of `nodes` when every edge list is.
proof fn lemma_adjacency_within(e: Seq<(SymbolNode, Vec<SymbolNode>)>, nodes: Seq<NodeView>, c: NodeView, m: int)
    requires
        forall|k: int, j: int| 0 <= k < e.len() && 0 <= j < e[k].1.len() ==> nodes.contains(#[trigger] e[k].1@[j]@),
        0 <= m < adjacency(e, c).len(),
    ensures
        nodes.contains(adjacency(e, c)[m]),
    decreases e.len(),
{
    if e[0].0@ == c {
        assert(adjacency(e, c)[m] == e[0].1@[m]@);
    } else {
        assert forall|k: int, j: int| 0 <= k < e.drop_first().len() && 0 <= j < e.drop_first()[k].1.len() implies nodes.contains(
            #[trigger] e.drop_first()[k].1@[j]@) by {
            assert(e.drop_first()[k] == e[k + 1]);
        }
        lemma_adjacency_within(e.drop_first(), nodes, c, m);
    }
}

/// The position of `x` among `nodes`.
fn index_of(nodes: &Vec<SymbolNode>, x: &SymbolNode) -> (r: usize)
    requires
        views(nodes@).contains(x@),
    ensures
        r < nodes.len(),
        nodes@[r as int]@ == x@,
{
    let mut k: usize = 0;
    while k < nodes.len()
        invariant
            k <= nodes.len(),
            views(nodes@).contains(x@),
            forall|q: int| 0 <= q < k ==> nodes@[q]@ != x@,
        decreases nodes.len() - k,
    {
        if nodes[k].same(x) {
            return k;
        }
        k = k + 1;
    }
    proof {
        let q = choose|q: int| 0 <= q < views(nodes@).len() && views(nodes@)[q] == x@;
        assert(nodes@[q]@ == x@);
    }
    0
}

/// `a` holds, position for position, the indices in `nv` of `cs`.
pub open spec fn indexes(nv: Seq<NodeView>, a: Seq<usize>, cs: Seq<NodeView>) -> bool {
    &&& a.len() == cs.len()
    &&& forall|k: int| 0 <= k < a.len() ==> #[trigger] a[k] < nv.len() && nv[a[k] as int] == cs[k]
}

/// Index `x` occurs in `out` before position `p`.
pub open spec fn index_before(out: Seq<usize>, p: int, x: usize) -> bool {
    exists|q: int| 0 <= q < p && out[q] == x
}

/// Every index `a` lists is placed.
pub open spec fn all_placed(a: Seq<usize>, placed: Seq<bool>) -> bool {
    forall|k: int| 0 <= k < a.len() ==> placed[#[trigger] a[k] as int]
}

/// The number of `false` entries.
pub open spec fn count_false(s: Seq<bool>) -> nat
    decreases s.len(),
{
    if s.len() == 0 {
        0
    } else {
        count_false(s.drop_last()) + if s.last() {
            0nat
        } else {
            1nat
        }
    }
}

/// Setting an unset entry lowers the count by one.
proof fn lemma_count_false_set(s: Seq<bool>, u: int)
    requires
        0 <= u < s.len(),
        !s[u],
    ensures
        count_false(s.update(u, true)) + 1 == count_false(s),
    decreases s.len(),
{
    let t = s.update(u, true);
    if u == s.len() - 1 {
        assert(t.drop_last() =~= s.drop_last());
    } else {
        assert(t.drop_last() =~= s.drop_last().update(u, true));
        lemma_count_false_set(s.drop_last(), u);
    }
}

/// `n` unset entries count `n`.
proof fn lemma_count_false_all(n: nat)
    ensures
        count_false(Seq::new(n, |i: int| false)) == n,
    decreases n,
{
    if n > 0 {
        assert(Seq::new(n, |i: int| false).drop_last() =~= Seq::new((n - 1) as nat, |i: int| false));
        lemma_count_false_all((n - 1) as nat);
    }
}

/// The indices of `idx`, ordered by the nodes they point to.
fn sort_by_node(nodes: &Vec<SymbolNode>, idx: Vec<usize>) -> (r: Vec<usize>)
    requires
        distinct_views(views(nodes@)),
        forall|i: int| 0 <= i < idx.len() ==> #[trigger] idx@[i] < nodes.len(),
        forall|i: int, j: int| 0 <= i < j < idx.len() ==> idx@[i] != idx@[j],
    ensures
        r.len() == idx.len(),
        forall|x: usize| r@.contains(x) <==> idx@.contains(x),
        forall|i: int| 0 <= i < r.len() ==> #[trigger] r@[i] < nodes.len(),
        forall|i: int, j: int| 0 <= i < j < r.len() ==> node_lt(nodes@[r@[i] as int]@, nodes@[r@[j] as int]@),
{
    let mut r: Vec<usize> = Vec::new();
    let mut i: usize = 0;
    while i < idx.len()
        invariant
            i <= idx.len(),
            distinct_views(views(nodes@)),
            forall|a: int| 0 <= a < idx.len() ==> #[trigger] idx@[a] < nodes.len(),
            forall|a: int, b: int| 0 <= a < b < idx.len() ==> idx@[a] != idx@[b],
            r.len() == i,
            forall|x: usize| r@.contains(x) <==> idx@.subrange(0, i as int).contains(x),
            forall|a: int| 0 <= a < r.len() ==> #[trigger] r@[a] < nodes.len(),
            forall|a: int, b: int| 0 <= a < b < r.len() ==> node_lt(nodes@[r@[a] as int]@, nodes@[r@[b] as int]@),
        decreases idx.len() - i,
    {
        let x = idx[i];
        assert(!r@.contains(x)) by {
            if r@.contains(x) {
                let a = choose|a: int| 0 <= a < i && idx@.subrange(0, i as int)[a] == x;
                assert(idx@[a] == idx@[i as int]);
            }
        }
        let mut p: usize = 0;
        while p < r.len() && node_lt_exec(&nodes[r[p]], &nodes[x])
            invariant
                p <= r.len(),
                x < nodes.len(),
                forall|a: int| 0 <= a < r.len() ==> #[trigger] r@[a] < nodes.len(),
                forall|q: int| 0 <= q < p ==> node_lt(nodes@[#[trigger] r@[q] as int]@, nodes@[x as int]@),
            decreases r.len() - p,
        {
            p = p + 1;
        }
        let ghost old_r = r@;
        proof {
            if p < r.len() {
                let y = r@[p as int];
                assert(y != x);
                assert(views(nodes@)[y as int] != views(nodes@)[x as int]);
                lemma_node_lt(nodes@[x as int]@, nodes@[y as int]@, nodes@[x as int]@);
            }
        }
        r.insert(p, x);
        proof {
            assert forall|a: int, b: int| 0 <= a < b < r.len() implies node_lt(nodes@[r@[a] as int]@, nodes@[r@[b] as int]@) by {
                let xv = nodes@[x as int]@;
                if b < p {
                    assert(r@[a] == old_r[a] && r@[b] == old_r[b]);
                } else if b == p {
                    assert(r@[a] == old_r[a]);
                } else if a == p {
                    assert(r@[b] == old_r[b - 1]);
                    if b - 1 > p {
                        lemma_node_lt(xv, nodes@[old_r[p as int] as int]@, nodes@[old_r[b - 1] as int]@);
                    }
                } else if a < p {
                    assert(r@[a] == old_r[a] && r@[b] == old_r[b - 1]);
                    lemma_node_lt(nodes@[old_r[a] as int]@, xv, nodes@[old_r[b - 1] as int]@);
                    if b - 1 >= p {
                        lemma_node_lt(nodes@[old_r[a] as int]@, nodes@[old_r[p as int] as int]@, nodes@[old_r[b - 1] as int]@);
                    }
                } else {
                    assert(r@[a] == old_r[a - 1] && r@[b] == old_r[b - 1]);
                }
            }
            let s0 = idx@.subrange(0, i as int);
            let s1 = idx@.subrange(0, i + 1);
            assert(s1 =~= s0.push(x));
            assert forall|y: usize| r@.contains(y) <==> s1.contains(y) by {
                if r@.contains(y) {
                    let a = choose|a: int| 0 <= a < r.len() && r@[a] == y;
                    if a == p {
                        assert(s1[i as int] == y);
                    } else {
                        if a < p {
                            assert(old_r[a] == y);
                        } else {
                            assert(old_r[a - 1] == y);
                        }
                        assert(old_r.contains(y));
                        assert(s0.contains(y));
                        let c = choose|c: int| 0 <= c < s0.len() && s0[c] == y;
                        assert(s1[c] == y);
                    }
                }
                if s1.contains(y) {
                    let c = choose|c: int| 0 <= c < s1.len() && s1[c] == y;
                    if c == i {
                        assert(r@[p as int] == x);
                    } else {
                        assert(s0[c] == y);
                        assert(s0.contains(y));
                        assert(old_r.contains(y));
                        let a = choose|a: int| 0 <= a < old_r.len() && old_r[a] == y;
                        if a < p {
                            assert(r@[a] == y);
                        } else {
                            assert(r@[a + 1] == y);
                        }
                    }
                }
            }
            assert forall|a: int| 0 <= a < r.len() implies #[trigger] r@[a] < nodes.len() by {
                if a < p {
                    assert(r@[a] == old_r[a]);
                } else if a > p {
                    assert(r@[a] == old_r[a - 1]);
                }
            }
        }
        i = i + 1;
    }
    assert(idx@.subrange(0, idx@.len() as int) =~= idx@);
    r
}

/// `true` iff `a` lists `u`.
fn has_index(a: &Vec<usize>, u: usize) -> (r: bool)
    ensures
        r <==> a@.contains(u),
{
    let mut k: usize = 0;
    while k < a.len()
        invariant
            k <= a.len(),
            forall|q: int| 0 <= q < k ==> a@[q] != u,
        decreases a.len() - k,
    {
        if a[k] == u {
            return true;
        }
        k = k + 1;
    }
    false
}

/// `true` iff every index `a` lists is placed.
fn all_placed_exec(a: &Vec<usize>, placed: &Vec<bool>) -> (r: bool)
    requires
        forall|k: int| 0 <= k < a.len() ==> #[trigger] a@[k] < placed.len(),
    ensures
        r == all_placed(a@, placed@),
{
    let mut k: usize = 0;
    while k < a.len()
        invariant
            k <= a.len(),
            forall|q: int| 0 <= q < a.len() ==> #[trigger] a@[q] < placed.len(),
            forall|q: int| 0 <= q < k ==> placed@[#[trigger] a@[q] as int],
        decreases a.len() - k,
    {
        if !placed[a[k]] {
            return false;
        }
        k = k + 1;
    }
    true
}

/// The index-level facts the sort ends with give a topological split of
/// the nodes they point to.
proof fn lemma_topo_result(
    g: SymbolGraph,
    nv: Seq<NodeView>,
    adj: Seq<Vec<usize>>,
    placed: Seq<bool>,
    out: Seq<usize>,
    rem: Seq<usize>,
    rv: Seq<NodeView>,
)
    requires
        g.wf(),
        nv == g.spec_nodes(),
        nv.len() <= usize::MAX,
        distinct_views(nv),
        adj.len() == nv.len(),
        placed.len() == nv.len(),
        forall|a: int| 0 <= a < nv.len() ==> indexes(nv, #[trigger] adj[a]@, g.spec_callees(nv[a])),
        forall|x: int| 0 <= x < nv.len() ==> (placed[x] <==> out.contains(x as usize)),
        forall|p: int| 0 <= p < out.len() ==> #[trigger] out[p] < nv.len(),
        forall|p: int, q: int| 0 <= p < q < out.len() ==> out[p] != out[q],
        forall|p: int, k: int|
            0 <= p < out.len() && 0 <= k < adj[out[p] as int].len() ==> index_before(out, p, #[trigger] adj[out[p] as int]@[k]),
        forall|x: usize| rem.contains(x) <==> x < nv.len() && !placed[x as int],
        forall|a: int| 0 <= a < rem.len() ==> #[trigger] rem[a] < nv.len(),
        forall|a: int, b: int| 0 <= a < b < rem.len() ==> node_lt(nv[rem[a] as int], nv[rem[b] as int]),
        forall|a: int| 0 <= a < rem.len() ==> !all_placed(#[trigger] adj[rem[a] as int]@, placed),
        rv.len() == out.len() + rem.len(),
        forall|q: int| 0 <= q < out.len() ==> rv[q] == nv[#[trigger] out[q] as int],
        forall|q: int| 0 <= q < rem.len() ==> rv[out.len() + q] == nv[#[trigger] rem[q] as int],
    ensures
        distinct_views(rv),
        forall|x: NodeView| rv.contains(x) <==> nv.contains(x),
        topo_split(g, rv, out.len() as int),
{
    let k = out.len() as int;
    assert forall|i: int, j: int| 0 <= i < j < rv.len() implies rv[i] != rv[j] by {
        if j < k {
            assert(rv[i] == nv[out[i] as int] && rv[j] == nv[out[j] as int]);
        } else if i >= k {
            assert(rv[i] == nv[rem[i - k] as int] && rv[j] == nv[rem[j - k] as int]);
            lemma_node_lt(nv[rem[i - k] as int], nv[rem[j - k] as int], nv[rem[i - k] as int]);
        } else {
            assert(rv[i] == nv[out[i] as int] && rv[j] == nv[rem[j - k] as int]);
            assert(rem.contains(rem[j - k]));
            assert(out.contains(out[i]));
            assert(placed[out[i] as int]);
            if rv[i] == rv[j] {
                assert(out[i] == rem[j - k]);
            }
        }
    }
    assert forall|x: NodeView| rv.contains(x) <==> nv.contains(x) by {
        if rv.contains(x) {
            let q = choose|q: int| 0 <= q < rv.len() && rv[q] == x;
            if q < k {
                assert(rv[q] == nv[out[q] as int]);
            } else {
                assert(rv[q] == nv[rem[q - k] as int]);
            }
        }
        if nv.contains(x) {
            let j = choose|j: int| 0 <= j < nv.len() && nv[j] == x;
            if placed[j] {
                assert(out.contains(j as usize));
                let q = choose|q: int| 0 <= q < out.len() && out[q] == j as usize;
                assert(rv[q] == nv[out[q] as int]);
                assert(rv[q] == x);
            } else {
                assert(rem.contains(j as usize));
                let q = choose|q: int| 0 <= q < rem.len() && rem[q] == j as usize;
                assert(rv[k + q] == nv[rem[q] as int]);
                assert(rv[k + q] == x);
            }
        }
    }
    assert forall|i: int, m: int|
        0 <= i < rv.len() && 0 <= m < g.spec_callees(rv[i]).len() implies rv.contains(
            #[trigger] g.spec_callees(rv[i])[m]) by {
        lemma_callees_are_nodes(g, rv[i], m);
    }
    assert forall|i: int, m: int| 0 <= i < k && 0 <= m < g.spec_callees(rv[i]).len() implies occurs_before(
        rv,
        i,
        #[trigger] g.spec_callees(rv[i])[m],
    ) by {
        let e = out[i] as int;
        assert(rv[i] == nv[e]);
        assert(indexes(nv, adj[e]@, g.spec_callees(nv[e])));
        assert(adj[e]@[m] < nv.len());
        assert(index_before(out, i, adj[out[i] as int]@[m]));
        let q = choose|q: int| 0 <= q < i && out[q] == adj[out[i] as int]@[m];
        assert(rv[q] == nv[out[q] as int]);
        assert(rv[q] == g.spec_callees(rv[i])[m]);
    }
    assert forall|i: int, j: int| k <= i < j < rv.len() implies node_lt(rv[i], rv[j]) by {
        assert(rv[i] == nv[rem[i - k] as int] && rv[j] == nv[rem[j - k] as int]);
    }
    assert forall|i: int| k <= i < rv.len() implies #[trigger] calls_past(g, rv, k, i) by {
        let e = rem[i - k] as int;
        assert(rv[i] == nv[e]);
        assert(!all_placed(adj[e]@, placed));
        let m = choose|m: int| 0 <= m < adj[e]@.len() && !placed[#[trigger] adj[e]@[m] as int];
        assert(indexes(nv, adj[e]@, g.spec_callees(nv[e])));
        let y = g.spec_callees(rv[i])[m];
        assert(y == nv[adj[e]@[m] as int]);
        if rv.subrange(0, k).contains(y) {
            let q = choose|q: int| 0 <= q < k && rv.subrange(0, k)[q] == y;
            assert(rv[q] == nv[out[q] as int]);
            assert(out[q] == adj[e]@[m]);
            assert(out.contains(adj[e]@[m]));
        }
    }
}

impl SymbolGraph {
    /// The nodes in dependency order. Kahn's algorithm emits callees before
    /// their callers: the ready nodes form a stack, each batch made ready at
    /// once pushed in ascending order and the top taken first; the nodes it
    /// cannot emit (on or downstream of a cycle) follow in ascending order,
    /// so every node appears exactly once.
    pub fn topo_sort(&self) -> (r: Vec<SymbolNode>)
        requires
            self.wf(),
        ensures
            r.len() == self.spec_nodes().len(),
            distinct_views(views(r@)),
            forall|x: NodeView| views(r@).contains(x) <==> self.spec_nodes().contains(x),
            exists|k: int| topo_split(*self, views(r@), k),
    {
        let n = self.nodes.len();
        let ghost nv = views(self.nodes@);
        let mut adj: Vec<Vec<usize>> = Vec::new();
        let mut i: usize = 0;
        while i < n
            invariant
                n == self.nodes.len(),
                nv == views(self.nodes@),
                self.wf(),
                i <= n,
                adj.len() == i,
                forall|a: int| 0 <= a < i ==> indexes(nv, #[trigger] adj@[a]@, self.spec_callees(nv[a])),
            decreases n - i,
        {
            let cs = self.callees_of(&self.nodes[i]);
            let mut a: Vec<usize> = Vec::new();
            let mut k: usize = 0;
            while k < cs.len()
                invariant
                    n == self.nodes.len(),
                    nv == views(self.nodes@),
                    self.wf(),
                    i < n,
                    views(cs@) == self.spec_callees(nv[i as int]),
                    k <= cs.len(),
                    a.len() == k,
                    forall|q: int| 0 <= q < k ==> #[trigger] a@[q] < n && nv[a@[q] as int] == cs@[q]@,
                decreases cs.len() - k,
            {
                proof {
                    lemma_callees_are_nodes(*self, nv[i as int], k as int);
                    assert(views(cs@)[k as int] == cs@[k as int]@);
                }
                let j = index_of(&self.nodes, &cs[k]);
                a.push(j);
                k = k + 1;
            }
            proof {
                assert forall|q: int| 0 <= q < a.len() implies #[trigger] a@[q] < nv.len() && nv[a@[q] as int]
                    == self.spec_callees(nv[i as int])[q] by {
                    assert(views(cs@)[q] == cs@[q]@);
                }
            }
            adj.push(a);
            i = i + 1;
        }
        let mut placed: Vec<bool> = vec![false; n];
        let mut ready0: Vec<usize> = Vec::new();
        let mut c: usize = 0;
        while c < n
            invariant
                n == self.nodes.len(),
                adj.len() == n,
                placed@ == Seq::new(n as nat, |q: int| false),
                c <= n,
                forall|a: int| 0 <= a < ready0.len() ==> #[trigger] ready0@[a] < c,
                forall|a: int, b: int| 0 <= a < b < ready0.len() ==> ready0@[a] < ready0@[b],
                forall|a: int| 0 <= a < ready0.len() ==> adj@[#[trigger] ready0@[a] as int].len() == 0,
                forall|q: int| 0 <= q < c && adj@[q].len() == 0 ==> ready0@.contains(q as usize),
            decreases n - c,
        {
            let ghost before = ready0@;
            if adj[c].len() == 0 {
                ready0.push(c);
            }
            proof {
                assert forall|q: int| 0 <= q < c + 1 && adj@[q].len() == 0 implies ready0@.contains(q as usize) by {
                    if q == c {
                        assert(ready0@[ready0.len() - 1] == q as usize);
                    } else {
                        let a = choose|a: int| 0 <= a < before.len() && before[a] == q as usize;
                        assert(ready0@[a] == q as usize);
                    }
                }
            }
            c = c + 1;
        }
        proof {
            assert(placed@ =~= Seq::new(n as nat, |q: int| false));
        }
        let mut ready = sort_by_node(&self.nodes, ready0);
        let mut out: Vec<usize> = Vec::new();
        proof {
            lemma_count_false_all(n as nat);
            assert forall|q: int| 0 <= q < n && !placed@[q] && all_placed(#[trigger] adj@[q]@, placed@) implies ready@.contains(
                q as usize) by {
                if adj@[q]@.len() > 0 {
                    assert(placed@[adj@[q]@[0] as int]);
                }
                assert(ready0@.contains(q as usize));
            }
            assert forall|a: int| 0 <= a < ready.len() implies #[trigger] ready@[a] < n && !placed@[ready@[a] as int]
                && all_placed(adj@[ready@[a] as int]@, placed@) by {
                assert(ready0@.contains(ready@[a]));
            }
            assert forall|a: int, b: int| 0 <= a < b < ready.len() implies ready@[a] != ready@[b] by {
                lemma_node_lt(nv[ready@[a] as int], nv[ready@[b] as int], nv[ready@[a] as int]);
            }
        }
        while ready.len() > 0
            invariant
                n == self.nodes.len(),
                nv == views(self.nodes@),
                self.wf(),
                distinct_views(nv),
                adj.len() == n,
                placed.len() == n,
                forall|a: int| 0 <= a < n ==> indexes(nv, #[trigger] adj@[a]@, self.spec_callees(nv[a])),
                out.len() + count_false(placed@) == n,
                forall|x: int| 0 <= x < n ==> (placed@[x] <==> out@.contains(x as usize)),
                forall|p: int| 0 <= p < out.len() ==> #[trigger] out@[p] < n,
                forall|p: int, q: int| 0 <= p < q < out.len() ==> out@[p] != out@[q],
                forall|p: int, k: int|
                    0 <= p < out.len() && 0 <= k < adj@[out@[p] as int].len() ==> index_before(
                        out@,
                        p,
                        #[trigger] adj@[out@[p] as int]@[k],
                    ),
                forall|a: int|
                    0 <= a < ready.len() ==> #[trigger] ready@[a] < n && !placed@[ready@[a] as int] && all_placed(
                        adj@[ready@[a] as int]@,
                        placed@,
                    ),
                forall|a: int, b: int| 0 <= a < b < ready.len() ==> ready@[a] != ready@[b],
                forall|q: int| 0 <= q < n && !placed@[q] && all_placed(#[trigger] adj@[q]@, placed@) ==> ready@.contains(q as usize),
            decreases count_false(placed@), ready.len(),
        {
            let ghost ready_before = ready@;
            let u = ready.pop().unwrap();
            proof {
                assert(ready_before.last() == u);
                assert(ready@ =~= ready_before.drop_last());
            }
            if placed[u] {
                proof {
                    assert forall|q: int| 0 <= q < n && !placed@[q] && all_placed(#[trigger] adj@[q]@, placed@) implies ready@.contains(
                        q as usize) by {
                        assert(ready_before.contains(q as usize));
                        let a = choose|a: int| 0 <= a < ready_before.len() && ready_before[a] == q as usize;
                        assert(a != ready_before.len() - 1);
                        assert(ready@[a] == q as usize);
                    }
                }
                continue;
            }
            let ghost placed0 = placed@;
            let ghost out0 = out@;
            let ghost ready1 = ready@;
            proof {
                assert(all_placed(adj@[u as int]@, placed0));
            }
            placed.set(u, true);
            out.push(u);
            proof {
                lemma_count_false_set(placed0, u as int);
            }
            let mut next: Vec<usize> = Vec::new();
            let mut c: usize = 0;
            while c < n
                invariant
                    n == self.nodes.len(),
                    nv == views(self.nodes@),
                    adj.len() == n,
                    placed.len() == n,
                    u < n,
                    forall|a: int| 0 <= a < n ==> indexes(nv, #[trigger] adj@[a]@, self.spec_callees(nv[a])),
                    c <= n,
                    forall|a: int| 0 <= a < next.len() ==> #[trigger] next@[a] < c,
                    forall|a: int, b: int| 0 <= a < b < next.len() ==> next@[a] < next@[b],
                    forall|a: int|
                        0 <= a < next.len() ==> !placed@[#[trigger] next@[a] as int] && all_placed(adj@[next@[a] as int]@, placed@)
                            && adj@[next@[a] as int]@.contains(u),
                    forall|q: int|
                        0 <= q < c && !placed@[q] && all_placed(#[trigger] adj@[q]@, placed@) && adj@[q]@.contains(u)
                            ==> next@.contains(q as usize),
                decreases n - c,
            {
                proof {
                    assert(indexes(nv, adj@[c as int]@, self.spec_callees(nv[c as int])));
                }
                let ghost before = next@;
                if !placed[c] && has_index(&adj[c], u) && all_placed_exec(&adj[c], &placed) {
                    next.push(c);
                }
                proof {
                    assert forall|q: int|
                        0 <= q < c + 1 && !placed@[q] && all_placed(#[trigger] adj@[q]@, placed@) && adj@[q]@.contains(u)
                            implies next@.contains(q as usize) by {
                        if q == c {
                            assert(next@[next.len() - 1] == q as usize);
                        } else {
                            let a = choose|a: int| 0 <= a < before.len() && before[a] == q as usize;
                            assert(next@[a] == q as usize);
                        }
                    }
                }
                c = c + 1;
            }
            let mut next = sort_by_node(&self.nodes, next);
            let ghost next_s = next@;
            ready.append(&mut next);
            proof {
                assert(ready@ == ready1 + next_s);
                assert forall|x: int| 0 <= x < n implies (placed@[x] <==> out@.contains(x as usize)) by {
                    if x == u {
                        assert(out@[out0.len() as int] == u);
                    } else {
                        if out@.contains(x as usize) {
                            let p = choose|p: int| 0 <= p < out@.len() && out@[p] == x as usize;
                            assert(p < out0.len());
                            assert(out0[p] == x as usize);
                        }
                        if out0.contains(x as usize) {
                            let p = choose|p: int| 0 <= p < out0.len() && out0[p] == x as usize;
                            assert(out@[p] == x as usize);
                        }
                    }
                }
                assert(!out0.contains(u));
                assert forall|p: int, q: int| 0 <= p < q < out.len() implies out@[p] != out@[q] by {
                    if q == out0.len() {
                        assert(out0.contains(out0[p]));
                    } else {
                        assert(out@[p] == out0[p] && out@[q] == out0[q]);
                    }
                }
                assert forall|p: int, k: int|
                    0 <= p < out.len() && 0 <= k < adj@[out@[p] as int].len() implies index_before(
                        out@,
                        p,
                        #[trigger] adj@[out@[p] as int]@[k],
                    ) by {
                    if p == out0.len() {
                        let w = adj@[u as int]@[k];
                        assert(placed0[w as int]);
                        assert(out0.contains(w));
                        let q = choose|q: int| 0 <= q < out0.len() && out0[q] == w;
                        assert(out@[q] == w);
                    } else {
                        assert(out@[p] == out0[p]);
                        assert(index_before(out0, p, adj@[out0[p] as int]@[k]));
                        let q = choose|q: int| 0 <= q < p && out0[q] == adj@[out0[p] as int]@[k];
                        assert(out@[q] == out0[q]);
                    }
                }
                assert forall|a: int| 0 <= a < ready.len() implies #[trigger] ready@[a] < n && !placed@[ready@[a] as int]
                    && all_placed(adj@[ready@[a] as int]@, placed@) by {
                    if a < ready1.len() {
                        assert(ready@[a] == ready_before[a]);
                        assert(ready_before[a] != u) by {
                            assert(ready_before[ready_before.len() - 1] == u);
                        }
                        let e = ready@[a] as int;
                        assert forall|k: int| 0 <= k < adj@[e]@.len() implies placed@[#[trigger] adj@[e]@[k] as int] by {
                            assert(placed0[adj@[e]@[k] as int]);
                        }
                    } else {
                        assert(ready@[a] == next_s[a - ready1.len()]);
                        assert(next_s.contains(ready@[a]));
                    }
                }
                assert forall|a: int, b: int| 0 <= a < b < ready.len() implies ready@[a] != ready@[b] by {
                    if b < ready1.len() {
                        assert(ready@[a] == ready_before[a] && ready@[b] == ready_before[b]);
                    } else if a >= ready1.len() {
                        lemma_node_lt(
                            nv[next_s[a - ready1.len()] as int],
                            nv[next_s[b - ready1.len()] as int],
                            nv[next_s[a - ready1.len()] as int],
                        );
                    } else {
                        let e = ready@[a];
                        assert(e == ready_before[a]);
                        assert(all_placed(adj@[e as int]@, placed0));
                        assert(next_s.contains(ready@[b]));
                        if e == ready@[b] {
                            let kk = choose|kk: int| 0 <= kk < adj@[e as int]@.len() && adj@[e as int]@[kk] == u;
                            assert(placed0[adj@[e as int]@[kk] as int]);
                        }
                    }
                }
                assert forall|q: int| 0 <= q < n && !placed@[q] && all_placed(#[trigger] adj@[q]@, placed@) implies ready@.contains(
                    q as usize) by {
                    if all_placed(adj@[q]@, placed0) {
                        assert(ready_before.contains(q as usize));
                        let a = choose|a: int| 0 <= a < ready_before.len() && ready_before[a] == q as usize;
                        assert(a != ready_before.len() - 1);
                        assert(ready@[a] == q as usize);
                    } else {
                        let kk = choose|kk: int| 0 <= kk < adj@[q]@.len() && !placed0[#[trigger] adj@[q]@[kk] as int];
                        assert(adj@[q]@[kk] == u);
                        assert(adj@[q]@.contains(u));
                        assert(next_s.contains(q as usize));
                        let b = choose|b: int| 0 <= b < next_s.len() && next_s[b] == q as usize;
                        assert(ready@[ready1.len() + b] == q as usize);
                    }
                }
            }
        }
        let mut rem0: Vec<usize> = Vec::new();
        let mut c: usize = 0;
        while c < n
            invariant
                n == self.nodes.len(),
                placed.len() == n,
                c <= n,
                forall|a: int| 0 <= a < rem0.len() ==> #[trigger] rem0@[a] < c,
                forall|a: int, b: int| 0 <= a < b < rem0.len() ==> rem0@[a] < rem0@[b],
                forall|a: int| 0 <= a < rem0.len() ==> !placed@[#[trigger] rem0@[a] as int],
                forall|q: int| 0 <= q < c && !placed@[q] ==> rem0@.contains(q as usize),
                rem0.len() == count_false(placed@.subrange(0, c as int)),
            decreases n - c,
        {
            assert(placed@.subrange(0, c + 1).drop_last() =~= placed@.subrange(0, c as int));
            let ghost before = rem0@;
            if !placed[c] {
                rem0.push(c);
            }
            proof {
                assert forall|q: int| 0 <= q < c + 1 && !placed@[q] implies rem0@.contains(q as usize) by {
                    if q == c {
                        assert(rem0@[rem0.len() - 1] == q as usize);
                    } else {
                        let a = choose|a: int| 0 <= a < before.len() && before[a] == q as usize;
                        assert(rem0@[a] == q as usize);
                    }
                }
            }
            c = c + 1;
        }
        assert(placed@.subrange(0, n as int) =~= placed@);
        let rem = sort_by_node(&self.nodes, rem0);
        let mut r: Vec<SymbolNode> = Vec::new();
        let mut p: usize = 0;
        while p < out.len()
            invariant
                n == self.nodes.len(),
                nv == views(self.nodes@),
                forall|q: int| 0 <= q < out.len() ==> #[trigger] out@[q] < n,
                p <= out.len(),
                r.len() == p,
                forall|q: int| 0 <= q < p ==> r@[q]@ == nv[#[trigger] out@[q] as int],
            decreases out.len() - p,
        {
            r.push(self.nodes[out[p]].duplicate());
            p = p + 1;
        }
        let mut p: usize = 0;
        while p < rem.len()
            invariant
                n == self.nodes.len(),
                nv == views(self.nodes@),
                forall|q: int| 0 <= q < rem.len() ==> #[trigger] rem@[q] < n,
                p <= rem.len(),
                r.len() == out.len() + p,
                forall|q: int| 0 <= q < out.len() ==> r@[q]@ == nv[#[trigger] out@[q] as int],
                forall|q: int| 0 <= q < p ==> r@[out.len() + q]@ == nv[#[trigger] rem@[q] as int],
            decreases rem.len() - p,
        {
            r.push(self.nodes[rem[p]].duplicate());
            p = p + 1;
        }
        proof {
            assert forall|x: usize| rem@.contains(x) <==> x < nv.len() && !placed@[x as int] by {
                if rem@.contains(x) {
                    assert(rem0@.contains(x));
                    let a = choose|a: int| 0 <= a < rem0.len() && rem0@[a] == x;
                    assert(rem0@[a] < n);
                }
            }
            assert forall|a: int| 0 <= a < rem.len() implies !all_placed(#[trigger] adj@[rem@[a] as int]@, placed@) by {
                assert(rem0@.contains(rem@[a]));
                if all_placed(adj@[rem@[a] as int]@, placed@) {
                    assert(ready@.contains(rem@[a]));
                }
            }
            let rv = views(r@);
            lemma_topo_result(*self, nv, adj@, placed@, out@, rem@, rv);
            assert(topo_split(*self, views(r@), out.len() as int));
        }
        r
    }
}

// ── Building the graph ──────────────────────────────────────────────────────

/// The node a component stands for.
pub open spec fn comp_view(c: ComponentIR) -> NodeView {
    (c.file@, c.name@, SymbolKind::Component)
}

/// The node a custom hook stands for.
pub open spec fn hook_view(h: HookIR) -> NodeView {
    (h.file@, h.name@, SymbolKind::Hook)
}

/// The symbols of a batch, components first, in declaration order.
pub open spec fn batch(components: Seq<ComponentIR>, hooks: Seq<HookIR>) -> Seq<NodeView> {
    components.map_values(|c: ComponentIR| comp_view(c)) + hooks.map_values(|h: HookIR| hook_view(h))
}

/// The symbols of `b` named `x`, in order.
pub open spec fn named_in(b: Seq<NodeView>, x: Seq<char>) -> Seq<NodeView>
    decreases b.len(),
{
    if b.len() == 0 {
        Seq::empty()
    } else {
        let prev = named_in(b.drop_last(), x);
        if b.last().1 == x {
            prev.push(b.last())
        } else {
            prev
        }
    }
}

/// Which symbol of the batch a call of `x` from `caller` means.
pub open spec fn resolve(caller: NodeView, b: Seq<NodeView>, x: Seq<char>) -> Option<NodeView> {
    chosen(caller, named_in(b, x))
}

/// The hook a custom-hook call from `caller` means: that of its resolved
/// file when the batch has one, else the one its name resolves to.
pub open spec fn custom_target(caller: NodeView, entry: HookEntry, b: Seq<NodeView>) -> Option<NodeView> {
    match entry {
        HookEntry::Custom { name, resolved_file, .. } => {
            if resolved_file is Some && b.contains((resolved_file->0@, name@, SymbolKind::Hook)) {
                Some((resolved_file->0@, name@, SymbolKind::Hook))
            } else {
                resolve(caller, b, name@)
            }
        },
        _ => None,
    }
}

/// A body (`cfg` with its hook calls `hooks`) of `caller` depends on `t`:
/// a custom-hook call means `t`, or a call of a name that resolves to `t`
/// (other than `caller` itself) occurs in the body or a hook call.
pub open spec fn body_edge(caller: NodeView, cfg: CFG, hooks: Seq<HookEntry>, b: Seq<NodeView>, t: NodeView) -> bool {
    ||| exists|j: int| 0 <= j < hooks.len() && custom_target(caller, #[trigger] hooks[j], b) == Some(t)
    ||| exists|x: Seq<char>|
        (cfg_calls(cfg, x) || exists|j: int| 0 <= j < hooks.len() && hook_calls(#[trigger] hooks[j], x)) && #[trigger] resolve(
            caller,
            b,
            x,
        ) == Some(t) && t != caller
}

/// Some component or hook of the batch standing for `v` depends on `t`.
pub open spec fn depends(components: Seq<ComponentIR>, hooks: Seq<HookIR>, v: NodeView, t: NodeView) -> bool {
    let b = batch(components, hooks);
    ||| exists|i: int|
        0 <= i < components.len() && comp_view(#[trigger] components[i]) == v && body_edge(
            v,
            components[i].render_cfg,
            components[i].hooks@,
            b,
            t,
        )
    ||| exists|i: int|
        0 <= i < hooks.len() && hook_view(#[trigger] hooks[i]) == v && body_edge(v, hooks[i].body_cfg, hooks[i].hooks@, b, t)
}

/// No name has two entries.
pub open spec fn distinct_names(by_name: Seq<(Symbol, Vec<SymbolNode>)>) -> bool {
    forall|i: int, j: int| 0 <= i < j < by_name.len() ==> by_name[i].0@ != by_name[j].0@
}

/// `by_name` lists, for each name, exactly the symbols of `b` so named.
pub open spec fn indexes_names(by_name: Seq<(Symbol, Vec<SymbolNode>)>, b: Seq<NodeView>) -> bool {
    forall|x: Seq<char>| #[trigger] named(by_name, x) == if named_in(b, x).len() > 0 {
        Some(named_in(b, x))
    } else {
        None
    }
}

/// Replacing the list of entry `p` changes what its name lists only.
proof fn lemma_named_update(b: Seq<(Symbol, Vec<SymbolNode>)>, p: int, l: Vec<SymbolNode>, x: Seq<char>)
    requires
        0 <= p < b.len(),
        distinct_names(b),
    ensures
        named(b.update(p, (b[p].0, l)), x) == if x == b[p].0@ {
            Some(views(l@))
        } else {
            named(b, x)
        },
    decreases b.len(),
{
    let u = b.update(p, (b[p].0, l));
    if p == 0 {
        assert(u.drop_first() =~= b.drop_first());
    } else {
        assert(u[0] == b[0]);
        if b[0].0@ != x {
            assert(u.drop_first() =~= b.drop_first().update(p - 1, (b[p].0, l)));
            assert(b.drop_first()[p - 1] == b[p]);
            lemma_named_update(b.drop_first(), p - 1, l, x);
        }
    }
}

/// Pushing an entry for a new name lists its nodes and leaves every other
/// name's.
proof fn lemma_named_push(b: Seq<(Symbol, Vec<SymbolNode>)>, y: (Symbol, Vec<SymbolNode>), x: Seq<char>)
    requires
        forall|q: int| 0 <= q < b.len() ==> b[q].0@ != y.0@,
    ensures
        named(b.push(y), x) == if x == y.0@ {
            Some(views(y.1@))
        } else {
            named(b, x)
        },
    decreases b.len(),
{
    if b.len() == 0 {
        assert(b.push(y).drop_first() =~= Seq::<(Symbol, Vec<SymbolNode>)>::empty());
        assert(named(Seq::<(Symbol, Vec<SymbolNode>)>::empty(), x) is None);
    } else {
        assert(b.push(y)[0] == b[0]);
        assert(b[0].0@ != y.0@);
        assert(b.push(y).drop_first() =~= b.drop_first().push(y));
        if b[0].0@ != x {
            lemma_named_push(b.drop_first(), y, x);
        }
    }
}

/// Add `node` to the list of its name.
fn add_named(by_name: &mut ByName, node: SymbolNode)
    requires
        distinct_names(old(by_name)@),
    ensures
        distinct_names(final(by_name)@),
        forall|x: Seq<char>| #[trigger] named(final(by_name)@, x) == if x == node.name@ {
            Some(
                match named(old(by_name)@, x) {
                    Some(ms) => ms.push(node@),
                    None => seq![node@],
                },
            )
        } else {
            named(old(by_name)@, x)
        },
        forall|k: int, j: int|
            0 <= k < final(by_name).len() && 0 <= j < final(by_name)@[k].1.len() ==> #[trigger] final(by_name)@[k].1@[j]@
                == node@ || exists|k2: int, j2: int|
                0 <= k2 < old(by_name).len() && 0 <= j2 < old(by_name)@[k2].1.len() && old(by_name)@[k2].1@[j2]@
                    == final(by_name)@[k].1@[j]@,
{
    let ghost b0 = by_name@;
    let mut k: usize = 0;
    let mut pos: Option<usize> = None;
    while pos.is_none() && k < by_name.len()
        invariant
            by_name@ == b0,
            k <= by_name.len(),
            pos is None ==> forall|q: int| 0 <= q < k ==> by_name@[q].0@ != node.name@,
            pos matches Some(p) ==> p < by_name.len() && by_name@[p as int].0@ == node.name@,
        decreases by_name.len() - k + if pos is None {
            1int
        } else {
            0int
        },
    {
        if str_eq(by_name[k].0.as_str(), node.name.as_str()) {
            pos = Some(k);
        } else {
            k = k + 1;
        }
    }
    match pos {
        Some(p) => {
            let (key, mut list) = by_name.remove(p);
            let ghost l0 = list@;
            list.push(node);
            by_name.insert(p, (key, list));
            proof {
                assert(by_name@ == b0.update(p as int, (b0[p as int].0, by_name@[p as int].1)));
                assert(b0.update(p as int, (b0[p as int].0, b0[p as int].1)) =~= b0);
                lemma_named_update(b0, p as int, b0[p as int].1, node.name@);
                assert forall|x: Seq<char>| #[trigger] named(by_name@, x) == if x == node.name@ {
                    Some(
                        match named(b0, x) {
                            Some(ms) => ms.push(node@),
                            None => seq![node@],
                        },
                    )
                } else {
                    named(b0, x)
                } by {
                    lemma_named_update(b0, p as int, by_name@[p as int].1, x);
                    if x == node.name@ {
                        assert(views(by_name@[p as int].1@) =~= views(l0).push(node@));
                    }
                }
                assert forall|a: int, c: int| 0 <= a < c < by_name.len() implies by_name@[a].0@ != by_name@[c].0@ by {
                    assert(by_name@[a].0 == b0[a].0 && by_name@[c].0 == b0[c].0);
                }
                assert forall|a: int, j: int|
                    0 <= a < by_name.len() && 0 <= j < by_name@[a].1.len() implies #[trigger] by_name@[a].1@[j]@ == node@
                        || exists|k2: int, j2: int|
                        0 <= k2 < b0.len() && 0 <= j2 < b0[k2].1.len() && b0[k2].1@[j2]@ == by_name@[a].1@[j]@ by {
                    if a == p {
                        if j < l0.len() {
                            assert(b0[a].1@[j] == by_name@[a].1@[j]);
                        }
                    } else {
                        assert(b0[a] == by_name@[a]);
                    }
                }
            }
        },
        None => {
            let ghost nview = node@;
            let mut list: Vec<SymbolNode> = Vec::new();
            let name = node.name.clone();
            list.push(node);
            by_name.push((name, list));
            proof {
                assert forall|x: Seq<char>| #[trigger] named(by_name@, x) == if x == nview.1 {
                    Some(
                        match named(b0, x) {
                            Some(ms) => ms.push(nview),
                            None => seq![nview],
                        },
                    )
                } else {
                    named(b0, x)
                } by {
                    lemma_named_push(b0, by_name@.last(), x);
                    assert(views(by_name@.last().1@) =~= seq![nview]);
                    if x == nview.1 {
                        lemma_named_absent(b0, x);
                    }
                }
                assert forall|a: int, c: int| 0 <= a < c < by_name.len() implies by_name@[a].0@ != by_name@[c].0@ by {
                    if c < b0.len() {
                        assert(by_name@[a] == b0[a] && by_name@[c] == b0[c]);
                    } else {
                        assert(by_name@[a] == b0[a]);
                    }
                }
                assert forall|a: int, j: int|
                    0 <= a < by_name.len() && 0 <= j < by_name@[a].1.len() implies #[trigger] by_name@[a].1@[j]@ == nview
                        || exists|k2: int, j2: int|
                        0 <= k2 < b0.len() && 0 <= j2 < b0[k2].1.len() && b0[k2].1@[j2]@ == by_name@[a].1@[j]@ by {
                    if a < b0.len() {
                        assert(b0[a] == by_name@[a]);
                    } else {
                        assert(by_name@[a] == by_name@.last());
                        assert(views(by_name@.last().1@) =~= seq![nview]);
                        assert(views(by_name@[a].1@)[j] == by_name@[a].1@[j]@);
                    }
                }
            }
        },
    }
}

/// A name with no entry lists nothing.
proof fn lemma_named_absent(b: Seq<(Symbol, Vec<SymbolNode>)>, x: Seq<char>)
    requires
        forall|q: int| 0 <= q < b.len() ==> b[q].0@ != x,
    ensures
        named(b, x) is None,
    decreases b.len(),
{
    if b.len() > 0 {
        lemma_named_absent(b.drop_first(), x);
    }
}

/// The node a call of `x` from `caller` records, going by `by_name`.
pub open spec fn named_choice(caller: NodeView, by_name: Seq<(Symbol, Vec<SymbolNode>)>, x: Seq<char>) -> Option<NodeView> {
    match named(by_name, x) {
        Some(ms) => chosen(caller, ms),
        None => None,
    }
}

/// `body_edge`, going by the node list and `by_name` of a graph under
/// construction.
pub open spec fn body_edge_by(
    caller: NodeView,
    cfg: CFG,
    hooks: Seq<HookEntry>,
    nodes: Seq<NodeView>,
    by_name: Seq<(Symbol, Vec<SymbolNode>)>,
    t: NodeView,
) -> bool {
    ||| exists|j: int| 0 <= j < hooks.len() && hook_target(caller, #[trigger] hooks[j], nodes, by_name) == Some(t)
    ||| exists|x: Seq<char>|
        (cfg_calls(cfg, x) || exists|j: int| 0 <= j < hooks.len() && hook_calls(#[trigger] hooks[j], x)) && #[trigger] named_choice(
            caller,
            by_name,
            x,
        ) == Some(t) && t != caller
}

/// The edges calls to `names` record are the chosen nodes of those names,
/// other than the caller.
proof fn lemma_name_targets(caller: NodeView, names: Seq<Symbol>, by_name: Seq<(Symbol, Vec<SymbolNode>)>, t: NodeView)
    ensures
        name_targets(caller, names, by_name).contains(t) <==> exists|i: int|
            0 <= i < names.len() && #[trigger] named_choice(caller, by_name, names[i]@) == Some(t) && t != caller,
    decreases names.len(),
{
    if names.len() > 0 {
        let prev = name_targets(caller, names.drop_last(), by_name);
        lemma_name_targets(caller, names.drop_last(), by_name, t);
        let last = names.len() - 1;
        assert(names.last() == names[last]);
        if name_targets(caller, names, by_name).contains(t) {
            if !prev.contains(t) {
                let q = choose|q: int| 0 <= q < name_targets(caller, names, by_name).len() && name_targets(caller, names, by_name)[q] == t;
                assert(q == prev.len());
                assert(named_choice(caller, by_name, names[last]@) == Some(t));
            } else {
                let i = choose|i: int|
                    0 <= i < names.drop_last().len() && #[trigger] named_choice(caller, by_name, names.drop_last()[i]@) == Some(t)
                        && t != caller;
                assert(names.drop_last()[i] == names[i]);
            }
        }
        if exists|i: int| 0 <= i < names.len() && #[trigger] named_choice(caller, by_name, names[i]@) == Some(t) && t != caller {
            let i = choose|i: int| 0 <= i < names.len() && #[trigger] named_choice(caller, by_name, names[i]@) == Some(t) && t != caller;
            if i == last {
                let r = name_targets(caller, names, by_name);
                assert(r == prev.push(t));
                assert(r[prev.len() as int] == t);
            } else {
                assert(names.drop_last()[i] == names[i]);
                assert(named_choice(caller, by_name, names.drop_last()[i]@) == Some(t));
                let q = choose|q: int| 0 <= q < prev.len() && prev[q] == t;
                let r = name_targets(caller, names, by_name);
                assert(r[q] == t);
            }
        }
    }
}

/// A `by_name` that indexes the batch, over nodes that are the batch's,
/// records the edges `body_edge` describes.
proof fn lemma_body_edge_by(
    caller: NodeView,
    cfg: CFG,
    hooks: Seq<HookEntry>,
    nodes: Seq<NodeView>,
    by_name: Seq<(Symbol, Vec<SymbolNode>)>,
    b: Seq<NodeView>,
    t: NodeView,
)
    requires
        indexes_names(by_name, b),
        forall|y: NodeView| nodes.contains(y) <==> b.contains(y),
    ensures
        body_edge_by(caller, cfg, hooks, nodes, by_name, t) == body_edge(caller, cfg, hooks, b, t),
{
    assert forall|x: Seq<char>| #[trigger] named_choice(caller, by_name, x) == resolve(caller, b, x) by {
        assert(named(by_name, x) == if named_in(b, x).len() > 0 {
            Some(named_in(b, x))
        } else {
            None
        });
    }
    assert forall|e: HookEntry| hook_target(caller, e, nodes, by_name) == custom_target(caller, e, b) by {
        match e {
            HookEntry::Custom { name, resolved_file, .. } => {
                assert(named_choice(caller, by_name, name@) == resolve(caller, b, name@));
            },
            _ => {},
        }
    }
    if body_edge_by(caller, cfg, hooks, nodes, by_name, t) {
        if exists|j: int| 0 <= j < hooks.len() && hook_target(caller, #[trigger] hooks[j], nodes, by_name) == Some(t) {
            let j = choose|j: int| 0 <= j < hooks.len() && hook_target(caller, #[trigger] hooks[j], nodes, by_name) == Some(t);
            assert(custom_target(caller, hooks[j], b) == Some(t));
        } else {
            let x = choose|x: Seq<char>|
                (cfg_calls(cfg, x) || exists|j: int| 0 <= j < hooks.len() && hook_calls(#[trigger] hooks[j], x)) && #[trigger] named_choice(
                    caller,
                    by_name,
                    x,
                ) == Some(t) && t != caller;
            assert(resolve(caller, b, x) == Some(t));
        }
    }
    if body_edge(caller, cfg, hooks, b, t) {
        if exists|j: int| 0 <= j < hooks.len() && custom_target(caller, #[trigger] hooks[j], b) == Some(t) {
            let j = choose|j: int| 0 <= j < hooks.len() && custom_target(caller, #[trigger] hooks[j], b) == Some(t);
            assert(hook_target(caller, hooks[j], nodes, by_name) == Some(t));
        } else {
            let x = choose|x: Seq<char>|
                (cfg_calls(cfg, x) || exists|j: int| 0 <= j < hooks.len() && hook_calls(#[trigger] hooks[j], x)) && #[trigger] resolve(
                    caller,
                    b,
                    x,
                ) == Some(t) && t != caller;
            assert(named_choice(caller, by_name, x) == Some(t));
        }
    }
}

impl SymbolGraph {
    /// Record the edges one body of `caller` makes: those of its custom-hook
    /// calls and those of the names it calls.
    fn record_body(&mut self, caller: &SymbolNode, cfg: &CFG, hooks: &Vec<HookEntry>, by_name: &ByName)
        requires
            old(self).wf(),
            old(self).spec_nodes().contains(caller@),
            by_name_within(by_name@, old(self).spec_nodes()),
        ensures
            final(self).wf(),
            final(self).spec_nodes() == old(self).spec_nodes(),
            forall|c: NodeView| c != caller@ ==> #[trigger] final(self).spec_callees(c) == old(self).spec_callees(c),
            forall|t: NodeView|
                #[trigger] final(self).spec_callees(caller@).contains(t) <==> old(self).spec_callees(caller@).contains(t)
                    || body_edge_by(caller@, *cfg, hooks@, old(self).spec_nodes(), by_name@, t),
    {
        let ghost g0 = *self;
        let mut callees: Vec<Symbol> = Vec::new();
        collect_callees_in_cfg(cfg, &mut callees);
        let mut j: usize = 0;
        while j < hooks.len()
            invariant
                self.wf(),
                self.spec_nodes() == g0.spec_nodes(),
                g0.spec_nodes().contains(caller@),
                by_name_within(by_name@, g0.spec_nodes()),
                j <= hooks.len(),
                forall|c: NodeView| c != caller@ ==> #[trigger] self.spec_callees(c) == g0.spec_callees(c),
                forall|t: NodeView|
                    #[trigger] self.spec_callees(caller@).contains(t) <==> g0.spec_callees(caller@).contains(t) || exists|jj: int|
                        0 <= jj < j && hook_target(caller@, #[trigger] hooks@[jj], g0.spec_nodes(), by_name@) == Some(t),
                forall|x: Seq<char>|
                    #[trigger] name_set(callees@).contains(x) <==> cfg_calls(*cfg, x) || exists|jj: int|
                        0 <= jj < j && hook_calls(#[trigger] hooks@[jj], x),
            decreases hooks.len() - j,
        {
            let ghost before = self.spec_callees(caller@);
            let ghost names_before = callees@;
            self.record_hook_edge(caller, &hooks[j], by_name);
            collect_callees_in_hook_body(&hooks[j], &mut callees);
            proof {
                let tgt = hook_target(caller@, hooks@[j as int], g0.spec_nodes(), by_name@);
                assert forall|t: NodeView|
                    #[trigger] self.spec_callees(caller@).contains(t) <==> g0.spec_callees(caller@).contains(t) || exists|jj: int|
                        0 <= jj < j + 1 && hook_target(caller@, #[trigger] hooks@[jj], g0.spec_nodes(), by_name@) == Some(t) by {
                    let now = self.spec_callees(caller@);
                    match tgt {
                        Some(u) => {
                            assert(now == before + seq![u]);
                            if now.contains(t) {
                                let q = choose|q: int| 0 <= q < now.len() && now[q] == t;
                                if q < before.len() {
                                    assert(before[q] == t);
                                    assert(before.contains(t));
                                }
                            }
                            if before.contains(t) {
                                let q = choose|q: int| 0 <= q < before.len() && before[q] == t;
                                assert(now[q] == t);
                            }
                            if t == u {
                                assert(now[before.len() as int] == t);
                            }
                        },
                        None => {
                            assert(now =~= before);
                        },
                    }
                    if exists|jj: int| 0 <= jj < j + 1 && hook_target(caller@, #[trigger] hooks@[jj], g0.spec_nodes(), by_name@) == Some(t) {
                        let jj = choose|jj: int| 0 <= jj < j + 1 && hook_target(caller@, #[trigger] hooks@[jj], g0.spec_nodes(), by_name@) == Some(t);
                        if jj < j {
                            assert(before.contains(t) || g0.spec_callees(caller@).contains(t));
                        }
                    }
                }
                assert forall|x: Seq<char>|
                    #[trigger] name_set(callees@).contains(x) <==> cfg_calls(*cfg, x) || exists|jj: int|
                        0 <= jj < j + 1 && hook_calls(#[trigger] hooks@[jj], x) by {
                    if exists|jj: int| 0 <= jj < j + 1 && hook_calls(#[trigger] hooks@[jj], x) {
                        let jj = choose|jj: int| 0 <= jj < j + 1 && hook_calls(#[trigger] hooks@[jj], x);
                        if jj < j {
                            assert(name_set(names_before).contains(x));
                        }
                    }
                }
            }
            j = j + 1;
        }
        let ghost before = self.spec_callees(caller@);
        let names = callees.as_slice();
        self.record_name_edges(caller, names, by_name);
        proof {
            assert(names@ == callees@);
            assert forall|t: NodeView|
                #[trigger] self.spec_callees(caller@).contains(t) <==> g0.spec_callees(caller@).contains(t) || body_edge_by(
                    caller@,
                    *cfg,
                    hooks@,
                    g0.spec_nodes(),
                    by_name@,
                    t,
                ) by {
                let added = name_targets(caller@, callees@, by_name@);
                let now = self.spec_callees(caller@);
                assert(now == before + added);
                lemma_name_targets(caller@, callees@, by_name@, t);
                if now.contains(t) {
                    let q = choose|q: int| 0 <= q < now.len() && now[q] == t;
                    if q < before.len() {
                        assert(before[q] == t);
                        assert(before.contains(t));
                    } else {
                        assert(added[q - before.len()] == t);
                        assert(added.contains(t));
                        let i = choose|i: int| 0 <= i < callees@.len() && #[trigger] named_choice(caller@, by_name@, callees@[i]@) == Some(t)
                            && t != caller@;
                        assert(name_set(callees@).contains(callees@[i]@));
                    }
                }
                if before.contains(t) {
                    let q = choose|q: int| 0 <= q < before.len() && before[q] == t;
                    assert(now[q] == t);
                }
                if exists|x: Seq<char>|
                    (cfg_calls(*cfg, x) || exists|jj: int| 0 <= jj < hooks.len() && hook_calls(#[trigger] hooks@[jj], x))
                        && #[trigger] named_choice(caller@, by_name@, x) == Some(t) && t != caller@ {
                    let x = choose|x: Seq<char>|
                        (cfg_calls(*cfg, x) || exists|jj: int| 0 <= jj < hooks.len() && hook_calls(#[trigger] hooks@[jj], x))
                            && #[trigger] named_choice(caller@, by_name@, x) == Some(t) && t != caller@;
                    assert(name_set(callees@).contains(x));
                    let i = choose|i: int| 0 <= i < callees@.len() && #[trigger] callees@[i]@ == x;
                    assert(named_choice(caller@, by_name@, callees@[i]@) == Some(t));
                    assert(added.contains(t));
                    let q = choose|q: int| 0 <= q < added.len() && added[q] == t;
                    assert(now[before.len() + q] == t);
                }
            }
        }
    }
}

/// The nodes of `v` in ascending order, each once.
fn sort_dedup(v: &Vec<SymbolNode>) -> (r: Vec<SymbolNode>)
    ensures
        forall|x: NodeView| views(r@).contains(x) <==> views(v@).contains(x),
        forall|i: int, j: int| 0 <= i < j < r.len() ==> node_lt(r@[i]@, r@[j]@),
{
    let mut r: Vec<SymbolNode> = Vec::new();
    let mut i: usize = 0;
    while i < v.len()
        invariant
            i <= v.len(),
            forall|x: NodeView| views(r@).contains(x) <==> views(v@.subrange(0, i as int)).contains(x),
            forall|a: int, b: int| 0 <= a < b < r.len() ==> node_lt(r@[a]@, r@[b]@),
        decreases v.len() - i,
    {
        let y = &v[i];
        let mut p: usize = 0;
        while p < r.len() && node_lt_exec(&r[p], y)
            invariant
                p <= r.len(),
                forall|q: int| 0 <= q < p ==> node_lt(#[trigger] r@[q]@, y@),
            decreases r.len() - p,
        {
            p = p + 1;
        }
        let ghost old_r = r@;
        let ghost s0 = views(v@.subrange(0, i as int));
        let ghost s1 = views(v@.subrange(0, i + 1));
        proof {
            assert(s1 =~= s0.push(y@));
        }
        if p < r.len() && r[p].same(y) {
            proof {
                assert forall|x: NodeView| views(r@).contains(x) <==> s1.contains(x) by {
                    if x == y@ {
                        assert(views(r@)[p as int] == x);
                    }
                    if s1.contains(x) && x != y@ {
                        let c = choose|c: int| 0 <= c < s1.len() && s1[c] == x;
                        assert(s0[c] == x);
                    }
                    if s0.contains(x) {
                        let c = choose|c: int| 0 <= c < s0.len() && s0[c] == x;
                        assert(s1[c] == x);
                    }
                }
            }
        } else {
            proof {
                if p < r.len() {
                    lemma_node_lt(y@, r@[p as int]@, y@);
                }
            }
            r.insert(p, y.duplicate());
            proof {
                assert forall|a: int, b: int| 0 <= a < b < r.len() implies node_lt(r@[a]@, r@[b]@) by {
                    if b < p {
                        assert(r@[a] == old_r[a] && r@[b] == old_r[b]);
                    } else if b == p {
                        assert(r@[a] == old_r[a]);
                    } else if a == p {
                        assert(r@[b] == old_r[b - 1]);
                        if b - 1 > p {
                            lemma_node_lt(y@, old_r[p as int]@, old_r[b - 1]@);
                        }
                    } else if a < p {
                        assert(r@[a] == old_r[a] && r@[b] == old_r[b - 1]);
                        lemma_node_lt(old_r[a]@, y@, old_r[b - 1]@);
                        if b - 1 >= p {
                            lemma_node_lt(old_r[a]@, old_r[p as int]@, old_r[b - 1]@);
                        }
                    } else {
                        assert(r@[a] == old_r[a - 1] && r@[b] == old_r[b - 1]);
                    }
                }
                assert forall|x: NodeView| views(r@).contains(x) <==> s1.contains(x) by {
                    if views(r@).contains(x) {
                        let a = choose|a: int| 0 <= a < r.len() && views(r@)[a] == x;
                        if a == p {
                            assert(s1[i as int] == x);
                        } else {
                            if a < p {
                                assert(old_r[a]@ == x);
                                assert(views(old_r)[a] == x);
                            } else {
                                assert(old_r[a - 1]@ == x);
                                assert(views(old_r)[a - 1] == x);
                            }
                            assert(views(old_r).contains(x));
                            assert(s0.contains(x));
                            let c = choose|c: int| 0 <= c < s0.len() && s0[c] == x;
                            assert(s1[c] == x);
                        }
                    }
                    if s1.contains(x) {
                        let c = choose|c: int| 0 <= c < s1.len() && s1[c] == x;
                        if c == i {
                            assert(views(r@)[p as int] == x);
                        } else {
                            assert(s0[c] == x);
                            assert(views(old_r).contains(x));
                            let a = choose|a: int| 0 <= a < old_r.len() && views(old_r)[a] == x;
                            if a < p {
                                assert(views(r@)[a] == x);
                            } else {
                                assert(views(r@)[a + 1] == x);
                            }
                        }
                    }
                }
            }
        }
        i = i + 1;
    }
    assert(v@.subrange(0, v@.len() as int) =~= v@);
    r
}

/// The callees of an entry's key are that entry's list when keys are
/// distinct.
proof fn lemma_adjacency_key(e: Seq<(SymbolNode, Vec<SymbolNode>)>, q: int)
    requires
        0 <= q < e.len(),
        distinct_views(e.map_values(|x: (SymbolNode, Vec<SymbolNode>)| x.0@)),
    ensures
        adjacency(e, e[q].0@) == views(e[q].1@),
    decreases e.len(),
{
    let keys = e.map_values(|x: (SymbolNode, Vec<SymbolNode>)| x.0@);
    if q > 0 {
        assert(keys[0] != keys[q]);
        assert(e.drop_first().map_values(|x: (SymbolNode, Vec<SymbolNode>)| x.0@) =~= keys.drop_first());
        assert(e.drop_first()[q - 1] == e[q]);
        lemma_adjacency_key(e.drop_first(), q - 1);
    }
}

impl SymbolGraph {
    /// Add `node` unless it is one already.
    fn add_node(&mut self, node: &SymbolNode)
        requires
            old(self).wf(),
        ensures
            final(self).wf(),
            forall|x: NodeView| #[trigger] final(self).spec_nodes().contains(x) <==> old(self).spec_nodes().contains(x) || x == node@,
            forall|c: NodeView| #[trigger] final(self).spec_callees(c) == old(self).spec_callees(c),
    {
        if !self.has_node(node) {
            let ghost n0 = views(self.nodes@);
            self.nodes.push(node.duplicate());
            proof {
                assert(views(self.nodes@) =~= n0.push(node@));
                assert forall|x: NodeView| #[trigger] views(self.nodes@).contains(x) <==> n0.contains(x) || x == node@ by {
                    if n0.contains(x) {
                        let q = choose|q: int| 0 <= q < n0.len() && n0[q] == x;
                        assert(views(self.nodes@)[q] == x);
                    }
                    if x == node@ {
                        assert(views(self.nodes@)[n0.len() as int] == x);
                    }
                }
                assert forall|a: int, b: int| 0 <= a < b < views(self.nodes@).len() implies views(self.nodes@)[a] != views(
                    self.nodes@,
                )[b] by {
                    if b == n0.len() {
                        assert(views(self.nodes@)[a] == n0[a]);
                    }
                }
            }
        }
    }

    /// Put every callee list in ascending order, each callee once.
    fn sort_callee_lists(&mut self)
        requires
            old(self).wf(),
        ensures
            final(self).wf(),
            final(self).spec_nodes() == old(self).spec_nodes(),
            forall|c: NodeView, x: NodeView| #[trigger] final(self).spec_callees(c).contains(x) <==> old(self).spec_callees(c).contains(x),
            forall|c: NodeView, i: int, j: int|
                0 <= i < j < final(self).spec_callees(c).len() ==> node_lt(
                    #[trigger] final(self).spec_callees(c)[i],
                    #[trigger] final(self).spec_callees(c)[j],
                ),
    {
        let ghost e0 = self.edges@;
        let ghost keys0 = e0.map_values(|e: (SymbolNode, Vec<SymbolNode>)| e.0@);
        let mut k: usize = 0;
        while k < self.edges.len()
            invariant
                self.nodes == old(self).nodes,
                old(self).wf(),
                e0 == old(self).edges@,
                keys0 == e0.map_values(|e: (SymbolNode, Vec<SymbolNode>)| e.0@),
                self.edges.len() == e0.len(),
                k <= self.edges.len(),
                forall|q: int| 0 <= q < self.edges.len() ==> (#[trigger] self.edges@[q]).0 == e0[q].0,
                forall|q: int| k <= q < self.edges.len() ==> #[trigger] self.edges@[q] == e0[q],
                forall|q: int, x: NodeView|
                    0 <= q < k ==> (#[trigger] views(self.edges@[q].1@).contains(x) <==> views(e0[q].1@).contains(x)),
                forall|q: int, i: int, j: int|
                    0 <= q < k && 0 <= i < j < self.edges@[q].1.len() ==> node_lt(
                        #[trigger] self.edges@[q].1@[i]@,
                        #[trigger] self.edges@[q].1@[j]@,
                    ),
            decreases self.edges.len() - k,
        {
            let sorted = sort_dedup(&self.edges[k].1);
            let ghost sorted_v = sorted@;
            let ghost before = self.edges@;
            let (key, _) = self.edges.remove(k);
            self.edges.insert(k, (key, sorted));
            proof {
                assert(self.edges@ =~= before.update(k as int, (before[k as int].0, self.edges@[k as int].1)));
                assert(self.edges@[k as int].1@ == sorted_v);
                assert(before[k as int] == e0[k as int]);
                assert forall|q: int, x: NodeView|
                    0 <= q < k + 1 implies (#[trigger] views(self.edges@[q].1@).contains(x) <==> views(e0[q].1@).contains(x)) by {
                    if q < k {
                        assert(self.edges@[q] == before[q]);
                        assert(views(before[q].1@).contains(x) <==> views(e0[q].1@).contains(x));
                    }
                }
                assert forall|q: int, i: int, j: int|
                    0 <= q < k + 1 && 0 <= i < j < self.edges@[q].1.len() implies node_lt(
                        #[trigger] self.edges@[q].1@[i]@,
                        #[trigger] self.edges@[q].1@[j]@,
                    ) by {
                    if q < k {
                        assert(self.edges@[q] == before[q]);
                        assert(node_lt(before[q].1@[i]@, before[q].1@[j]@));
                    }
                }
            }
            k = k + 1;
        }
        proof {
            assert(self.edges@.map_values(|e: (SymbolNode, Vec<SymbolNode>)| e.0@) =~= keys0);
            assert forall|a: int, j: int|
                0 <= a < self.edges.len() && 0 <= j < self.edges@[a].1.len() implies views(self.nodes@).contains(
                    #[trigger] self.edges@[a].1@[j]@) by {
                assert(views(self.edges@[a].1@)[j] == self.edges@[a].1@[j]@);
                assert(views(self.edges@[a].1@).contains(self.edges@[a].1@[j]@));
                assert(views(e0[a].1@).contains(self.edges@[a].1@[j]@));
                let jj = choose|jj: int| 0 <= jj < views(e0[a].1@).len() && views(e0[a].1@)[jj] == self.edges@[a].1@[j]@;
                assert(e0[a].1@[jj]@ == self.edges@[a].1@[j]@);
            }
            assert forall|a: int| 0 <= a < self.edges.len() implies views(self.nodes@).contains(#[trigger] self.edges@[a].0@) by {
                assert(self.edges@[a].0 == e0[a].0);
            }
            assert forall|c: NodeView| #[trigger] adjacency(self.edges@, c) == adjacency(e0, c) || exists|q: int|
                0 <= q < e0.len() && keys0[q] == c && adjacency(self.edges@, c) == views(self.edges@[q].1@) && adjacency(e0, c)
                    == views(e0[q].1@) by {
                if exists|q: int| 0 <= q < e0.len() && keys0[q] == c {
                    let q = choose|q: int| 0 <= q < e0.len() && keys0[q] == c;
                    lemma_adjacency_key(e0, q);
                    lemma_adjacency_key(self.edges@, q);
                } else {
                    assert forall|q: int| 0 <= q < e0.len() implies e0[q].0@ != c by {
                        assert(keys0[q] == e0[q].0@);
                    }
                    assert forall|q: int| 0 <= q < self.edges@.len() implies self.edges@[q].0@ != c by {
                        assert(keys0[q] == e0[q].0@);
                        assert(self.edges@[q].0 == e0[q].0);
                    }
                    lemma_adjacency_absent(e0, c);
                    lemma_adjacency_absent(self.edges@, c);
                }
            }
            assert forall|c: NodeView, x: NodeView| #[trigger] adjacency(self.edges@, c).contains(x) <==> adjacency(e0, c).contains(x) by {
                if exists|q: int| 0 <= q < e0.len() && keys0[q] == c {
                    let q = choose|q: int| 0 <= q < e0.len() && keys0[q] == c;
                    lemma_adjacency_key(e0, q);
                    lemma_adjacency_key(self.edges@, q);
                    assert(views(self.edges@[q].1@).contains(x) <==> views(e0[q].1@).contains(x));
                } else {
                    assert forall|q: int| 0 <= q < e0.len() implies e0[q].0@ != c by {
                        assert(keys0[q] == e0[q].0@);
                    }
                    assert forall|q: int| 0 <= q < self.edges@.len() implies self.edges@[q].0@ != c by {
                        assert(keys0[q] == e0[q].0@);
                        assert(self.edges@[q].0 == e0[q].0);
                    }
                    lemma_adjacency_absent(e0, c);
                    lemma_adjacency_absent(self.edges@, c);
                }
            }
            assert forall|c: NodeView, i: int, j: int|
                0 <= i < j < adjacency(self.edges@, c).len() implies node_lt(
                    #[trigger] adjacency(self.edges@, c)[i],
                    #[trigger] adjacency(self.edges@, c)[j],
                ) by {
                if exists|q: int| 0 <= q < e0.len() && keys0[q] == c {
                    let q = choose|q: int| 0 <= q < e0.len() && keys0[q] == c;
                    lemma_adjacency_key(self.edges@, q);
                    assert(adjacency(self.edges@, c)[i] == self.edges@[q].1@[i]@);
                    assert(adjacency(self.edges@, c)[j] == self.edges@[q].1@[j]@);
                } else {
                    assert forall|q: int| 0 <= q < self.edges@.len() implies self.edges@[q].0@ != c by {
                        assert(keys0[q] == e0[q].0@);
                        assert(self.edges@[q].0 == e0[q].0);
                    }
                    lemma_adjacency_absent(self.edges@, c);
                }
            }
        }
    }
}

/// `s` with `a` pushed holds what `s` holds and `a`.
proof fn lemma_push_contains<A>(s: Seq<A>, a: A, x: A)
    ensures
        s.push(a).contains(x) <==> s.contains(x) || x == a,
{
    if s.contains(x) {
        let q = choose|q: int| 0 <= q < s.len() && s[q] == x;
        assert(s.push(a)[q] == x);
    }
    if x == a {
        assert(s.push(a)[s.len() as int] == x);
    }
    if s.push(a).contains(x) {
        let q = choose|q: int| 0 <= q < s.push(a).len() && s.push(a)[q] == x;
        if q < s.len() {
            assert(s[q] == x);
        }
    }
}

/// Adding the `i`-th symbol of `b` to an index of `b[..i]` indexes
/// `b[..i + 1]`.
proof fn lemma_index_step(
    bn0: Seq<(Symbol, Vec<SymbolNode>)>,
    bn1: Seq<(Symbol, Vec<SymbolNode>)>,
    b: Seq<NodeView>,
    i: int,
)
    requires
        0 <= i < b.len(),
        indexes_names(bn0, b.subrange(0, i)),
        forall|x: Seq<char>| #[trigger] named(bn1, x) == if x == b[i].1 {
            Some(
                match named(bn0, x) {
                    Some(ms) => ms.push(b[i]),
                    None => seq![b[i]],
                },
            )
        } else {
            named(bn0, x)
        },
    ensures
        indexes_names(bn1, b.subrange(0, i + 1)),
{
    let s0 = b.subrange(0, i);
    let s1 = b.subrange(0, i + 1);
    assert(s1.drop_last() =~= s0);
    assert(s1.last() == b[i]);
    assert forall|x: Seq<char>| #[trigger] named(bn1, x) == if named_in(s1, x).len() > 0 {
        Some(named_in(s1, x))
    } else {
        None
    } by {
        assert(named(bn0, x) == if named_in(s0, x).len() > 0 {
            Some(named_in(s0, x))
        } else {
            None
        });
        if x == b[i].1 {
            if named_in(s0, x).len() == 0 {
                assert(named_in(s0, x).push(b[i]) =~= seq![b[i]]);
            }
        }
    }
}

impl SymbolGraph {
    /// Record the symbol `node` of a batch: as a node, and under its name.
    fn add_symbol(&mut self, by_name: &mut ByName, node: SymbolNode, b: Ghost<Seq<NodeView>>, i: Ghost<int>)
        requires
            old(self).wf(),
            forall|c: NodeView| #[trigger] old(self).spec_callees(c) == Seq::<NodeView>::empty(),
            0 <= i@ < b@.len(),
            b@[i@] == node@,
            forall|x: NodeView| #[trigger] old(self).spec_nodes().contains(x) <==> b@.subrange(0, i@).contains(x),
            distinct_names(old(by_name)@),
            indexes_names(old(by_name)@, b@.subrange(0, i@)),
            by_name_within(old(by_name)@, old(self).spec_nodes()),
        ensures
            final(self).wf(),
            forall|c: NodeView| #[trigger] final(self).spec_callees(c) == Seq::<NodeView>::empty(),
            forall|x: NodeView| #[trigger] final(self).spec_nodes().contains(x) <==> b@.subrange(0, i@ + 1).contains(x),
            distinct_names(final(by_name)@),
            indexes_names(final(by_name)@, b@.subrange(0, i@ + 1)),
            by_name_within(final(by_name)@, final(self).spec_nodes()),
    {
        let ghost nv = node@;
        let ghost n0 = self.spec_nodes();
        self.add_node(&node);
        let ghost bn0 = by_name@;
        add_named(by_name, node);
        proof {
            lemma_index_step(bn0, by_name@, b@, i@);
            assert(b@.subrange(0, i@ + 1) =~= b@.subrange(0, i@).push(nv));
            assert forall|x: NodeView| #[trigger] self.spec_nodes().contains(x) <==> b@.subrange(0, i@ + 1).contains(x) by {
                lemma_push_contains(b@.subrange(0, i@), nv, x);
            }
            assert forall|k: int, j: int|
                0 <= k < by_name@.len() && 0 <= j < by_name@[k].1.len() implies self.spec_nodes().contains(
                    #[trigger] by_name@[k].1@[j]@) by {
                if by_name@[k].1@[j]@ != nv {
                    let (k2, j2) = choose|k2: int, j2: int|
                        0 <= k2 < bn0.len() && 0 <= j2 < bn0[k2].1.len() && bn0[k2].1@[j2]@ == by_name@[k].1@[j]@;
                    assert(n0.contains(bn0[k2].1@[j2]@));
                }
            }
        }
    }

    /// The graph of a batch. Each component and custom hook is a node; a
    /// body's custom-hook calls and the names it calls become edges to the
    /// symbols they resolve to, the callee lists ascending and without
    /// repeats.
    pub fn build(components: &[ComponentIR], hooks: &[HookIR]) -> (g: SymbolGraph)
        ensures
            g.wf(),
            forall|x: NodeView| #[trigger] g.spec_nodes().contains(x) <==> batch(components@, hooks@).contains(x),
            forall|v: NodeView, t: NodeView| #[trigger] g.spec_callees(v).contains(t) <==> depends(components@, hooks@, v, t),
            forall|v: NodeView, i: int, j: int|
                0 <= i < j < g.spec_callees(v).len() ==> node_lt(#[trigger] g.spec_callees(v)[i], #[trigger] g.spec_callees(v)[j]),
    {
        let ghost b = batch(components@, hooks@);
        let ghost cl = components@.len() as int;
        let mut graph = SymbolGraph::new();
        let mut by_name: ByName = Vec::new();
        proof {
            assert forall|x: NodeView| #[trigger] graph.spec_nodes().contains(x) <==> b.subrange(0, 0).contains(x) by {}
            assert forall|x: Seq<char>| #[trigger] named(by_name@, x) == if named_in(b.subrange(0, 0), x).len() > 0 {
                Some(named_in(b.subrange(0, 0), x))
            } else {
                None
            } by {}
        }
        let mut i: usize = 0;
        while i < components.len()
            invariant
                b == batch(components@, hooks@),
                cl == components@.len(),
                i <= components.len(),
                graph.wf(),
                forall|c: NodeView| #[trigger] graph.spec_callees(c) == Seq::<NodeView>::empty(),
                forall|x: NodeView| #[trigger] graph.spec_nodes().contains(x) <==> b.subrange(0, i as int).contains(x),
                distinct_names(by_name@),
                indexes_names(by_name@, b.subrange(0, i as int)),
                by_name_within(by_name@, graph.spec_nodes()),
            decreases components.len() - i,
        {
            let node = SymbolNode::new(components[i].file.clone(), components[i].name.clone(), SymbolKind::Component);
            assert(b[i as int] == comp_view(components@[i as int]));
            graph.add_symbol(&mut by_name, node, Ghost(b), Ghost(i as int));
            i = i + 1;
        }
        let mut j: usize = 0;
        while j < hooks.len()
            invariant
                b == batch(components@, hooks@),
                cl == components@.len(),
                j <= hooks.len(),
                graph.wf(),
                forall|c: NodeView| #[trigger] graph.spec_callees(c) == Seq::<NodeView>::empty(),
                forall|x: NodeView| #[trigger] graph.spec_nodes().contains(x) <==> b.subrange(0, cl + j).contains(x),
                distinct_names(by_name@),
                indexes_names(by_name@, b.subrange(0, cl + j)),
                by_name_within(by_name@, graph.spec_nodes()),
            decreases hooks.len() - j,
        {
            let node = SymbolNode::new(hooks[j].file.clone(), hooks[j].name.clone(), SymbolKind::Hook);
            assert(b[cl + j] == hook_view(hooks@[j as int]));
            graph.add_symbol(&mut by_name, node, Ghost(b), Ghost(cl + j));
            j = j + 1;
        }
        assert(b.subrange(0, cl + hooks@.len()) =~= b);
        let ghost nodes = graph.spec_nodes();
        let mut i: usize = 0;
        while i < components.len()
            invariant
                b == batch(components@, hooks@),
                cl == components@.len(),
                i <= components.len(),
                graph.wf(),
                graph.spec_nodes() == nodes,
                forall|x: NodeView| #[trigger] nodes.contains(x) <==> b.contains(x),
                indexes_names(by_name@, b),
                by_name_within(by_name@, nodes),
                forall|v: NodeView, t: NodeView|
                    #[trigger] graph.spec_callees(v).contains(t) <==> exists|ci: int|
                        0 <= ci < i && comp_view(#[trigger] components@[ci]) == v && body_edge(
                            v,
                            components@[ci].render_cfg,
                            components@[ci].hooks@,
                            b,
                            t,
                        ),
            decreases components.len() - i,
        {
            let caller = SymbolNode::new(components[i].file.clone(), components[i].name.clone(), SymbolKind::Component);
            proof {
                assert(b[i as int] == comp_view(components@[i as int]));
                assert(b.contains(caller@));
            }
            let ghost g0 = graph;
            graph.record_body(&caller, &components[i].render_cfg, &components[i].hooks, &by_name);
            proof {
                assert forall|v: NodeView, t: NodeView|
                    #[trigger] graph.spec_callees(v).contains(t) <==> exists|ci: int|
                        0 <= ci < i + 1 && comp_view(#[trigger] components@[ci]) == v && body_edge(
                            v,
                            components@[ci].render_cfg,
                            components@[ci].hooks@,
                            b,
                            t,
                        ) by {
                    if v == caller@ {
                        lemma_body_edge_by(caller@, components@[i as int].render_cfg, components@[i as int].hooks@, nodes, by_name@, b, t);
                        assert(g0.spec_callees(v).contains(t) <==> exists|ci: int|
                            0 <= ci < i && comp_view(#[trigger] components@[ci]) == v && body_edge(
                                v,
                                components@[ci].render_cfg,
                                components@[ci].hooks@,
                                b,
                                t,
                            ));
                    } else {
                        assert(g0.spec_callees(v).contains(t) <==> exists|ci: int|
                            0 <= ci < i && comp_view(#[trigger] components@[ci]) == v && body_edge(
                                v,
                                components@[ci].render_cfg,
                                components@[ci].hooks@,
                                b,
                                t,
                            ));
                    }
                }
            }
            i = i + 1;
        }
        let mut j: usize = 0;
        while j < hooks.len()
            invariant
                b == batch(components@, hooks@),
                cl == components@.len(),
                j <= hooks.len(),
                graph.wf(),
                graph.spec_nodes() == nodes,
                forall|x: NodeView| #[trigger] nodes.contains(x) <==> b.contains(x),
                indexes_names(by_name@, b),
                by_name_within(by_name@, nodes),
                forall|v: NodeView, t: NodeView|
                    #[trigger] graph.spec_callees(v).contains(t) <==> (exists|ci: int|
                        0 <= ci < cl && comp_view(#[trigger] components@[ci]) == v && body_edge(
                            v,
                            components@[ci].render_cfg,
                            components@[ci].hooks@,
                            b,
                            t,
                        )) || exists|hi: int|
                        0 <= hi < j && hook_view(#[trigger] hooks@[hi]) == v && body_edge(v, hooks@[hi].body_cfg, hooks@[hi].hooks@, b, t),
            decreases hooks.len() - j,
        {
            let caller = SymbolNode::new(hooks[j].file.clone(), hooks[j].name.clone(), SymbolKind::Hook);
            proof {
                assert(b[cl + j] == hook_view(hooks@[j as int]));
                assert(b.contains(caller@));
            }
            let ghost g0 = graph;
            graph.record_body(&caller, &hooks[j].body_cfg, &hooks[j].hooks, &by_name);
            proof {
                assert forall|v: NodeView, t: NodeView|
                    #[trigger] graph.spec_callees(v).contains(t) <==> (exists|ci: int|
                        0 <= ci < cl && comp_view(#[trigger] components@[ci]) == v && body_edge(
                            v,
                            components@[ci].render_cfg,
                            components@[ci].hooks@,
                            b,
                            t,
                        )) || exists|hi: int|
                        0 <= hi < j + 1 && hook_view(#[trigger] hooks@[hi]) == v && body_edge(v, hooks@[hi].body_cfg, hooks@[hi].hooks@, b, t) by {
                    assert(g0.spec_callees(v).contains(t) <==> (exists|ci: int|
                        0 <= ci < cl && comp_view(#[trigger] components@[ci]) == v && body_edge(
                            v,
                            components@[ci].render_cfg,
                            components@[ci].hooks@,
                            b,
                            t,
                        )) || exists|hi: int|
                        0 <= hi < j && hook_view(#[trigger] hooks@[hi]) == v && body_edge(v, hooks@[hi].body_cfg, hooks@[hi].hooks@, b, t));
                    if v == caller@ {
                        lemma_body_edge_by(caller@, hooks@[j as int].body_cfg, hooks@[j as int].hooks@, nodes, by_name@, b, t);
                    }
                }
            }
            j = j + 1;
        }
        graph.sort_callee_lists();
        proof {
            assert forall|v: NodeView, t: NodeView| #[trigger] graph.spec_callees(v).contains(t) <==> depends(components@, hooks@, v, t) by {
            }
        }
        graph
    }
}

} // verus!
