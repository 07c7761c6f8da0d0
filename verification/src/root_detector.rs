//! Which components a top-down analysis starts from.
use vstd::prelude::*;

use crate::cfg::{term_exprs, BasicBlock, Terminator, CFG};
use crate::component::ComponentIR;
use crate::component_id::{
    ascending_ids, first_at, has_id, ids_named_spec, origin_of, raw_ids, resolve_spec, ComponentId, EntryView,
};
use crate::component_id::ComponentTable;
use crate::component_registry::{name_views, ComponentRegistry};
use crate::expr::{children_of, Expr};
use crate::hooks::HookEntry;
use crate::stmt::{stmt_exprs, MemberKey, Stmt};
use crate::symbol_graph::{name_set, push_name};
use crate::text::{find_char, str_eq};
use crate::types::Symbol;

verus! {

/// How the root components (entry points of a top-down analysis) are chosen.
#[derive(Debug)]
pub enum RootStrategy {
    /// The components no body instantiates.
    Heuristic,
    /// Every component.
    AllComponents,
    /// The components the listed names select: a bare `Foo` selects every
    /// component written `Foo`, the qualified `Foo@file` (the display name a
    /// collision gets) exactly one.
    Explicit(Vec<Symbol>),
}

// ── What a body instantiates ────────────────────────────────────────────────

/// `e` instantiates a component written `n`: a `<n …>` element anywhere in
/// it, function literal bodies included.
pub open spec fn renders_expr(e: Expr, n: Seq<char>) -> bool
    decreases e,
{
    match e {
        Expr::CompApp { name, props, .. } => name@ == n || renders_expr(*props, n),
        Expr::FnLit { body_cfg, .. } => renders_cfg(*body_cfg, n),
        Expr::ObjectLit { fields, .. } => exists|i: int| 0 <= i < fields.len() && renders_expr(#[trigger] fields@[i].1, n),
        Expr::ArrayLit { elems, .. } => exists|i: int| 0 <= i < elems.len() && renders_expr(#[trigger] elems@[i], n),
        Expr::FieldAccess { obj, .. } => renders_expr(*obj, n),
        Expr::IndexAccess { arr, idx } => renders_expr(*arr, n) || renders_expr(*idx, n),
        Expr::BinOp { lhs, rhs, .. } => renders_expr(*lhs, n) || renders_expr(*rhs, n),
        Expr::UnaryOp { arg, .. } => renders_expr(*arg, n),
        Expr::Call { fn_, args } => renders_expr(*fn_, n) || exists|i: int| 0 <= i < args.len() && renders_expr(#[trigger] args@[i], n),
        Expr::NativeElem { props, children, .. } => renders_expr(*props, n) || exists|i: int|
            0 <= i < children.len() && renders_expr(#[trigger] children@[i], n),
        Expr::TSAnnotated(inner) => renders_expr(*inner, n),
        _ => false,
    }
}

/// A component element anywhere in the expression tree counts as rendered:
/// `e` instantiates `n` exactly when it is the element `<n …>`, when one of
/// the expressions directly inside it (props, children, members, callee,
/// arguments, operands) instantiates `n`, or when it is a function literal
/// whose body instantiates `n`.
pub proof fn lemma_renders_structure(e: Expr, n: Seq<char>)
    ensures
        renders_expr(e, n) <==> {
            ||| (e matches Expr::CompApp { name, .. } && name@ == n)
            ||| (e matches Expr::FnLit { body_cfg, .. } && renders_cfg(*body_cfg, n))
            ||| exists|k: int| 0 <= k < children_of(e).len() && renders_expr(#[trigger] children_of(e)[k], n)
        },
{
    let c = children_of(e);
    match e {
        Expr::Call { fn_, args } => {
            assert(c[0] == *fn_);
            if exists|k: int| 0 <= k < c.len() && renders_expr(#[trigger] c[k], n) {
                let k = choose|k: int| 0 <= k < c.len() && renders_expr(#[trigger] c[k], n);
                if k > 0 {
                    assert(c[k] == args@[k - 1]);
                }
            }
            if exists|i: int| 0 <= i < args.len() && renders_expr(#[trigger] args@[i], n) {
                let i = choose|i: int| 0 <= i < args.len() && renders_expr(#[trigger] args@[i], n);
                assert(c[i + 1] == args@[i]);
            }
        },
        Expr::NativeElem { props, children, .. } => {
            assert(c[0] == *props);
            if exists|k: int| 0 <= k < c.len() && renders_expr(#[trigger] c[k], n) {
                let k = choose|k: int| 0 <= k < c.len() && renders_expr(#[trigger] c[k], n);
                if k > 0 {
                    assert(c[k] == children@[k - 1]);
                }
            }
            if exists|i: int| 0 <= i < children.len() && renders_expr(#[trigger] children@[i], n) {
                let i = choose|i: int| 0 <= i < children.len() && renders_expr(#[trigger] children@[i], n);
                assert(c[i + 1] == children@[i]);
            }
        },
        Expr::CompApp { props, .. } => {
            assert(c[0] == *props);
        },
        Expr::ObjectLit { fields, .. } => {
            if exists|k: int| 0 <= k < c.len() && renders_expr(#[trigger] c[k], n) {
                let k = choose|k: int| 0 <= k < c.len() && renders_expr(#[trigger] c[k], n);
                assert(c[k] == fields@[k].1);
            }
            if exists|i: int| 0 <= i < fields.len() && renders_expr(#[trigger] fields@[i].1, n) {
                let i = choose|i: int| 0 <= i < fields.len() && renders_expr(#[trigger] fields@[i].1, n);
                assert(c[i] == fields@[i].1);
            }
        },
        Expr::FieldAccess { obj, .. } => {
            assert(c[0] == *obj);
        },
        Expr::IndexAccess { arr, idx } => {
            assert(c[0] == *arr && c[1] == *idx);
        },
        Expr::BinOp { lhs, rhs, .. } => {
            assert(c[0] == *lhs && c[1] == *rhs);
        },
        Expr::UnaryOp { arg, .. } => {
            assert(c[0] == *arg);
        },
        Expr::TSAnnotated(inner) => {
            assert(c[0] == *inner);
        },
        _ => {},
    }
}

/// A statement instantiates `n` in one of its expressions.
pub open spec fn renders_stmt(s: Stmt, n: Seq<char>) -> bool
    decreases s,
{
    match s {
        Stmt::Let { rhs, .. } => renders_expr(rhs, n),
        Stmt::Assign { rhs, .. } => renders_expr(rhs, n),
        Stmt::MemberWrite { obj, key, rhs, .. } => renders_expr(obj, n) || renders_expr(rhs, n) || (match key {
            MemberKey::Index(i) => renders_expr(i, n),
            _ => false,
        }),
        Stmt::ExprStmt(e, _) => renders_expr(e, n),
    }
}

/// A terminator instantiates `n` in its expression.
pub open spec fn renders_term(t: Terminator, n: Seq<char>) -> bool
    decreases t,
{
    match t {
        Terminator::Return(e) => renders_expr(e, n),
        Terminator::Branch { cond, .. } => renders_expr(cond, n),
        _ => false,
    }
}

/// A block instantiates `n` in a statement or its terminator.
pub open spec fn renders_block(b: BasicBlock, n: Seq<char>) -> bool
    decreases b,
{
    ||| exists|j: int| 0 <= j < b.stmts.len() && renders_stmt(#[trigger] b.stmts@[j], n)
    ||| renders_term(b.term, n)
}

/// Some block of `c` instantiates `n`.
pub open spec fn renders_cfg(c: CFG, n: Seq<char>) -> bool
    decreases c,
{
    exists|i: int| 0 <= i < c.blocks.len() && renders_block(#[trigger] c.blocks@[i], n)
}

/// A statement, a terminator or a whole body instantiates `n` exactly when
/// one of the expressions it evaluates does: statement by statement and
/// terminator by terminator, in every block.
pub proof fn lemma_renders_body(s: Stmt, t: Terminator, c: CFG, n: Seq<char>)
    ensures
        renders_stmt(s, n) <==> exists|k: int| 0 <= k < stmt_exprs(s).len() && renders_expr(#[trigger] stmt_exprs(s)[k], n),
        renders_term(t, n) <==> exists|k: int| 0 <= k < term_exprs(t).len() && renders_expr(#[trigger] term_exprs(t)[k], n),
        renders_cfg(c, n) <==> exists|i: int|
            0 <= i < c.blocks.len() && (renders_term(#[trigger] c.blocks@[i].term, n) || exists|j: int|
                0 <= j < c.blocks@[i].stmts.len() && renders_stmt(#[trigger] c.blocks@[i].stmts@[j], n)),
{
    let es = stmt_exprs(s);
    match s {
        Stmt::MemberWrite { obj, key, rhs, .. } => {
            assert(es[0] == obj && es[1] == rhs);
            if let MemberKey::Index(i) = key {
                assert(es[2] == i);
            }
        },
        Stmt::Let { rhs, .. } => {
            assert(es[0] == rhs);
        },
        Stmt::Assign { rhs, .. } => {
            assert(es[0] == rhs);
        },
        Stmt::ExprStmt(e, _) => {
            assert(es[0] == e);
        },
    }
    let ts = term_exprs(t);
    match t {
        Terminator::Return(e) => {
            assert(ts[0] == e);
        },
        Terminator::Branch { cond, .. } => {
            assert(ts[0] == cond);
        },
        _ => {},
    }
    if renders_cfg(c, n) {
        let i = choose|i: int| 0 <= i < c.blocks.len() && renders_block(#[trigger] c.blocks@[i], n);
        assert(renders_block(c.blocks@[i], n));
    }
    if exists|i: int|
        0 <= i < c.blocks.len() && (renders_term(#[trigger] c.blocks@[i].term, n) || exists|j: int|
            0 <= j < c.blocks@[i].stmts.len() && renders_stmt(#[trigger] c.blocks@[i].stmts@[j], n)) {
        let i = choose|i: int|
            0 <= i < c.blocks.len() && (renders_term(#[trigger] c.blocks@[i].term, n) || exists|j: int|
                0 <= j < c.blocks@[i].stmts.len() && renders_stmt(#[trigger] c.blocks@[i].stmts@[j], n));
        assert(renders_block(c.blocks@[i], n));
    }
}

/// The body of a hook call instantiates `n`.
pub open spec fn renders_hook(h: HookEntry, n: Seq<char>) -> bool {
    match h {
        HookEntry::Effect { body_cfg, .. } => renders_cfg(body_cfg, n),
        HookEntry::Memo { body_cfg, .. } => renders_cfg(body_cfg, n),
        HookEntry::Callback { body_cfg, .. } => renders_cfg(body_cfg, n),
        HookEntry::Handler { body_cfg, .. } => renders_cfg(body_cfg, n),
        _ => false,
    }
}

/// A component's render body or one of its hook bodies instantiates `n`.
pub open spec fn renders_comp(c: ComponentIR, n: Seq<char>) -> bool {
    renders_cfg(c.render_cfg, n) || exists|j: int| 0 <= j < c.hooks.len() && renders_hook(#[trigger] c.hooks@[j], n)
}

/// Some component of `comps` instantiates `n`.
pub open spec fn rendered(comps: Seq<ComponentIR>, n: Seq<char>) -> bool {
    exists|i: int| 0 <= i < comps.len() && renders_comp(#[trigger] comps[i], n)
}

/// Add to `out` every component name `e` instantiates.
#[verifier::loop_isolation(false)]
fn collect_in_expr(e: &Expr, out: &mut Vec<Symbol>)
    ensures
        forall|x: Seq<char>| #[trigger] name_set(final(out)@).contains(x) <==> name_set(old(out)@).contains(x) || renders_expr(*e, x),
    decreases e,
{
    let ghost o0 = out@;
    match e {
        Expr::CompApp { name, props, .. } => {
            push_name(out, name);
            collect_in_expr(&**props, out);
        },
        Expr::FnLit { body_cfg, .. } => {
            proof {
                assert(decreases_to!(*e => **body_cfg));
            }
            collect_in_cfg(&**body_cfg, out);
        },
        Expr::ObjectLit { fields, .. } => {
            let mut i: usize = 0;
            while i < fields.len()
                invariant
                    i <= fields.len(),
                    forall|x: Seq<char>| #[trigger] name_set(out@).contains(x) <==> name_set(o0).contains(x)
                        || exists|k: int| 0 <= k < i && renders_expr(#[trigger] fields@[k].1, x),
                decreases fields.len() - i,
            {
                proof {
                    assert(decreases_to!(*e => *fields));
                    assert(decreases_to!(*fields => fields@));
                    assert(decreases_to!(fields@ => fields@[i as int]));
                    assert(decreases_to!(fields@[i as int] => fields@[i as int].1));
                }
                collect_in_expr(&fields[i].1, out);
                proof {
                    assert forall|x: Seq<char>| #[trigger] name_set(out@).contains(x) <==> name_set(o0).contains(x)
                        || exists|k: int| 0 <= k < i + 1 && renders_expr(#[trigger] fields@[k].1, x) by {
                        if exists|k: int| 0 <= k < i + 1 && renders_expr(#[trigger] fields@[k].1, x) {
                            let k = choose|k: int| 0 <= k < i + 1 && renders_expr(#[trigger] fields@[k].1, x);
                            if k < i {
                            }
                        }
                    }
                }
                i = i + 1;
            }
        },
        Expr::ArrayLit { elems, .. } => collect_in_exprs(elems, out),
        Expr::FieldAccess { obj, .. } => collect_in_expr(&**obj, out),
        Expr::IndexAccess { arr, idx } => {
            collect_in_expr(&**arr, out);
            collect_in_expr(&**idx, out);
        },
        Expr::BinOp { lhs, rhs, .. } => {
            collect_in_expr(&**lhs, out);
            collect_in_expr(&**rhs, out);
        },
        Expr::UnaryOp { arg, .. } => collect_in_expr(&**arg, out),
        Expr::Call { fn_, args } => {
            collect_in_expr(&**fn_, out);
            collect_in_exprs(args, out);
        },
        Expr::NativeElem { props, children, .. } => {
            collect_in_expr(&**props, out);
            collect_in_exprs(children, out);
        },
        Expr::TSAnnotated(inner) => collect_in_expr(&**inner, out),
        _ => {},
    }
}

/// Add to `out` every component name one of `es` instantiates.
#[verifier::loop_isolation(false)]
fn collect_in_exprs(es: &Vec<Expr>, out: &mut Vec<Symbol>)
    ensures
        forall|x: Seq<char>| #[trigger] name_set(final(out)@).contains(x) <==> name_set(old(out)@).contains(x)
            || exists|k: int| 0 <= k < es.len() && renders_expr(#[trigger] es@[k], x),
    decreases es,
{
    let ghost o0 = out@;
    let mut i: usize = 0;
    while i < es.len()
        invariant
            i <= es.len(),
            forall|x: Seq<char>| #[trigger] name_set(out@).contains(x) <==> name_set(o0).contains(x)
                || exists|k: int| 0 <= k < i && renders_expr(#[trigger] es@[k], x),
        decreases es.len() - i,
    {
        proof {
            assert(decreases_to!(*es => es@));
            assert(decreases_to!(es@ => es@[i as int]));
        }
        collect_in_expr(&es[i], out);
        i = i + 1;
    }
}

/// Add to `out` every component name a statement instantiates.
fn collect_in_stmt(st: &Stmt, out: &mut Vec<Symbol>)
    ensures
        forall|x: Seq<char>| #[trigger] name_set(final(out)@).contains(x) <==> name_set(old(out)@).contains(x) || renders_stmt(*st, x),
    decreases st,
{
    match st {
        Stmt::Let { rhs, .. } => collect_in_expr(rhs, out),
        Stmt::Assign { rhs, .. } => collect_in_expr(rhs, out),
        Stmt::MemberWrite { obj, key, rhs, .. } => {
            collect_in_expr(obj, out);
            if let MemberKey::Index(i) = key {
                collect_in_expr(i, out);
            }
            collect_in_expr(rhs, out);
        },
        Stmt::ExprStmt(e, _) => collect_in_expr(e, out),
    }
}

/// Add to `out` every component name a block instantiates.
#[verifier::loop_isolation(false)]
fn collect_in_block(b: &BasicBlock, out: &mut Vec<Symbol>)
    ensures
        forall|x: Seq<char>| #[trigger] name_set(final(out)@).contains(x) <==> name_set(old(out)@).contains(x) || renders_block(*b, x),
    decreases b,
{
    let ghost o0 = out@;
    let mut j: usize = 0;
    while j < b.stmts.len()
        invariant
            j <= b.stmts.len(),
            forall|x: Seq<char>| #[trigger] name_set(out@).contains(x) <==> name_set(o0).contains(x) || exists|jj: int|
                0 <= jj < j && renders_stmt(#[trigger] b.stmts@[jj], x),
        decreases b.stmts.len() - j,
    {
        proof {
            assert(decreases_to!(*b => b.stmts));
            assert(decreases_to!(b.stmts => b.stmts@));
            assert(decreases_to!(b.stmts@ => b.stmts@[j as int]));
        }
        collect_in_stmt(&b.stmts[j], out);
        j = j + 1;
    }
    proof {
        assert(decreases_to!(*b => b.term));
    }
    match &b.term {
        Terminator::Return(e) => collect_in_expr(e, out),
        Terminator::Branch { cond, .. } => collect_in_expr(cond, out),
        _ => {},
    }
}

/// Add to `out` every component name a body instantiates.
#[verifier::loop_isolation(false)]
fn collect_in_cfg(c: &CFG, out: &mut Vec<Symbol>)
    ensures
        forall|x: Seq<char>| #[trigger] name_set(final(out)@).contains(x) <==> name_set(old(out)@).contains(x) || renders_cfg(*c, x),
    decreases c,
{
    let ghost o0 = out@;
    let mut i: usize = 0;
    while i < c.blocks.len()
        invariant
            i <= c.blocks.len(),
            forall|x: Seq<char>| #[trigger] name_set(out@).contains(x) <==> name_set(o0).contains(x) || exists|k: int|
                0 <= k < i && renders_block(#[trigger] c.blocks@[k], x),
        decreases c.blocks.len() - i,
    {
        proof {
            assert(decreases_to!(*c => c.blocks));
            assert(decreases_to!(c.blocks => c.blocks@));
            assert(decreases_to!(c.blocks@ => c.blocks@[i as int]));
        }
        collect_in_block(&c.blocks[i], out);
        i = i + 1;
    }
}

/// Add to `out` every component name a component's render body or hook
/// bodies instantiate.
fn collect_in_component(comp: &ComponentIR, out: &mut Vec<Symbol>)
    ensures
        forall|x: Seq<char>| #[trigger] name_set(final(out)@).contains(x) <==> name_set(old(out)@).contains(x) || renders_comp(*comp, x),
{
    let ghost o0 = out@;
    collect_in_cfg(&comp.render_cfg, out);
    let ghost o1 = out@;
    let mut j: usize = 0;
    while j < comp.hooks.len()
        invariant
            j <= comp.hooks.len(),
            forall|x: Seq<char>| #[trigger] name_set(out@).contains(x) <==> name_set(o0).contains(x) || renders_cfg(comp.render_cfg, x)
                || exists|jj: int| 0 <= jj < j && renders_hook(#[trigger] comp.hooks@[jj], x),
        decreases comp.hooks.len() - j,
    {
        match &comp.hooks[j] {
            HookEntry::Effect { body_cfg, .. } => collect_in_cfg(body_cfg, out),
            HookEntry::Memo { body_cfg, .. } => collect_in_cfg(body_cfg, out),
            HookEntry::Callback { body_cfg, .. } => collect_in_cfg(body_cfg, out),
            HookEntry::Handler { body_cfg, .. } => collect_in_cfg(body_cfg, out),
            _ => {},
        }
        proof {
            assert forall|x: Seq<char>| #[trigger] name_set(out@).contains(x) <==> name_set(o0).contains(x) || renders_cfg(comp.render_cfg, x)
                || exists|jj: int| 0 <= jj < j + 1 && renders_hook(#[trigger] comp.hooks@[jj], x) by {
                if exists|jj: int| 0 <= jj < j + 1 && renders_hook(#[trigger] comp.hooks@[jj], x) {
                    let jj = choose|jj: int| 0 <= jj < j + 1 && renders_hook(#[trigger] comp.hooks@[jj], x);
                    if jj < j {
                    }
                }
            }
        }
        j = j + 1;
    }
}

// ── Choosing roots ──────────────────────────────────────────────────────────

/// The listed `name` selects id `id` of a table holding `es`: the qualified
/// `Foo@file` the id it resolves to, a bare `Foo` every id written `Foo`.
pub open spec fn explicit_match(es: Seq<EntryView>, name: Seq<char>, id: u32) -> bool {
    if first_at(name) is Some {
        resolve_spec(es, name) == Some(id)
    } else {
        ids_named_spec(es, name).contains(id)
    }
}

/// The listed `name` selects some component.
pub open spec fn matches_any(es: Seq<EntryView>, name: Seq<char>) -> bool {
    exists|id: u32| explicit_match(es, name, id)
}

/// The listed names that select no component, in order.
pub open spec fn unmatched_spec(es: Seq<EntryView>, names: Seq<Symbol>) -> Seq<Seq<char>>
    decreases names.len(),
{
    if names.len() == 0 {
        Seq::empty()
    } else {
        let prev = unmatched_spec(es, names.drop_last());
        if matches_any(es, names.last()@) {
            prev
        } else {
            prev.push(names.last()@)
        }
    }
}

/// The ids the listed `name` selects.
fn explicit_matches(table: &ComponentTable, name: &Symbol) -> (r: Vec<ComponentId>)
    requires
        table.wf(),
    ensures
        forall|id: u32| #[trigger] raw_ids(r@).contains(id) <==> explicit_match(table.view(), name@, id),
{
    match find_char(name.as_str(), '@') {
        Some(i) => {
            assert(name@[i as int] == '@');
            assert(first_at(name@) is Some);
            let mut r: Vec<ComponentId> = Vec::new();
            match table.resolve_display_name(name.as_str()) {
                Some(id) => {
                    r.push(id);
                    assert(raw_ids(r@) =~= seq![id.0]);
                    assert forall|x: u32| #[trigger] raw_ids(r@).contains(x) <==> explicit_match(table.view(), name@, x) by {
                        if x == id.0 {
                            assert(raw_ids(r@)[0] == x);
                        }
                    }
                },
                None => {
                    assert(raw_ids(r@) =~= Seq::<u32>::empty());
                    assert forall|x: u32| #[trigger] raw_ids(r@).contains(x) <==> explicit_match(table.view(), name@, x) by {}
                },
            }
            r
        },
        None => {
            proof {
                if first_at(name@) is Some {
                    let i = choose|i: int| 0 <= i < name@.len() && name@[i] == '@';
                    assert(name@.contains('@'));
                }
            }
            let r = table.ids_named(name.as_str());
            assert(first_at(name@) is None);
            assert forall|id: u32| #[trigger] raw_ids(r@).contains(id) <==> explicit_match(table.view(), name@, id) by {}
            r
        },
    }
}

/// `true` iff `names` holds `n`.
fn has_name(names: &Vec<Symbol>, n: &str) -> (r: bool)
    ensures
        r == name_set(names@).contains(n@),
{
    let mut i: usize = 0;
    while i < names.len()
        invariant
            i <= names.len(),
            forall|q: int| 0 <= q < i ==> names@[q]@ != n@,
        decreases names.len() - i,
    {
        if str_eq(names[i].as_str(), n) {
            return true;
        }
        i = i + 1;
    }
    false
}

/// Add `id` to the ascending list `r` unless it is there.
fn insert_id(r: &mut Vec<ComponentId>, id: ComponentId)
    requires
        ascending_ids(raw_ids(old(r)@)),
    ensures
        ascending_ids(raw_ids(final(r)@)),
        forall|x: u32| #[trigger] raw_ids(final(r)@).contains(x) <==> raw_ids(old(r)@).contains(x) || x == id.0,
{
    let ghost r0 = raw_ids(r@);
    let mut p: usize = 0;
    while p < r.len() && r[p].0 < id.0
        invariant
            p <= r.len(),
            r0 == raw_ids(r@),
            forall|q: int| 0 <= q < p ==> r0[q] < id.0,
        decreases r.len() - p,
    {
        p = p + 1;
    }
    if p < r.len() && r[p].0 == id.0 {
        assert(r0[p as int] == id.0);
        return;
    }
    r.insert(p, id);
    proof {
        let r1 = raw_ids(r@);
        assert(r1 =~= r0.insert(p as int, id.0));
        assert forall|a: int, b: int| 0 <= a < b < r1.len() implies r1[a] < r1[b] by {
            if b < p {
            } else if b == p {
            } else if a == p {
                assert(r0[p as int] >= id.0);
            } else if a < p {
            } else {
            }
        }
        assert forall|x: u32| #[trigger] r1.contains(x) <==> r0.contains(x) || x == id.0 by {
            if r1.contains(x) {
                let a = choose|a: int| 0 <= a < r1.len() && r1[a] == x;
                if a < p {
                    assert(r0[a] == x);
                } else if a > p {
                    assert(r0[a - 1] == x);
                }
            }
            if x == id.0 {
                assert(r1[p as int] == x);
            }
            if r0.contains(x) {
                let a = choose|a: int| 0 <= a < r0.len() && r0[a] == x;
                if a < p {
                    assert(r1[a] == x);
                } else {
                    assert(r1[a + 1] == x);
                }
            }
        }
    }
}

impl RootStrategy {
    /// The roots to analyse, ascending by id. `Heuristic`: every component
    /// whose name no component's body instantiates. `AllComponents`: every
    /// component. `Explicit`: the components the listed names select.
    pub fn detect(&self, registry: &ComponentRegistry) -> (r: Vec<ComponentId>)
        requires
            registry.wf(),
        ensures
            ascending_ids(raw_ids(r@)),
            forall|id: u32| #[trigger] raw_ids(r@).contains(id) <==> match *self {
                RootStrategy::Heuristic => has_id(registry.spec_table().view(), id) && !rendered(
                    registry.values(),
                    origin_of(registry.spec_table().view(), id).1,
                ),
                RootStrategy::AllComponents => has_id(registry.spec_table().view(), id),
                RootStrategy::Explicit(names) => exists|k: int|
                    0 <= k < names.len() && explicit_match(registry.spec_table().view(), #[trigger] names@[k]@, id),
            },
    {
        proof {
            registry.lemma_table();
        }
        let table = registry.table();
        match self {
            RootStrategy::Heuristic => {
                let comps = registry.all_components();
                let ghost vals = registry.values();
                let mut names: Vec<Symbol> = Vec::new();
                let mut i: usize = 0;
                while i < comps.len()
                    invariant
                        comps@.map_values(|c: &ComponentIR| *c) == vals,
                        i <= comps.len(),
                        forall|x: Seq<char>| #[trigger] name_set(names@).contains(x) <==> exists|k: int|
                            0 <= k < i && renders_comp(#[trigger] vals[k], x),
                    decreases comps.len() - i,
                {
                    assert(vals[i as int] == *comps@[i as int]);
                    collect_in_component(comps[i], &mut names);
                    proof {
                        assert forall|x: Seq<char>| #[trigger] name_set(names@).contains(x) <==> exists|k: int|
                            0 <= k < i + 1 && renders_comp(#[trigger] vals[k], x) by {
                            if exists|k: int| 0 <= k < i + 1 && renders_comp(#[trigger] vals[k], x) {
                                let k = choose|k: int| 0 <= k < i + 1 && renders_comp(#[trigger] vals[k], x);
                                if k < i {
                                }
                            }
                        }
                    }
                    i = i + 1;
                }
                let ids = table.ids();
                let mut r: Vec<ComponentId> = Vec::new();
                let mut k: usize = 0;
                while k < ids.len()
                    invariant
                        table.wf(),
                        ascending_ids(raw_ids(ids@)),
                        forall|id: u32| #[trigger] raw_ids(ids@).contains(id) <==> has_id(table.view(), id),
                        k <= ids.len(),
                        ascending_ids(raw_ids(r@)),
                        forall|a: int| #![trigger r@[a]] 0 <= a < r.len() ==> exists|j: int| 0 <= j < k && r@[a] == #[trigger] ids@[j],
                        forall|id: u32| #[trigger] raw_ids(r@).contains(id) <==> exists|j: int|
                            0 <= j < k && ids@[j].0 == id && !name_set(names@).contains(origin_of(table.view(), id).1),
                    decreases ids.len() - k,
                {
                    let id = ids[k];
                    assert(raw_ids(ids@)[k as int] == id.0);
                    let nm = table.name(id);
                    let ghost before = r@;
                    match nm {
                        Some(n) => {
                            if !has_name(&names, n) {
                                r.push(id);
                            }
                        },
                        None => {},
                    }
                    proof {
                        assert forall|a: int, b: int| 0 <= a < b < r.len() implies raw_ids(r@)[a] < raw_ids(r@)[b] by {
                            if b == before.len() {
                                let j = choose|j: int| 0 <= j < k && before[a] == #[trigger] ids@[j];
                                assert(raw_ids(ids@)[j] < raw_ids(ids@)[k as int]);
                            } else {
                                assert(raw_ids(before)[a] < raw_ids(before)[b]);
                            }
                        }
                        assert forall|a: int| #![trigger r@[a]] 0 <= a < r.len() implies exists|j: int| 0 <= j < k + 1 && r@[a] == #[trigger] ids@[j] by {
                            if a == before.len() {
                                assert(r@[a] == ids@[k as int]);
                            } else {
                                let j = choose|j: int| 0 <= j < k && before[a] == #[trigger] ids@[j];
                                assert(r@[a] == ids@[j]);
                            }
                        }
                        assert forall|id2: u32| #[trigger] raw_ids(r@).contains(id2) <==> exists|j: int|
                            0 <= j < k + 1 && ids@[j].0 == id2 && !name_set(names@).contains(origin_of(table.view(), id2).1) by {
                            if raw_ids(r@).contains(id2) {
                                let a = choose|a: int| 0 <= a < r.len() && raw_ids(r@)[a] == id2;
                                if a < before.len() {
                                    assert(raw_ids(before)[a] == id2);
                                    assert(raw_ids(before).contains(id2));
                                }
                            }
                            if exists|j: int| 0 <= j < k + 1 && ids@[j].0 == id2 && !name_set(names@).contains(origin_of(table.view(), id2).1) {
                                let j = choose|j: int|
                                    0 <= j < k + 1 && ids@[j].0 == id2 && !name_set(names@).contains(origin_of(table.view(), id2).1);
                                if j < k {
                                    assert(raw_ids(before).contains(id2));
                                    let a = choose|a: int| 0 <= a < before.len() && raw_ids(before)[a] == id2;
                                    assert(raw_ids(r@)[a] == id2);
                                } else {
                                    assert(raw_ids(ids@).contains(id2));
                                    assert(raw_ids(r@)[before.len() as int] == id2);
                                }
                            }
                        }
                    }
                    k = k + 1;
                }
                proof {
                    assert(comps.len() == vals.len());
                    assert forall|id: u32| #[trigger] raw_ids(r@).contains(id) <==> has_id(table.view(), id) && !rendered(
                        vals,
                        origin_of(table.view(), id).1,
                    ) by {
                        let n = origin_of(table.view(), id).1;
                        assert(name_set(names@).contains(n) <==> rendered(vals, n));
                        if raw_ids(r@).contains(id) {
                            let j = choose|j: int|
                                0 <= j < ids.len() && ids@[j].0 == id && !name_set(names@).contains(origin_of(table.view(), id).1);
                            assert(raw_ids(ids@)[j] == id);
                            assert(raw_ids(ids@).contains(id));
                        }
                        if has_id(table.view(), id) && !rendered(vals, n) {
                            assert(raw_ids(ids@).contains(id));
                            let j = choose|j: int| 0 <= j < ids.len() && raw_ids(ids@)[j] == id;
                            assert(ids@[j].0 == id);
                        }
                    }
                }
                r
            },
            RootStrategy::AllComponents => table.ids(),
            RootStrategy::Explicit(names) => {
                let mut r: Vec<ComponentId> = Vec::new();
                let mut k: usize = 0;
                while k < names.len()
                    invariant
                        table.wf(),
                        k <= names.len(),
                        ascending_ids(raw_ids(r@)),
                        forall|id: u32| #[trigger] raw_ids(r@).contains(id) <==> exists|q: int|
                            0 <= q < k && explicit_match(table.view(), #[trigger] names@[q]@, id),
                    decreases names.len() - k,
                {
                    let m = explicit_matches(table, &names[k]);
                    let ghost before = raw_ids(r@);
                    let mut a: usize = 0;
                    while a < m.len()
                        invariant
                            a <= m.len(),
                            ascending_ids(raw_ids(r@)),
                            forall|id: u32| #[trigger] raw_ids(r@).contains(id) <==> before.contains(id) || exists|b: int|
                                0 <= b < a && raw_ids(m@)[b] == id,
                        decreases m.len() - a,
                    {
                        insert_id(&mut r, m[a]);
                        proof {
                            assert(raw_ids(m@)[a as int] == m@[a as int].0);
                            assert forall|id: u32| #[trigger] raw_ids(r@).contains(id) <==> before.contains(id) || exists|b: int|
                                0 <= b < a + 1 && raw_ids(m@)[b] == id by {
                                if exists|b: int| 0 <= b < a + 1 && raw_ids(m@)[b] == id {
                                    let b = choose|b: int| 0 <= b < a + 1 && raw_ids(m@)[b] == id;
                                    if b < a {
                                    }
                                }
                            }
                        }
                        a = a + 1;
                    }
                    proof {
                        assert forall|id: u32| #[trigger] raw_ids(r@).contains(id) <==> exists|q: int|
                            0 <= q < k + 1 && explicit_match(table.view(), #[trigger] names@[q]@, id) by {
                            if raw_ids(m@).contains(id) {
                                let b = choose|b: int| 0 <= b < m.len() && raw_ids(m@)[b] == id;
                            }
                            if exists|b: int| 0 <= b < m.len() && raw_ids(m@)[b] == id {
                                let b = choose|b: int| 0 <= b < m.len() && raw_ids(m@)[b] == id;
                                assert(raw_ids(m@).contains(id));
                            }
                            if exists|q: int| 0 <= q < k + 1 && explicit_match(table.view(), #[trigger] names@[q]@, id) {
                                let q = choose|q: int| 0 <= q < k + 1 && explicit_match(table.view(), #[trigger] names@[q]@, id);
                                if q < k {
                                    assert(before.contains(id));
                                }
                            }
                        }
                    }
                    k = k + 1;
                }
                r
            },
        }
    }

    /// The listed names that select no component; only `Explicit` lists
    /// any.
    pub fn unmatched(&self, registry: &ComponentRegistry) -> (r: Vec<Symbol>)
        requires
            registry.wf(),
        ensures
            name_views(r@) == match *self {
                RootStrategy::Explicit(names) => unmatched_spec(registry.spec_table().view(), names@),
                _ => Seq::<Seq<char>>::empty(),
            },
    {
        proof {
            registry.lemma_table();
        }
        let table = registry.table();
        let mut r: Vec<Symbol> = Vec::new();
        match self {
            RootStrategy::Explicit(names) => {
                let mut k: usize = 0;
                while k < names.len()
                    invariant
                        table.wf(),
                        k <= names.len(),
                        name_views(r@) == unmatched_spec(table.view(), names@.subrange(0, k as int)),
                    decreases names.len() - k,
                {
                    let m = explicit_matches(table, &names[k]);
                    let ghost before = r@;
                    assert(names@.subrange(0, k + 1).drop_last() =~= names@.subrange(0, k as int));
                    proof {
                        if m.len() > 0 {
                            assert(raw_ids(m@).contains(raw_ids(m@)[0]));
                        }
                        if matches_any(table.view(), names@[k as int]@) {
                            let id = choose|id: u32| explicit_match(table.view(), names@[k as int]@, id);
                            assert(raw_ids(m@).contains(id));
                        }
                    }
                    if m.len() == 0 {
                        r.push(names[k].clone());
                        assert(name_views(r@) =~= name_views(before).push(names@[k as int]@));
                    }
                    k = k + 1;
                }
                assert(names@.subrange(0, names.len() as int) =~= names@);
            },
            _ => {
                assert(name_views(r@) =~= Seq::<Seq<char>>::empty());
            },
        }
        r
    }
}

} // verus!
