//! What grafting a callee into a caller shifts, and the shift itself: every
//! hook label and every allocation-site id of a copied body moves by an
//! offset, while block ids, names and spans stay as they are.
use std::sync::Arc;

use vstd::prelude::*;

use crate::cfg::{BasicBlock, Terminator, CFG};
use crate::expr::{copy_prop_spans, copy_strings, copy_vec, Expr};
use crate::hooks::{DepsArg, DepsList, HookEntry};
use crate::stmt::{MemberKey, Stmt};
use crate::types::{ExprId, HookLabel, Symbol};

verus! {

/// Both identity supplies a splice hands the copy it makes: hook labels and
/// allocation-site ids are each shifted by their own offset.
#[derive(Debug, Clone, Copy, PartialEq, Eq, Structural, Default)]
pub struct Offsets {
    pub labels: HookLabel,
    /// Added to every allocation-site id.
    pub ids: usize,
}

impl Offsets {
    /// Shift labels only, for a remap that is not a graft.
    pub fn labels(labels: HookLabel) -> (r: Offsets)
        ensures
            r.labels == labels,
            r.ids == 0,
    {
        Offsets { labels, ids: 0 }
    }

    /// `true` iff nothing is shifted.
    pub fn is_identity(self) -> (r: bool)
        ensures
            r <==> self.labels == 0 && self.ids == 0,
    {
        self.labels == 0 && self.ids == 0
    }
}

// ── What fits: a shift that overflows no label or id ────────────────────────

/// Every label and allocation-site id of `e` stays a `usize` once shifted.
pub open spec fn fits_expr(e: Expr, off: Offsets) -> bool
    decreases e,
{
    match e {
        Expr::StateVal(l) => l + off.labels <= usize::MAX,
        Expr::StateSetter(l) => l + off.labels <= usize::MAX,
        Expr::MemoVal(l) => l + off.labels <= usize::MAX,
        Expr::CallbackVal(l) => l + off.labels <= usize::MAX,
        Expr::HookMarker(l, _) => l + off.labels <= usize::MAX,
        Expr::ObjectLit { id, fields } => {
            &&& id.0 + off.ids <= usize::MAX
            &&& forall|i: int| 0 <= i < fields.len() ==> fits_expr(#[trigger] fields@[i].1, off)
        },
        Expr::ArrayLit { id, elems, .. } => {
            &&& id.0 + off.ids <= usize::MAX
            &&& forall|i: int| 0 <= i < elems.len() ==> fits_expr(#[trigger] elems@[i], off)
        },
        Expr::FnLit { id, body_cfg, .. } => id.0 + off.ids <= usize::MAX && fits_cfg(*body_cfg, off),
        Expr::FieldAccess { obj, .. } => fits_expr(*obj, off),
        Expr::IndexAccess { arr, idx } => fits_expr(*arr, off) && fits_expr(*idx, off),
        Expr::BinOp { lhs, rhs, .. } => fits_expr(*lhs, off) && fits_expr(*rhs, off),
        Expr::UnaryOp { arg, .. } => fits_expr(*arg, off),
        Expr::Call { fn_, args } => {
            &&& fits_expr(*fn_, off)
            &&& forall|i: int| 0 <= i < args.len() ==> fits_expr(#[trigger] args@[i], off)
        },
        Expr::CompApp { props, .. } => fits_expr(*props, off),
        Expr::NativeElem { props, children, .. } => {
            &&& fits_expr(*props, off)
            &&& forall|i: int| 0 <= i < children.len() ==> fits_expr(#[trigger] children@[i], off)
        },
        Expr::TSAnnotated(inner) => fits_expr(*inner, off),
        _ => true,
    }
}

/// Every expression of a statement fits the shift.
pub open spec fn fits_stmt(s: Stmt, off: Offsets) -> bool
    decreases s,
{
    match s {
        Stmt::Let { rhs, .. } => fits_expr(rhs, off),
        Stmt::Assign { rhs, .. } => fits_expr(rhs, off),
        Stmt::MemberWrite { obj, key, rhs, .. } => {
            &&& fits_expr(obj, off)
            &&& fits_expr(rhs, off)
            &&& (key matches MemberKey::Index(i) ==> fits_expr(i, off))
        },
        Stmt::ExprStmt(e, _) => fits_expr(e, off),
    }
}

/// The expression of a terminator, if any, fits the shift.
pub open spec fn fits_term(t: Terminator, off: Offsets) -> bool
    decreases t,
{
    match t {
        Terminator::Branch { cond, .. } => fits_expr(cond, off),
        Terminator::Return(e) => fits_expr(e, off),
        _ => true,
    }
}

/// Every statement and terminator of a block fits the shift.
pub open spec fn fits_block(b: BasicBlock, off: Offsets) -> bool
    decreases b,
{
    &&& forall|j: int| 0 <= j < b.stmts.len() ==> fits_stmt(#[trigger] b.stmts@[j], off)
    &&& fits_term(b.term, off)
}

/// Every block of a CFG fits the shift.
pub open spec fn fits_cfg(c: CFG, off: Offsets) -> bool
    decreases c,
{
    forall|i: int| 0 <= i < c.blocks.len() ==> fits_block(#[trigger] c.blocks@[i], off)
}

/// The deps elements of a hook fit the shift.
pub open spec fn fits_deps(d: DepsArg, off: Offsets) -> bool {
    d matches DepsArg::List(l) ==> forall|i: int|
        0 <= i < l.elems.len() ==> fits_expr(#[trigger] l.elems@[i], off)
}

/// A hook entry's label and everything it embeds fit the shift.
pub open spec fn fits_hook(h: HookEntry, off: Offsets) -> bool {
    &&& h.spec_label() + off.labels <= usize::MAX
    &&& match h {
        HookEntry::State { init, .. } => fits_expr(init, off),
        HookEntry::Ref { init, .. } => fits_expr(init, off),
        HookEntry::Effect { body_cfg, deps, .. } => fits_cfg(body_cfg, off) && fits_deps(deps, off),
        HookEntry::Memo { body_cfg, deps, .. } => fits_cfg(body_cfg, off) && fits_deps(deps, off),
        HookEntry::Callback { body_cfg, deps, .. } => fits_cfg(body_cfg, off) && fits_deps(
            deps,
            off,
        ),
        HookEntry::Custom { args, deps, .. } => {
            &&& forall|i: int| 0 <= i < args.len() ==> fits_expr(#[trigger] args@[i], off)
            &&& fits_deps(deps, off)
        },
        HookEntry::Handler { body_cfg, .. } => fits_cfg(body_cfg, off),
    }
}

// ── The shift, as a relation between a body and its copy ────────────────────

/// `r` is `e` with every hook label moved by `off.labels` and every
/// allocation-site id by `off.ids`; everything else is equal.
pub open spec fn remaps_expr(e: Expr, r: Expr, off: Offsets) -> bool
    decreases e,
{
    match e {
        Expr::StateVal(l) => r == Expr::StateVal((l + off.labels) as usize),
        Expr::StateSetter(l) => r == Expr::StateSetter((l + off.labels) as usize),
        Expr::MemoVal(l) => r == Expr::MemoVal((l + off.labels) as usize),
        Expr::CallbackVal(l) => r == Expr::CallbackVal((l + off.labels) as usize),
        Expr::HookMarker(l, v) => r == Expr::HookMarker((l + off.labels) as usize, v),
        Expr::ObjectLit { id, fields } => match r {
            Expr::ObjectLit { id: rid, fields: rf } => {
                &&& rid.0 == id.0 + off.ids
                &&& rf.len() == fields.len()
                &&& forall|i: int|
                    0 <= i < fields.len() ==> remaps_field(#[trigger] fields@[i], rf@[i], off)
            },
            _ => false,
        },
        Expr::ArrayLit { id, elems, arity, spread_at } => match r {
            Expr::ArrayLit { id: rid, elems: re, arity: ra, spread_at: rs } => {
                &&& rid.0 == id.0 + off.ids
                &&& ra == arity
                &&& rs@ == spread_at@
                &&& re.len() == elems.len()
                &&& forall|i: int|
                    0 <= i < elems.len() ==> remaps_expr(#[trigger] elems@[i], re@[i], off)
            },
            _ => false,
        },
        Expr::FnLit { id, params, body_cfg } => match r {
            Expr::FnLit { id: rid, params: rp, body_cfg: rb } => {
                &&& rid.0 == id.0 + off.ids
                &&& rp@ == params@
                &&& remaps_cfg(*body_cfg, *rb, off)
            },
            _ => false,
        },
        Expr::FieldAccess { obj, field } => match r {
            Expr::FieldAccess { obj: ro, field: rf } => rf == field && remaps_expr(*obj, *ro, off),
            _ => false,
        },
        Expr::IndexAccess { arr, idx } => match r {
            Expr::IndexAccess { arr: ra, idx: ri } => remaps_expr(*arr, *ra, off) && remaps_expr(
                *idx,
                *ri,
                off,
            ),
            _ => false,
        },
        Expr::BinOp { op, lhs, rhs } => match r {
            Expr::BinOp { op: rop, lhs: rl, rhs: rr } => {
                &&& rop == op
                &&& remaps_expr(*lhs, *rl, off)
                &&& remaps_expr(*rhs, *rr, off)
            },
            _ => false,
        },
        Expr::UnaryOp { op, arg } => match r {
            Expr::UnaryOp { op: rop, arg: ra } => rop == op && remaps_expr(*arg, *ra, off),
            _ => false,
        },
        Expr::Call { fn_, args } => match r {
            Expr::Call { fn_: rfn, args: ra } => {
                &&& remaps_expr(*fn_, *rfn, off)
                &&& ra.len() == args.len()
                &&& forall|i: int|
                    0 <= i < args.len() ==> remaps_expr(#[trigger] args@[i], ra@[i], off)
            },
            _ => false,
        },
        Expr::CompApp { name, props, span } => match r {
            Expr::CompApp { name: rn, props: rp, span: rs } => {
                &&& rn == name
                &&& rs == span
                &&& remaps_expr(*props, *rp, off)
            },
            _ => false,
        },
        Expr::NativeElem { tag, props, children, span, prop_spans } => match r {
            Expr::NativeElem {
                tag: rt,
                props: rp,
                children: rc,
                span: rs,
                prop_spans: rps,
            } => {
                &&& rt == tag
                &&& rs == span
                &&& rps@ == prop_spans@
                &&& remaps_expr(*props, *rp, off)
                &&& rc.len() == children.len()
                &&& forall|i: int|
                    0 <= i < children.len() ==> remaps_expr(#[trigger] children@[i], rc@[i], off)
            },
            _ => false,
        },
        Expr::TSAnnotated(inner) => match r {
            Expr::TSAnnotated(ri) => remaps_expr(*inner, *ri, off),
            _ => false,
        },
        Expr::Lit(_) => r == e,
        Expr::Var(_) => r == e,
        Expr::SummaryVal(_) => r == e,
    }
}

/// `g` is the object member `f` with its value shifted; the key is equal.
pub open spec fn remaps_field(f: (Symbol, Expr), g: (Symbol, Expr), off: Offsets) -> bool
    decreases f,
{
    g.0 == f.0 && remaps_expr(f.1, g.1, off)
}

/// `r` is `s` with its expressions shifted; targets, keys and spans equal.
pub open spec fn remaps_stmt(s: Stmt, r: Stmt, off: Offsets) -> bool
    decreases s,
{
    match s {
        Stmt::Let { var, rhs, span } => match r {
            Stmt::Let { var: rv, rhs: rr, span: rs } => rv == var && rs == span && remaps_expr(
                rhs,
                rr,
                off,
            ),
            _ => false,
        },
        Stmt::Assign { var, rhs, span } => match r {
            Stmt::Assign { var: rv, rhs: rr, span: rs } => rv == var && rs == span && remaps_expr(
                rhs,
                rr,
                off,
            ),
            _ => false,
        },
        Stmt::MemberWrite { obj, key, rhs, span } => match r {
            Stmt::MemberWrite { obj: ro, key: rk, rhs: rr, span: rs } => {
                &&& rs == span
                &&& remaps_expr(obj, ro, off)
                &&& remaps_expr(rhs, rr, off)
                &&& match key {
                    MemberKey::Field(f) => rk == MemberKey::Field(f),
                    MemberKey::Index(i) => match rk {
                        MemberKey::Index(ri) => remaps_expr(i, ri, off),
                        _ => false,
                    },
                }
            },
            _ => false,
        },
        Stmt::ExprStmt(e, span) => match r {
            Stmt::ExprStmt(re, rs) => rs == span && remaps_expr(e, re, off),
            _ => false,
        },
    }
}

/// `r` is `t` with its expression shifted; targets and spans equal.
pub open spec fn remaps_term(t: Terminator, r: Terminator, off: Offsets) -> bool
    decreases t,
{
    match t {
        Terminator::Branch { cond, then_, else_, span } => match r {
            Terminator::Branch { cond: rc, then_: rt, else_: re, span: rs } => {
                &&& rt == then_
                &&& re == else_
                &&& rs == span
                &&& remaps_expr(cond, rc, off)
            },
            _ => false,
        },
        Terminator::Return(e) => match r {
            Terminator::Return(re) => remaps_expr(e, re, off),
            _ => false,
        },
        Terminator::Jump(_) => r == t,
        Terminator::Unreachable => r == t,
    }
}

/// `r` is block `b` with its statements and terminator shifted.
pub open spec fn remaps_block(b: BasicBlock, r: BasicBlock, off: Offsets) -> bool
    decreases b,
{
    &&& r.id == b.id
    &&& r.stmts.len() == b.stmts.len()
    &&& forall|j: int|
        0 <= j < b.stmts.len() ==> remaps_stmt(#[trigger] b.stmts@[j], r.stmts@[j], off)
    &&& remaps_term(b.term, r.term, off)
}

/// `r` is `c` with every block shifted; entry, block ids and edges equal.
pub open spec fn remaps_cfg(c: CFG, r: CFG, off: Offsets) -> bool
    decreases c,
{
    &&& r.entry == c.entry
    &&& r.edges@ == c.edges@
    &&& r.blocks.len() == c.blocks.len()
    &&& forall|i: int|
        0 <= i < c.blocks.len() ==> remaps_block(#[trigger] c.blocks@[i], r.blocks@[i], off)
}

/// `r` is a deps argument with its elements shifted.
pub open spec fn remaps_deps(d: DepsArg, r: DepsArg, off: Offsets) -> bool {
    match d {
        DepsArg::List(l) => match r {
            DepsArg::List(rl) => {
                &&& rl.arity == l.arity
                &&& rl.spread_at@ == l.spread_at@
                &&& rl.elems.len() == l.elems.len()
                &&& forall|i: int|
                    0 <= i < l.elems.len() ==> remaps_expr(#[trigger] l.elems@[i], rl.elems@[i], off)
            },
            _ => false,
        },
        DepsArg::Absent => r is Absent,
        DepsArg::Opaque => r is Opaque,
    }
}

/// `r` is the hook entry `h` with its label, bodies, initializers, arguments
/// and deps shifted; names, params, bindings and spans equal.
pub open spec fn remaps_hook(h: HookEntry, r: HookEntry, off: Offsets) -> bool {
    &&& r.spec_label() == h.spec_label() + off.labels
    &&& r.spec_span() == h.spec_span()
    &&& match h {
        HookEntry::State { init, .. } => match r {
            HookEntry::State { init: ri, .. } => remaps_expr(init, ri, off),
            _ => false,
        },
        HookEntry::Ref { init, .. } => match r {
            HookEntry::Ref { init: ri, .. } => remaps_expr(init, ri, off),
            _ => false,
        },
        HookEntry::Effect { body_cfg, deps, .. } => match r {
            HookEntry::Effect { body_cfg: rb, deps: rd, .. } => remaps_cfg(body_cfg, rb, off)
                && remaps_deps(deps, rd, off),
            _ => false,
        },
        HookEntry::Memo { body_cfg, deps, .. } => match r {
            HookEntry::Memo { body_cfg: rb, deps: rd, .. } => remaps_cfg(body_cfg, rb, off)
                && remaps_deps(deps, rd, off),
            _ => false,
        },
        HookEntry::Callback { body_cfg, params, deps, .. } => match r {
            HookEntry::Callback { body_cfg: rb, params: rp, deps: rd, .. } => {
                &&& remaps_cfg(body_cfg, rb, off)
                &&& rp@ == params@
                &&& remaps_deps(deps, rd, off)
            },
            _ => false,
        },
        HookEntry::Custom { name, args, deps, binding, import_source, resolved_file, .. } => match r {
            HookEntry::Custom {
                name: rn,
                args: ra,
                deps: rd,
                binding: rbind,
                import_source: ris,
                resolved_file: rrf,
                ..
            } => {
                &&& rn == name
                &&& rbind == binding
                &&& ris == import_source
                &&& rrf == resolved_file
                &&& remaps_deps(deps, rd, off)
                &&& ra.len() == args.len()
                &&& forall|i: int|
                    0 <= i < args.len() ==> remaps_expr(#[trigger] args@[i], ra@[i], off)
            },
            _ => false,
        },
        HookEntry::Handler { event, body_cfg, .. } => match r {
            HookEntry::Handler { event: re, body_cfg: rb, .. } => re == event && remaps_cfg(
                body_cfg,
                rb,
                off,
            ),
            _ => false,
        },
    }
}

// ── The shift, computed ─────────────────────────────────────────────────────

/// The shifted copy of an expression.
#[verifier::loop_isolation(false)]
pub(crate) fn shifted_expr(e: &Expr, off: Offsets) -> (r: Expr)
    requires
        fits_expr(*e, off),
    ensures
        remaps_expr(*e, r, off),
    decreases e,
{
    match e {
        Expr::StateVal(l) => Expr::StateVal(*l + off.labels),
        Expr::StateSetter(l) => Expr::StateSetter(*l + off.labels),
        Expr::MemoVal(l) => Expr::MemoVal(*l + off.labels),
        Expr::CallbackVal(l) => Expr::CallbackVal(*l + off.labels),
        Expr::HookMarker(l, v) => Expr::HookMarker(*l + off.labels, *v),
        Expr::ObjectLit { id, fields } => Expr::ObjectLit {
            id: ExprId(id.0 + off.ids),
            fields: shifted_fields(fields, off),
        },
        Expr::ArrayLit { id, elems, arity, spread_at } => Expr::ArrayLit {
            id: ExprId(id.0 + off.ids),
            elems: shifted_exprs(elems, off),
            arity: *arity,
            spread_at: copy_vec(spread_at),
        },
        Expr::FnLit { id, params, body_cfg } => {
            let body = shifted_cfg(&**body_cfg, off);
            Expr::FnLit {
                id: ExprId(id.0 + off.ids),
                params: copy_strings(params),
                body_cfg: Arc::new(body),
            }
        },
        Expr::FieldAccess { obj, field } => Expr::FieldAccess {
            obj: Box::new(shifted_expr(&**obj, off)),
            field: field.clone(),
        },
        Expr::IndexAccess { arr, idx } => Expr::IndexAccess {
            arr: Box::new(shifted_expr(&**arr, off)),
            idx: Box::new(shifted_expr(&**idx, off)),
        },
        Expr::BinOp { op, lhs, rhs } => Expr::BinOp {
            op: *op,
            lhs: Box::new(shifted_expr(&**lhs, off)),
            rhs: Box::new(shifted_expr(&**rhs, off)),
        },
        Expr::UnaryOp { op, arg } => Expr::UnaryOp {
            op: *op,
            arg: Box::new(shifted_expr(&**arg, off)),
        },
        Expr::Call { fn_, args } => Expr::Call {
            fn_: Box::new(shifted_expr(&**fn_, off)),
            args: shifted_exprs(args, off),
        },
        Expr::CompApp { name, props, span } => Expr::CompApp {
            name: name.clone(),
            props: Box::new(shifted_expr(&**props, off)),
            span: *span,
        },
        Expr::NativeElem { tag, props, children, span, prop_spans } => Expr::NativeElem {
            tag: tag.clone(),
            props: Box::new(shifted_expr(&**props, off)),
            children: shifted_exprs(children, off),
            span: *span,
            prop_spans: copy_prop_spans(prop_spans),
        },
        Expr::TSAnnotated(inner) => Expr::TSAnnotated(Box::new(shifted_expr(&**inner, off))),
        Expr::Lit(p) => Expr::Lit(p.duplicate()),
        Expr::Var(v) => Expr::Var(v.clone()),
        Expr::SummaryVal(v) => Expr::SummaryVal(*v),
    }
}

/// The shifted copies of an object literal's members, in order.
#[verifier::loop_isolation(false)]
fn shifted_fields(fields: &Vec<(Symbol, Expr)>, off: Offsets) -> (r: Vec<(Symbol, Expr)>)
    requires
        forall|i: int| 0 <= i < fields.len() ==> fits_expr(#[trigger] fields@[i].1, off),
    ensures
        r.len() == fields.len(),
        forall|i: int| 0 <= i < fields.len() ==> remaps_field(#[trigger] fields@[i], r@[i], off),
    decreases fields,
{
    let mut out: Vec<(Symbol, Expr)> = Vec::new();
    let mut i: usize = 0;
    while i < fields.len()
        invariant
            i <= fields.len(),
            out.len() == i,
            forall|k: int| 0 <= k < i ==> remaps_field(#[trigger] fields@[k], out@[k], off),
        decreases fields.len() - i,
    {
        proof {
            assert(decreases_to!(*fields => fields@));
            assert(decreases_to!(fields@ => fields@[i as int]));
            assert(decreases_to!(fields@[i as int] => fields@[i as int].1));
        }
        let name = fields[i].0.clone();
        let value = shifted_expr(&fields[i].1, off);
        out.push((name, value));
        i = i + 1;
    }
    out
}

/// The shifted copies of a list of expressions, in order.
#[verifier::loop_isolation(false)]
fn shifted_exprs(es: &Vec<Expr>, off: Offsets) -> (r: Vec<Expr>)
    requires
        forall|i: int| 0 <= i < es.len() ==> fits_expr(#[trigger] es@[i], off),
    ensures
        r.len() == es.len(),
        forall|i: int| 0 <= i < es.len() ==> remaps_expr(#[trigger] es@[i], r@[i], off),
    decreases es,
{
    let mut out: Vec<Expr> = Vec::new();
    let mut i: usize = 0;
    while i < es.len()
        invariant
            i <= es.len(),
            out.len() == i,
            forall|k: int| 0 <= k < i ==> remaps_expr(#[trigger] es@[k], out@[k], off),
        decreases es.len() - i,
    {
        proof {
            assert(decreases_to!(*es => es@));
            assert(decreases_to!(es@ => es@[i as int]));
        }
        out.push(shifted_expr(&es[i], off));
        i = i + 1;
    }
    out
}

/// The shifted copy of a statement.
fn shifted_stmt(s: &Stmt, off: Offsets) -> (r: Stmt)
    requires
        fits_stmt(*s, off),
    ensures
        remaps_stmt(*s, r, off),
    decreases s,
{
    match s {
        Stmt::Let { var, rhs, span } => Stmt::Let {
            var: var.clone(),
            rhs: shifted_expr(rhs, off),
            span: *span,
        },
        Stmt::Assign { var, rhs, span } => Stmt::Assign {
            var: var.clone(),
            rhs: shifted_expr(rhs, off),
            span: *span,
        },
        Stmt::MemberWrite { obj, key, rhs, span } => {
            let key2 = match key {
                MemberKey::Field(f) => MemberKey::Field(f.clone()),
                MemberKey::Index(i) => MemberKey::Index(shifted_expr(i, off)),
            };
            Stmt::MemberWrite {
                obj: shifted_expr(obj, off),
                key: key2,
                rhs: shifted_expr(rhs, off),
                span: *span,
            }
        },
        Stmt::ExprStmt(e, span) => Stmt::ExprStmt(shifted_expr(e, off), *span),
    }
}

/// The shifted copy of a terminator.
fn shifted_term(t: &Terminator, off: Offsets) -> (r: Terminator)
    requires
        fits_term(*t, off),
    ensures
        remaps_term(*t, r, off),
    decreases t,
{
    match t {
        Terminator::Branch { cond, then_, else_, span } => Terminator::Branch {
            cond: shifted_expr(cond, off),
            then_: *then_,
            else_: *else_,
            span: *span,
        },
        Terminator::Return(e) => Terminator::Return(shifted_expr(e, off)),
        Terminator::Jump(b) => Terminator::Jump(*b),
        Terminator::Unreachable => Terminator::Unreachable,
    }
}

/// The shifted copy of a block.
#[verifier::loop_isolation(false)]
fn shifted_block(b: &BasicBlock, off: Offsets) -> (r: BasicBlock)
    requires
        fits_block(*b, off),
    ensures
        remaps_block(*b, r, off),
    decreases b,
{
    let mut stmts: Vec<Stmt> = Vec::new();
    let mut j: usize = 0;
    while j < b.stmts.len()
        invariant
            j <= b.stmts.len(),
            stmts.len() == j,
            forall|k: int| 0 <= k < j ==> remaps_stmt(#[trigger] b.stmts@[k], stmts@[k], off),
        decreases b.stmts.len() - j,
    {
        proof {
            assert(decreases_to!(*b => b.stmts));
            assert(decreases_to!(b.stmts => b.stmts@));
            assert(decreases_to!(b.stmts@ => b.stmts@[j as int]));
        }
        stmts.push(shifted_stmt(&b.stmts[j], off));
        j = j + 1;
    }
    let term = shifted_term(&b.term, off);
    BasicBlock { id: b.id, stmts, term }
}

/// The shifted copy of a CFG.
#[verifier::loop_isolation(false)]
pub(crate) fn shifted_cfg(c: &CFG, off: Offsets) -> (r: CFG)
    requires
        fits_cfg(*c, off),
    ensures
        remaps_cfg(*c, r, off),
    decreases c,
{
    let mut blocks: Vec<BasicBlock> = Vec::new();
    let mut i: usize = 0;
    while i < c.blocks.len()
        invariant
            i <= c.blocks.len(),
            blocks.len() == i,
            forall|k: int| 0 <= k < i ==> remaps_block(#[trigger] c.blocks@[k], blocks@[k], off),
        decreases c.blocks.len() - i,
    {
        proof {
            assert(decreases_to!(*c => c.blocks));
            assert(decreases_to!(c.blocks => c.blocks@));
            assert(decreases_to!(c.blocks@ => c.blocks@[i as int]));
        }
        blocks.push(shifted_block(&c.blocks[i], off));
        i = i + 1;
    }
    CFG { entry: c.entry, blocks, edges: copy_vec(&c.edges) }
}

/// The shifted copy of a deps argument.
pub(crate) fn shifted_deps(d: &DepsArg, off: Offsets) -> (r: DepsArg)
    requires
        fits_deps(*d, off),
    ensures
        remaps_deps(*d, r, off),
{
    match d {
        DepsArg::Absent => DepsArg::Absent,
        DepsArg::Opaque => DepsArg::Opaque,
        DepsArg::List(l) => DepsArg::List(
            DepsList {
                elems: shifted_exprs(&l.elems, off),
                arity: l.arity,
                spread_at: copy_vec(&l.spread_at),
            },
        ),
    }
}

/// The shifted copy of one hook entry.
pub(crate) fn remap_hook_entry(entry: &HookEntry, off: Offsets) -> (r: HookEntry)
    requires
        fits_hook(*entry, off),
    ensures
        remaps_hook(*entry, r, off),
{
    match entry {
        HookEntry::State { label, init, span } => HookEntry::State {
            label: *label + off.labels,
            init: shifted_expr(init, off),
            span: *span,
        },
        HookEntry::Ref { label, init, span } => HookEntry::Ref {
            label: *label + off.labels,
            init: shifted_expr(init, off),
            span: *span,
        },
        HookEntry::Effect { label, body_cfg, deps, span } => HookEntry::Effect {
            label: *label + off.labels,
            body_cfg: shifted_cfg(body_cfg, off),
            deps: shifted_deps(deps, off),
            span: *span,
        },
        HookEntry::Memo { label, body_cfg, deps, span } => HookEntry::Memo {
            label: *label + off.labels,
            body_cfg: shifted_cfg(body_cfg, off),
            deps: shifted_deps(deps, off),
            span: *span,
        },
        HookEntry::Callback { label, body_cfg, params, deps, span } => HookEntry::Callback {
            label: *label + off.labels,
            body_cfg: shifted_cfg(body_cfg, off),
            params: copy_strings(params),
            deps: shifted_deps(deps, off),
            span: *span,
        },
        HookEntry::Custom {
            label,
            name,
            args,
            deps,
            binding,
            import_source,
            resolved_file,
            span,
        } => HookEntry::Custom {
            label: *label + off.labels,
            name: name.clone(),
            args: shifted_exprs(args, off),
            deps: shifted_deps(deps, off),
            binding: binding.clone(),
            import_source: import_source.clone(),
            resolved_file: resolved_file.clone(),
            span: *span,
        },
        HookEntry::Handler { label, event, body_cfg, span } => HookEntry::Handler {
            label: *label + off.labels,
            event: event.clone(),
            body_cfg: shifted_cfg(body_cfg, off),
            span: *span,
        },
    }
}

/// Add `off` to every hook label and every allocation-site id embedded in
/// `expr`, sub-expressions and function-literal bodies included.
pub fn remap_expr(expr: Expr, off: Offsets) -> (r: Expr)
    requires
        fits_expr(expr, off),
    ensures
        remaps_expr(expr, r, off),
{
    shifted_expr(&expr, off)
}

/// `cfg` with `off` applied to every hook label and allocation-site id of
/// its statements and terminators. Block ids and edges are left unchanged.
pub fn remap_cfg(cfg: CFG, off: Offsets) -> (r: CFG)
    requires
        fits_cfg(cfg, off),
    ensures
        remaps_cfg(cfg, r, off),
{
    shifted_cfg(&cfg, off)
}

/// `hooks` with `off` applied to every label (in `label` fields and in the
/// embedded bodies and expressions) and to every allocation site.
pub fn remap_hooks(hooks: Vec<HookEntry>, off: Offsets) -> (r: Vec<HookEntry>)
    requires
        forall|i: int| 0 <= i < hooks.len() ==> fits_hook(#[trigger] hooks@[i], off),
    ensures
        r.len() == hooks.len(),
        forall|i: int| 0 <= i < hooks.len() ==> remaps_hook(#[trigger] hooks@[i], r@[i], off),
{
    let mut out: Vec<HookEntry> = Vec::new();
    let mut i: usize = 0;
    while i < hooks.len()
        invariant
            i <= hooks.len(),
            out.len() == i,
            forall|k: int| 0 <= k < hooks.len() ==> fits_hook(#[trigger] hooks@[k], off),
            forall|k: int| 0 <= k < i ==> remaps_hook(#[trigger] hooks@[k], out@[k], off),
        decreases hooks.len() - i,
    {
        out.push(remap_hook_entry(&hooks[i], off));
        i = i + 1;
    }
    out
}


// ── The id range a graft occupies ───────────────────────────────────────────

/// `id` is an allocation site (object, array or function literal) of `e`
/// within `d` levels of function-literal nesting.
pub open spec fn alloc_in_expr(e: Expr, d: nat, id: usize) -> bool
    decreases e,
{
    if d == 0 {
        false
    } else {
        match e {
            Expr::ObjectLit { id: i, fields } => i.0 == id || exists|k: int|
                0 <= k < fields.len() && alloc_in_expr(#[trigger] fields@[k].1, d, id),
            Expr::ArrayLit { id: i, elems, .. } => i.0 == id || exists|k: int|
                0 <= k < elems.len() && alloc_in_expr(#[trigger] elems@[k], d, id),
            Expr::FnLit { id: i, body_cfg, .. } => i.0 == id || alloc_in_cfg(*body_cfg, (d - 1) as nat, id),
            Expr::FieldAccess { obj, .. } => alloc_in_expr(*obj, d, id),
            Expr::IndexAccess { arr, idx } => alloc_in_expr(*arr, d, id) || alloc_in_expr(*idx, d, id),
            Expr::BinOp { lhs, rhs, .. } => alloc_in_expr(*lhs, d, id) || alloc_in_expr(*rhs, d, id),
            Expr::UnaryOp { arg, .. } => alloc_in_expr(*arg, d, id),
            Expr::Call { fn_, args } => alloc_in_expr(*fn_, d, id) || exists|k: int|
                0 <= k < args.len() && alloc_in_expr(#[trigger] args@[k], d, id),
            Expr::CompApp { props, .. } => alloc_in_expr(*props, d, id),
            Expr::NativeElem { props, children, .. } => alloc_in_expr(*props, d, id) || exists|k: int|
                0 <= k < children.len() && alloc_in_expr(#[trigger] children@[k], d, id),
            Expr::TSAnnotated(inner) => alloc_in_expr(*inner, d, id),
            _ => false,
        }
    }
}

/// [`alloc_in_expr`] for the expressions of a statement.
pub open spec fn alloc_in_stmt(s: Stmt, d: nat, id: usize) -> bool
    decreases s,
{
    match s {
        Stmt::Let { rhs, .. } => alloc_in_expr(rhs, d, id),
        Stmt::Assign { rhs, .. } => alloc_in_expr(rhs, d, id),
        Stmt::MemberWrite { obj, key, rhs, .. } => alloc_in_expr(obj, d, id) || alloc_in_expr(rhs, d, id) || match key {
            MemberKey::Index(i) => alloc_in_expr(i, d, id),
            MemberKey::Field(_) => false,
        },
        Stmt::ExprStmt(e, _) => alloc_in_expr(e, d, id),
    }
}

/// [`alloc_in_expr`] for a block's statements and terminator.
pub open spec fn alloc_in_block(b: BasicBlock, d: nat, id: usize) -> bool
    decreases b,
{
    (exists|j: int| 0 <= j < b.stmts.len() && alloc_in_stmt(#[trigger] b.stmts@[j], d, id)) || match b.term {
        Terminator::Return(e) => alloc_in_expr(e, d, id),
        Terminator::Branch { cond, .. } => alloc_in_expr(cond, d, id),
        _ => false,
    }
}

/// [`alloc_in_expr`] for every block of a CFG.
pub open spec fn alloc_in_cfg(c: CFG, d: nat, id: usize) -> bool
    decreases c,
{
    exists|b: int| 0 <= b < c.blocks.len() && alloc_in_block(#[trigger] c.blocks@[b], d, id)
}


/// Some expression of `es` has the allocation site `id` within depth `d`.
pub open spec fn alloc_in_list(es: Seq<Expr>, d: nat, id: usize) -> bool {
    exists|k: int| 0 <= k < es.len() && alloc_in_expr(#[trigger] es[k], d, id)
}

/// Some member value of `fields` has the allocation site `id` within depth `d`.
pub open spec fn alloc_in_fields(fields: Seq<(Symbol, Expr)>, d: nat, id: usize) -> bool {
    exists|k: int| 0 <= k < fields.len() && alloc_in_expr(#[trigger] fields[k].1, d, id)
}

fn note_id(m: &mut Option<usize>, id: usize)
    ensures
        *final(m) is Some && id <= final(m)->0,
        *old(m) is Some ==> old(m)->0 <= final(m)->0,
        *final(m) == *old(m) || final(m)->0 == id,
{
    match *m {
        Some(v) => if id > v {
            *m = Some(id);
        },
        None => {
            *m = Some(id);
        },
    }
}

/// Raise `m` over the allocation sites of `e` within depth `d`: afterwards
/// it bounds each of them and what it held before, and it changed only to
/// one of them.
#[verifier::loop_isolation(false)]
fn note_expr(e: &Expr, d: usize, m: &mut Option<usize>)
    ensures
        forall|x: usize| #[trigger] alloc_in_expr(*e, d as nat, x) ==> *final(m) is Some && x <= final(m)->0,
        *old(m) is Some ==> *final(m) is Some && old(m)->0 <= final(m)->0,
        *final(m) is Some ==> *final(m) == *old(m) || alloc_in_expr(*e, d as nat, final(m)->0),
    decreases e,
{
    if d == 0 {
        return;
    }
    match e {
        Expr::ObjectLit { id, fields } => {
            note_id(m, id.0);
            note_fields(fields, d, m);
        },
        Expr::ArrayLit { id, elems, .. } => {
            note_id(m, id.0);
            note_list(elems, d, m);
        },
        Expr::FnLit { id, body_cfg, .. } => {
            note_id(m, id.0);
            note_cfg(&**body_cfg, d - 1, m);
        },
        Expr::FieldAccess { obj, .. } => note_expr(&**obj, d, m),
        Expr::IndexAccess { arr, idx } => {
            note_expr(&**arr, d, m);
            note_expr(&**idx, d, m);
        },
        Expr::BinOp { lhs, rhs, .. } => {
            note_expr(&**lhs, d, m);
            note_expr(&**rhs, d, m);
        },
        Expr::UnaryOp { arg, .. } => note_expr(&**arg, d, m),
        Expr::Call { fn_, args } => {
            note_expr(&**fn_, d, m);
            note_list(args, d, m);
        },
        Expr::CompApp { props, .. } => note_expr(&**props, d, m),
        Expr::NativeElem { props, children, .. } => {
            note_expr(&**props, d, m);
            note_list(children, d, m);
        },
        Expr::TSAnnotated(inner) => note_expr(&**inner, d, m),
        _ => {},
    }
    proof {
        assert forall|x: usize| #[trigger] alloc_in_expr(*e, d as nat, x) implies *m is Some && x <= m->0 by {
            match e {
                Expr::ObjectLit { id, fields } => if x != id.0 {
                    assert(alloc_in_fields(fields@, d as nat, x));
                },
                Expr::ArrayLit { id, elems, .. } => if x != id.0 {
                    assert(alloc_in_list(elems@, d as nat, x));
                },
                Expr::Call { fn_, args } => if !alloc_in_expr(**fn_, d as nat, x) {
                    assert(alloc_in_list(args@, d as nat, x));
                },
                Expr::NativeElem { props, children, .. } => if !alloc_in_expr(**props, d as nat, x) {
                    assert(alloc_in_list(children@, d as nat, x));
                },
                Expr::FnLit { id, body_cfg, .. } => if x != id.0 {
                    assert(alloc_in_cfg(arc_cfg(*body_cfg), (d - 1) as nat, x));
                },
                Expr::FieldAccess { obj, .. } => assert(alloc_in_expr(**obj, d as nat, x)),
                Expr::UnaryOp { arg, .. } => assert(alloc_in_expr(**arg, d as nat, x)),
                Expr::CompApp { props, .. } => assert(alloc_in_expr(**props, d as nat, x)),
                Expr::TSAnnotated(inner) => assert(alloc_in_expr(**inner, d as nat, x)),
                Expr::IndexAccess { arr, idx } => if !alloc_in_expr(**arr, d as nat, x) {
                    assert(alloc_in_expr(**idx, d as nat, x));
                },
                Expr::BinOp { lhs, rhs, .. } => if !alloc_in_expr(**lhs, d as nat, x) {
                    assert(alloc_in_expr(**rhs, d as nat, x));
                },
                _ => {},
            }
        }
    }
}

/// [`note_expr`] over a list of expressions.
#[verifier::loop_isolation(false)]
fn note_list(es: &Vec<Expr>, d: usize, m: &mut Option<usize>)
    ensures
        forall|x: usize| #[trigger] alloc_in_list(es@, d as nat, x) ==> *final(m) is Some && x <= final(m)->0,
        *old(m) is Some ==> *final(m) is Some && old(m)->0 <= final(m)->0,
        *final(m) is Some ==> *final(m) == *old(m) || alloc_in_list(es@, d as nat, final(m)->0),
    decreases es,
{
    let ghost m0 = *m;
    let mut i: usize = 0;
    while i < es.len()
        invariant
            i <= es.len(),
            forall|x: usize| #[trigger] alloc_in_list(es@.subrange(0, i as int), d as nat, x) ==> *m is Some && x <= m->0,
            m0 is Some ==> *m is Some && m0->0 <= m->0,
            *m is Some ==> *m == m0 || alloc_in_list(es@.subrange(0, i as int), d as nat, m->0),
        decreases es.len() - i,
    {
        proof {
            assert(decreases_to!(*es => es@));
            assert(decreases_to!(es@ => es@[i as int]));
        }
        let ghost mb = *m;
        let ghost pre = es@.subrange(0, i as int);
        let ghost post = es@.subrange(0, i + 1);
        note_expr(&es[i], d, m);
        proof {
            assert forall|x: usize| #[trigger] alloc_in_list(post, d as nat, x) implies *m is Some && x <= m->0 by {
                let k = choose|k: int| 0 <= k < post.len() && alloc_in_expr(#[trigger] post[k], d as nat, x);
                if k < i {
                    assert(pre[k] == post[k]);
                    assert(alloc_in_list(pre, d as nat, x));
                } else {
                    assert(post[k] == es@[i as int]);
                }
            }
            if *m is Some && *m != m0 {
                if *m == mb {
                    let k = choose|k: int| 0 <= k < pre.len() && alloc_in_expr(#[trigger] pre[k], d as nat, m->0);
                    assert(post[k] == pre[k]);
                } else {
                    assert(post[i as int] == es@[i as int]);
                }
            }
        }
        i = i + 1;
    }
    proof {
        assert(es@.subrange(0, i as int) =~= es@);
    }
}

/// [`note_expr`] over an object literal's member values.
#[verifier::loop_isolation(false)]
fn note_fields(fields: &Vec<(Symbol, Expr)>, d: usize, m: &mut Option<usize>)
    ensures
        forall|x: usize| #[trigger] alloc_in_fields(fields@, d as nat, x) ==> *final(m) is Some && x <= final(m)->0,
        *old(m) is Some ==> *final(m) is Some && old(m)->0 <= final(m)->0,
        *final(m) is Some ==> *final(m) == *old(m) || alloc_in_fields(fields@, d as nat, final(m)->0),
    decreases fields,
{
    let ghost m0 = *m;
    let mut i: usize = 0;
    while i < fields.len()
        invariant
            i <= fields.len(),
            forall|x: usize| #[trigger] alloc_in_fields(fields@.subrange(0, i as int), d as nat, x) ==> *m is Some && x <= m->0,
            m0 is Some ==> *m is Some && m0->0 <= m->0,
            *m is Some ==> *m == m0 || alloc_in_fields(fields@.subrange(0, i as int), d as nat, m->0),
        decreases fields.len() - i,
    {
        proof {
            assert(decreases_to!(*fields => fields@));
            assert(decreases_to!(fields@ => fields@[i as int]));
            assert(decreases_to!(fields@[i as int] => fields@[i as int].1));
        }
        let ghost mb = *m;
        let ghost pre = fields@.subrange(0, i as int);
        let ghost post = fields@.subrange(0, i + 1);
        note_expr(&fields[i].1, d, m);
        proof {
            assert forall|x: usize| #[trigger] alloc_in_fields(post, d as nat, x) implies *m is Some && x <= m->0 by {
                let k = choose|k: int| 0 <= k < post.len() && alloc_in_expr(#[trigger] post[k].1, d as nat, x);
                if k < i {
                    assert(pre[k] == post[k]);
                    assert(alloc_in_fields(pre, d as nat, x));
                } else {
                    assert(post[k] == fields@[i as int]);
                }
            }
            if *m is Some && *m != m0 {
                if *m == mb {
                    let k = choose|k: int| 0 <= k < pre.len() && alloc_in_expr(#[trigger] pre[k].1, d as nat, m->0);
                    assert(post[k] == pre[k]);
                } else {
                    assert(post[i as int] == fields@[i as int]);
                }
            }
        }
        i = i + 1;
    }
    proof {
        assert(fields@.subrange(0, i as int) =~= fields@);
    }
}

/// [`note_expr`] over the expressions of a statement.
fn note_stmt(s: &Stmt, d: usize, m: &mut Option<usize>)
    ensures
        forall|x: usize| #[trigger] alloc_in_stmt(*s, d as nat, x) ==> *final(m) is Some && x <= final(m)->0,
        *old(m) is Some ==> *final(m) is Some && old(m)->0 <= final(m)->0,
        *final(m) is Some ==> *final(m) == *old(m) || alloc_in_stmt(*s, d as nat, final(m)->0),
    decreases s,
{
    match s {
        Stmt::Let { rhs, .. } => note_expr(rhs, d, m),
        Stmt::Assign { rhs, .. } => note_expr(rhs, d, m),
        Stmt::MemberWrite { obj, key, rhs, .. } => {
            note_expr(obj, d, m);
            match key {
                MemberKey::Index(i) => note_expr(i, d, m),
                MemberKey::Field(_) => {},
            }
            note_expr(rhs, d, m);
        },
        Stmt::ExprStmt(e, _) => note_expr(e, d, m),
    }
    proof {
        assert forall|x: usize| #[trigger] alloc_in_stmt(*s, d as nat, x) implies *m is Some && x <= m->0 by {
            match s {
                Stmt::Let { rhs, .. } => assert(alloc_in_expr(*rhs, d as nat, x)),
                Stmt::Assign { rhs, .. } => assert(alloc_in_expr(*rhs, d as nat, x)),
                Stmt::MemberWrite { obj, key, rhs, .. } => {
                    if alloc_in_expr(*obj, d as nat, x) {
                    } else if alloc_in_expr(*rhs, d as nat, x) {
                    } else {
                        match key {
                            MemberKey::Index(i) => assert(alloc_in_expr(*i, d as nat, x)),
                            MemberKey::Field(_) => {},
                        }
                    }
                },
                Stmt::ExprStmt(e, _) => assert(alloc_in_expr(*e, d as nat, x)),
            }
        }
    }
}

/// [`note_expr`] over a block's statements and terminator.
#[verifier::loop_isolation(false)]
fn note_block(b: &BasicBlock, d: usize, m: &mut Option<usize>)
    ensures
        forall|x: usize| #[trigger] alloc_in_block(*b, d as nat, x) ==> *final(m) is Some && x <= final(m)->0,
        *old(m) is Some ==> *final(m) is Some && old(m)->0 <= final(m)->0,
        *final(m) is Some ==> *final(m) == *old(m) || alloc_in_block(*b, d as nat, final(m)->0),
    decreases b,
{
    let ghost m0 = *m;
    let mut j: usize = 0;
    while j < b.stmts.len()
        invariant
            j <= b.stmts.len(),
            forall|x: usize, q: int| 0 <= q < j && #[trigger] alloc_in_stmt(b.stmts@[q], d as nat, x) ==> *m is Some && x <= m->0,
            m0 is Some ==> *m is Some && m0->0 <= m->0,
            *m is Some ==> *m == m0 || exists|q: int| 0 <= q < j && alloc_in_stmt(#[trigger] b.stmts@[q], d as nat, m->0),
        decreases b.stmts.len() - j,
    {
        proof {
            assert(decreases_to!(*b => b.stmts));
            assert(decreases_to!(b.stmts => b.stmts@));
            assert(decreases_to!(b.stmts@ => b.stmts@[j as int]));
        }
        let ghost mb = *m;
        note_stmt(&b.stmts[j], d, m);
        proof {
            if *m is Some && *m != m0 && *m == mb {
                let q = choose|q: int| 0 <= q < j && alloc_in_stmt(#[trigger] b.stmts@[q], d as nat, m->0);
            }
        }
        j = j + 1;
    }
    let ghost ms = *m;
    match &b.term {
        Terminator::Return(e) => note_expr(e, d, m),
        Terminator::Branch { cond, .. } => note_expr(cond, d, m),
        _ => {},
    }
    proof {
        if *m is Some && *m != m0 && *m == ms {
            let q = choose|q: int| 0 <= q < j && alloc_in_stmt(#[trigger] b.stmts@[q], d as nat, m->0);
        }
        assert forall|x: usize| #[trigger] alloc_in_block(*b, d as nat, x) implies *m is Some && x <= m->0 by {
            if exists|q: int| 0 <= q < b.stmts.len() && alloc_in_stmt(#[trigger] b.stmts@[q], d as nat, x) {
                let q = choose|q: int| 0 <= q < b.stmts.len() && alloc_in_stmt(#[trigger] b.stmts@[q], d as nat, x);
                assert(alloc_in_stmt(b.stmts@[q], d as nat, x));
            } else {
                match &b.term {
                    Terminator::Return(e) => assert(alloc_in_expr(*e, d as nat, x)),
                    Terminator::Branch { cond, .. } => assert(alloc_in_expr(*cond, d as nat, x)),
                    _ => {},
                }
            }
        }
    }
}

/// [`note_expr`] over every block of a CFG.
#[verifier::loop_isolation(false)]
fn note_cfg(c: &CFG, d: usize, m: &mut Option<usize>)
    ensures
        forall|x: usize| #[trigger] alloc_in_cfg(*c, d as nat, x) ==> *final(m) is Some && x <= final(m)->0,
        *old(m) is Some ==> *final(m) is Some && old(m)->0 <= final(m)->0,
        *final(m) is Some ==> *final(m) == *old(m) || alloc_in_cfg(*c, d as nat, final(m)->0),
    decreases c,
{
    let ghost m0 = *m;
    let mut i: usize = 0;
    while i < c.blocks.len()
        invariant
            i <= c.blocks.len(),
            forall|x: usize, q: int| 0 <= q < i && #[trigger] alloc_in_block(c.blocks@[q], d as nat, x) ==> *m is Some && x <= m->0,
            m0 is Some ==> *m is Some && m0->0 <= m->0,
            *m is Some ==> *m == m0 || exists|q: int| 0 <= q < i && alloc_in_block(#[trigger] c.blocks@[q], d as nat, m->0),
        decreases c.blocks.len() - i,
    {
        proof {
            assert(decreases_to!(*c => c.blocks));
            assert(decreases_to!(c.blocks => c.blocks@));
            assert(decreases_to!(c.blocks@ => c.blocks@[i as int]));
        }
        let ghost mb = *m;
        note_block(&c.blocks[i], d, m);
        proof {
            if *m is Some && *m != m0 && *m == mb {
                let q = choose|q: int| 0 <= q < i && alloc_in_block(#[trigger] c.blocks@[q], d as nat, m->0);
            }
        }
        i = i + 1;
    }
    proof {
        assert forall|x: usize| #[trigger] alloc_in_cfg(*c, d as nat, x) implies *m is Some && x <= m->0 by {
            let q = choose|q: int| 0 <= q < c.blocks.len() && alloc_in_block(#[trigger] c.blocks@[q], d as nat, x);
            assert(alloc_in_block(c.blocks@[q], d as nat, x));
        }
    }
}

/// One past the largest allocation-site id in `cfg` (function-literal bodies
/// included, to a nesting depth of 64), or 0 when it has none: the width of
/// the id range a graft of `cfg` occupies.
pub fn alloc_id_span(cfg: &CFG) -> (r: usize)
    requires
        forall|x: usize| #[trigger] alloc_in_cfg(*cfg, 64, x) ==> x < usize::MAX,
    ensures
        r == 0 <==> forall|x: usize| !(#[trigger] alloc_in_cfg(*cfg, 64, x)),
        r > 0 ==> alloc_in_cfg(*cfg, 64, (r - 1) as usize),
        forall|x: usize| #[trigger] alloc_in_cfg(*cfg, 64, x) ==> x < r,
{
    let mut m: Option<usize> = None;
    note_cfg(cfg, 64, &mut m);
    match m {
        Some(v) => v + 1,
        None => 0,
    }
}


// ── Laws of the shift ───────────────────────────────────────────────────────

/// The body a shared pointer holds.
pub open spec fn arc_cfg(a: Arc<CFG>) -> CFG {
    *a
}

/// Shifting by `a` and then by `b` is shifting by `a + b`, where the
/// combined shift overflows nothing.
pub proof fn lemma_remaps_expr_compose(e: Expr, r1: Expr, r2: Expr, a: Offsets, b: Offsets, c: Offsets)
    requires
        remaps_expr(e, r1, a),
        remaps_expr(r1, r2, b),
        c.labels == a.labels + b.labels,
        c.ids == a.ids + b.ids,
        fits_expr(e, c),
    ensures
        remaps_expr(e, r2, c),
    decreases e,
{
    match e {
        Expr::ObjectLit { id, fields } => match r1 {
            Expr::ObjectLit { fields: f1, .. } => match r2 {
                Expr::ObjectLit { fields: f2, .. } => {
                    assert forall|i: int| 0 <= i < fields.len() implies remaps_field(#[trigger] fields@[i], f2@[i], c) by {
                        assert(remaps_field(fields@[i], f1@[i], a));
                        assert(remaps_field(f1@[i], f2@[i], b));
                        lemma_remaps_expr_compose(fields@[i].1, f1@[i].1, f2@[i].1, a, b, c);
                    }
                },
                _ => {},
            },
            _ => {},
        },
        Expr::ArrayLit { id, elems, .. } => match r1 {
            Expr::ArrayLit { elems: e1, .. } => match r2 {
                Expr::ArrayLit { elems: e2, .. } => {
                    assert forall|i: int| 0 <= i < elems.len() implies remaps_expr(#[trigger] elems@[i], e2@[i], c) by {
                        assert(remaps_expr(e1@[i], e2@[i], b));
                        lemma_remaps_expr_compose(elems@[i], e1@[i], e2@[i], a, b, c);
                    }
                },
                _ => {},
            },
            _ => {},
        },
        Expr::FnLit { body_cfg, .. } => match r1 {
            Expr::FnLit { body_cfg: b1, .. } => match r2 {
                Expr::FnLit { body_cfg: b2, .. } => {
                    lemma_remaps_cfg_compose(arc_cfg(body_cfg), arc_cfg(b1), arc_cfg(b2), a, b, c);
                },
                _ => {},
            },
            _ => {},
        },
        Expr::FieldAccess { obj, .. } => match r1 {
            Expr::FieldAccess { obj: o1, .. } => match r2 {
                Expr::FieldAccess { obj: o2, .. } => {
                    lemma_remaps_expr_compose(*obj, *o1, *o2, a, b, c);
                },
                _ => {},
            },
            _ => {},
        },
        Expr::IndexAccess { arr, idx } => match r1 {
            Expr::IndexAccess { arr: a1, idx: i1 } => match r2 {
                Expr::IndexAccess { arr: a2, idx: i2 } => {
                    lemma_remaps_expr_compose(*arr, *a1, *a2, a, b, c);
                    lemma_remaps_expr_compose(*idx, *i1, *i2, a, b, c);
                },
                _ => {},
            },
            _ => {},
        },
        Expr::BinOp { lhs, rhs, .. } => match r1 {
            Expr::BinOp { lhs: l1, rhs: h1, .. } => match r2 {
                Expr::BinOp { lhs: l2, rhs: h2, .. } => {
                    lemma_remaps_expr_compose(*lhs, *l1, *l2, a, b, c);
                    lemma_remaps_expr_compose(*rhs, *h1, *h2, a, b, c);
                },
                _ => {},
            },
            _ => {},
        },
        Expr::UnaryOp { arg, .. } => match r1 {
            Expr::UnaryOp { arg: g1, .. } => match r2 {
                Expr::UnaryOp { arg: g2, .. } => {
                    lemma_remaps_expr_compose(*arg, *g1, *g2, a, b, c);
                },
                _ => {},
            },
            _ => {},
        },
        Expr::Call { fn_, args } => match r1 {
            Expr::Call { fn_: c1, args: a1 } => match r2 {
                Expr::Call { fn_: c2, args: a2 } => {
                    lemma_remaps_expr_compose(*fn_, *c1, *c2, a, b, c);
                    assert forall|i: int| 0 <= i < args.len() implies remaps_expr(#[trigger] args@[i], a2@[i], c) by {
                        assert(remaps_expr(a1@[i], a2@[i], b));
                        lemma_remaps_expr_compose(args@[i], a1@[i], a2@[i], a, b, c);
                    }
                },
                _ => {},
            },
            _ => {},
        },
        Expr::CompApp { props, .. } => match r1 {
            Expr::CompApp { props: p1, .. } => match r2 {
                Expr::CompApp { props: p2, .. } => {
                    lemma_remaps_expr_compose(*props, *p1, *p2, a, b, c);
                },
                _ => {},
            },
            _ => {},
        },
        Expr::NativeElem { props, children, .. } => match r1 {
            Expr::NativeElem { props: p1, children: k1, .. } => match r2 {
                Expr::NativeElem { props: p2, children: k2, .. } => {
                    lemma_remaps_expr_compose(*props, *p1, *p2, a, b, c);
                    assert forall|i: int| 0 <= i < children.len() implies remaps_expr(#[trigger] children@[i], k2@[i], c) by {
                        assert(remaps_expr(k1@[i], k2@[i], b));
                        lemma_remaps_expr_compose(children@[i], k1@[i], k2@[i], a, b, c);
                    }
                },
                _ => {},
            },
            _ => {},
        },
        Expr::TSAnnotated(inner) => match r1 {
            Expr::TSAnnotated(n1) => match r2 {
                Expr::TSAnnotated(n2) => {
                    lemma_remaps_expr_compose(*inner, *n1, *n2, a, b, c);
                },
                _ => {},
            },
            _ => {},
        },
        _ => {},
    }
}

/// [`lemma_remaps_expr_compose`] for a statement.
pub proof fn lemma_remaps_stmt_compose(s: Stmt, r1: Stmt, r2: Stmt, a: Offsets, b: Offsets, c: Offsets)
    requires
        remaps_stmt(s, r1, a),
        remaps_stmt(r1, r2, b),
        c.labels == a.labels + b.labels,
        c.ids == a.ids + b.ids,
        fits_stmt(s, c),
    ensures
        remaps_stmt(s, r2, c),
    decreases s,
{
    match s {
        Stmt::Let { rhs, .. } => match r1 {
            Stmt::Let { rhs: h1, .. } => match r2 {
                Stmt::Let { rhs: h2, .. } => lemma_remaps_expr_compose(rhs, h1, h2, a, b, c),
                _ => {},
            },
            _ => {},
        },
        Stmt::Assign { rhs, .. } => match r1 {
            Stmt::Assign { rhs: h1, .. } => match r2 {
                Stmt::Assign { rhs: h2, .. } => lemma_remaps_expr_compose(rhs, h1, h2, a, b, c),
                _ => {},
            },
            _ => {},
        },
        Stmt::MemberWrite { obj, key, rhs, .. } => match r1 {
            Stmt::MemberWrite { obj: o1, key: k1, rhs: h1, .. } => match r2 {
                Stmt::MemberWrite { obj: o2, key: k2, rhs: h2, .. } => {
                    lemma_remaps_expr_compose(obj, o1, o2, a, b, c);
                    lemma_remaps_expr_compose(rhs, h1, h2, a, b, c);
                    match key {
                        MemberKey::Index(i) => match k1 {
                            MemberKey::Index(i1) => match k2 {
                                MemberKey::Index(i2) => lemma_remaps_expr_compose(i, i1, i2, a, b, c),
                                _ => {},
                            },
                            _ => {},
                        },
                        _ => {},
                    }
                },
                _ => {},
            },
            _ => {},
        },
        Stmt::ExprStmt(e, _) => match r1 {
            Stmt::ExprStmt(e1, _) => match r2 {
                Stmt::ExprStmt(e2, _) => lemma_remaps_expr_compose(e, e1, e2, a, b, c),
                _ => {},
            },
            _ => {},
        },
    }
}

/// [`lemma_remaps_expr_compose`] for a control-flow graph.
pub proof fn lemma_remaps_cfg_compose(g: CFG, r1: CFG, r2: CFG, a: Offsets, b: Offsets, c: Offsets)
    requires
        remaps_cfg(g, r1, a),
        remaps_cfg(r1, r2, b),
        c.labels == a.labels + b.labels,
        c.ids == a.ids + b.ids,
        fits_cfg(g, c),
    ensures
        remaps_cfg(g, r2, c),
    decreases g,
{
    assert forall|i: int| 0 <= i < g.blocks.len() implies remaps_block(#[trigger] g.blocks@[i], r2.blocks@[i], c) by {
        let bl = g.blocks@[i];
        let b1 = r1.blocks@[i];
        let b2 = r2.blocks@[i];
        assert(remaps_block(b1, b2, b));
        assert(fits_block(bl, c));
        assert forall|j: int| 0 <= j < bl.stmts.len() implies remaps_stmt(#[trigger] bl.stmts@[j], b2.stmts@[j], c) by {
            assert(remaps_stmt(b1.stmts@[j], b2.stmts@[j], b));
            assert(fits_stmt(bl.stmts@[j], c));
            lemma_remaps_stmt_compose(bl.stmts@[j], b1.stmts@[j], b2.stmts@[j], a, b, c);
        }
        match bl.term {
            Terminator::Branch { cond, .. } => match b1.term {
                Terminator::Branch { cond: c1, .. } => match b2.term {
                    Terminator::Branch { cond: c2, .. } => lemma_remaps_expr_compose(cond, c1, c2, a, b, c),
                    _ => {},
                },
                _ => {},
            },
            Terminator::Return(e) => match b1.term {
                Terminator::Return(e1) => match b2.term {
                    Terminator::Return(e2) => lemma_remaps_expr_compose(e, e1, e2, a, b, c),
                    _ => {},
                },
                _ => {},
            },
            _ => {},
        }
    }
}

/// A zero shift relates a body to itself: a remap by zero may hand back
/// the body unchanged.
pub proof fn lemma_remaps_expr_zero(e: Expr)
    ensures
        remaps_expr(e, e, Offsets { labels: 0, ids: 0 }),
    decreases e,
{
    let z = Offsets { labels: 0, ids: 0 };
    match e {
        Expr::ObjectLit { fields, .. } => {
            assert forall|i: int| 0 <= i < fields.len() implies remaps_field(#[trigger] fields@[i], fields@[i], z) by {
                lemma_remaps_expr_zero(fields@[i].1);
            }
        },
        Expr::ArrayLit { elems, .. } => {
            assert forall|i: int| 0 <= i < elems.len() implies remaps_expr(#[trigger] elems@[i], elems@[i], z) by {
                lemma_remaps_expr_zero(elems@[i]);
            }
        },
        Expr::FnLit { body_cfg, .. } => lemma_remaps_cfg_zero(arc_cfg(body_cfg)),
        Expr::FieldAccess { obj, .. } => lemma_remaps_expr_zero(*obj),
        Expr::IndexAccess { arr, idx } => {
            lemma_remaps_expr_zero(*arr);
            lemma_remaps_expr_zero(*idx);
        },
        Expr::BinOp { lhs, rhs, .. } => {
            lemma_remaps_expr_zero(*lhs);
            lemma_remaps_expr_zero(*rhs);
        },
        Expr::UnaryOp { arg, .. } => lemma_remaps_expr_zero(*arg),
        Expr::Call { fn_, args } => {
            lemma_remaps_expr_zero(*fn_);
            assert forall|i: int| 0 <= i < args.len() implies remaps_expr(#[trigger] args@[i], args@[i], z) by {
                lemma_remaps_expr_zero(args@[i]);
            }
        },
        Expr::CompApp { props, .. } => lemma_remaps_expr_zero(*props),
        Expr::NativeElem { props, children, .. } => {
            lemma_remaps_expr_zero(*props);
            assert forall|i: int| 0 <= i < children.len() implies remaps_expr(#[trigger] children@[i], children@[i], z) by {
                lemma_remaps_expr_zero(children@[i]);
            }
        },
        Expr::TSAnnotated(inner) => lemma_remaps_expr_zero(*inner),
        _ => {},
    }
}

/// [`lemma_remaps_expr_zero`] for a control-flow graph.
pub proof fn lemma_remaps_cfg_zero(g: CFG)
    ensures
        remaps_cfg(g, g, Offsets { labels: 0, ids: 0 }),
    decreases g,
{
    let z = Offsets { labels: 0, ids: 0 };
    assert forall|i: int| 0 <= i < g.blocks.len() implies remaps_block(#[trigger] g.blocks@[i], g.blocks@[i], z) by {
        let bl = g.blocks@[i];
        assert forall|j: int| 0 <= j < bl.stmts.len() implies remaps_stmt(#[trigger] bl.stmts@[j], bl.stmts@[j], z) by {
            match bl.stmts@[j] {
                Stmt::Let { rhs, .. } => lemma_remaps_expr_zero(rhs),
                Stmt::Assign { rhs, .. } => lemma_remaps_expr_zero(rhs),
                Stmt::MemberWrite { obj, key, rhs, .. } => {
                    lemma_remaps_expr_zero(obj);
                    lemma_remaps_expr_zero(rhs);
                    match key {
                        MemberKey::Index(k) => lemma_remaps_expr_zero(k),
                        _ => {},
                    }
                },
                Stmt::ExprStmt(e, _) => lemma_remaps_expr_zero(e),
            }
        }
        match bl.term {
            Terminator::Branch { cond, .. } => lemma_remaps_expr_zero(cond),
            Terminator::Return(e) => lemma_remaps_expr_zero(e),
            _ => {},
        }
    }
}


/// Nothing overflows a zero shift.
pub proof fn lemma_fits_expr_zero(e: Expr)
    ensures
        fits_expr(e, Offsets { labels: 0, ids: 0 }),
    decreases e,
{
    let z = Offsets { labels: 0, ids: 0 };
    match e {
        Expr::ObjectLit { fields, .. } => {
            assert forall|i: int| 0 <= i < fields.len() implies fits_expr(#[trigger] fields@[i].1, z) by {
                lemma_fits_expr_zero(fields@[i].1);
            }
        },
        Expr::ArrayLit { elems, .. } => {
            assert forall|i: int| 0 <= i < elems.len() implies fits_expr(#[trigger] elems@[i], z) by {
                lemma_fits_expr_zero(elems@[i]);
            }
        },
        Expr::FnLit { body_cfg, .. } => lemma_fits_cfg_zero(arc_cfg(body_cfg)),
        Expr::FieldAccess { obj, .. } => lemma_fits_expr_zero(*obj),
        Expr::IndexAccess { arr, idx } => {
            lemma_fits_expr_zero(*arr);
            lemma_fits_expr_zero(*idx);
        },
        Expr::BinOp { lhs, rhs, .. } => {
            lemma_fits_expr_zero(*lhs);
            lemma_fits_expr_zero(*rhs);
        },
        Expr::UnaryOp { arg, .. } => lemma_fits_expr_zero(*arg),
        Expr::Call { fn_, args } => {
            lemma_fits_expr_zero(*fn_);
            assert forall|i: int| 0 <= i < args.len() implies fits_expr(#[trigger] args@[i], z) by {
                lemma_fits_expr_zero(args@[i]);
            }
        },
        Expr::CompApp { props, .. } => lemma_fits_expr_zero(*props),
        Expr::NativeElem { props, children, .. } => {
            lemma_fits_expr_zero(*props);
            assert forall|i: int| 0 <= i < children.len() implies fits_expr(#[trigger] children@[i], z) by {
                lemma_fits_expr_zero(children@[i]);
            }
        },
        Expr::TSAnnotated(inner) => lemma_fits_expr_zero(*inner),
        _ => {},
    }
}

/// [`lemma_fits_expr_zero`] for a control-flow graph.
pub proof fn lemma_fits_cfg_zero(g: CFG)
    ensures
        fits_cfg(g, Offsets { labels: 0, ids: 0 }),
    decreases g,
{
    let z = Offsets { labels: 0, ids: 0 };
    assert forall|i: int| 0 <= i < g.blocks.len() implies fits_block(#[trigger] g.blocks@[i], z) by {
        let bl = g.blocks@[i];
        assert forall|j: int| 0 <= j < bl.stmts.len() implies fits_stmt(#[trigger] bl.stmts@[j], z) by {
            match bl.stmts@[j] {
                Stmt::Let { rhs, .. } => lemma_fits_expr_zero(rhs),
                Stmt::Assign { rhs, .. } => lemma_fits_expr_zero(rhs),
                Stmt::MemberWrite { obj, key, rhs, .. } => {
                    lemma_fits_expr_zero(obj);
                    lemma_fits_expr_zero(rhs);
                    match key {
                        MemberKey::Index(k) => lemma_fits_expr_zero(k),
                        _ => {},
                    }
                },
                Stmt::ExprStmt(e, _) => lemma_fits_expr_zero(e),
            }
        }
        match bl.term {
            Terminator::Branch { cond, .. } => lemma_fits_expr_zero(cond),
            Terminator::Return(e) => lemma_fits_expr_zero(e),
            _ => {},
        }
    }
}

/// A copy of `c`: the zero shift of it.
pub fn copy_cfg(c: &CFG) -> (r: CFG)
    ensures
        remaps_cfg(*c, r, Offsets { labels: 0, ids: 0 }),
{
    proof {
        lemma_fits_cfg_zero(*c);
    }
    shifted_cfg(c, Offsets { labels: 0, ids: 0 })
}

// ── Whether a shift fits, decided ───────────────────────────────────────────

/// `l + by` is still a `usize`.
fn label_fits(l: usize, by: usize) -> (r: bool)
    ensures
        r == (l + by <= usize::MAX),
{
    l <= usize::MAX - by
}

/// Whether every label and allocation-site id of `e` stays a `usize` once
/// shifted by `off`.
#[verifier::loop_isolation(false)]
pub fn expr_fits(e: &Expr, off: Offsets) -> (r: bool)
    ensures
        r == fits_expr(*e, off),
    decreases e,
{
    match e {
        Expr::StateVal(l) => label_fits(*l, off.labels),
        Expr::StateSetter(l) => label_fits(*l, off.labels),
        Expr::MemoVal(l) => label_fits(*l, off.labels),
        Expr::CallbackVal(l) => label_fits(*l, off.labels),
        Expr::HookMarker(l, _) => label_fits(*l, off.labels),
        Expr::ObjectLit { id, fields } => {
            if !label_fits(id.0, off.ids) {
                return false;
            }
            let mut i: usize = 0;
            while i < fields.len()
                invariant
                    i <= fields.len(),
                    forall|k: int| 0 <= k < i ==> fits_expr(#[trigger] fields@[k].1, off),
                decreases fields.len() - i,
            {
                proof {
                    assert(decreases_to!(*fields => fields@));
                    assert(decreases_to!(fields@ => fields@[i as int]));
                    assert(decreases_to!(fields@[i as int] => fields@[i as int].1));
                }
                if !expr_fits(&fields[i].1, off) {
                    return false;
                }
                i = i + 1;
            }
            true
        },
        Expr::ArrayLit { id, elems, .. } => label_fits(id.0, off.ids) && exprs_fit(elems, off),
        Expr::FnLit { id, body_cfg, .. } => label_fits(id.0, off.ids) && cfg_fits(&**body_cfg, off),
        Expr::FieldAccess { obj, .. } => expr_fits(&**obj, off),
        Expr::IndexAccess { arr, idx } => expr_fits(&**arr, off) && expr_fits(&**idx, off),
        Expr::BinOp { lhs, rhs, .. } => expr_fits(&**lhs, off) && expr_fits(&**rhs, off),
        Expr::UnaryOp { arg, .. } => expr_fits(&**arg, off),
        Expr::Call { fn_, args } => expr_fits(&**fn_, off) && exprs_fit(args, off),
        Expr::CompApp { props, .. } => expr_fits(&**props, off),
        Expr::NativeElem { props, children, .. } => expr_fits(&**props, off) && exprs_fit(children, off),
        Expr::TSAnnotated(inner) => expr_fits(&**inner, off),
        _ => true,
    }
}

/// Whether every expression of the list fits the shift.
#[verifier::loop_isolation(false)]
pub fn exprs_fit(es: &Vec<Expr>, off: Offsets) -> (r: bool)
    ensures
        r == forall|i: int| 0 <= i < es.len() ==> fits_expr(#[trigger] es@[i], off),
    decreases es,
{
    let mut i: usize = 0;
    while i < es.len()
        invariant
            i <= es.len(),
            forall|k: int| 0 <= k < i ==> fits_expr(#[trigger] es@[k], off),
        decreases es.len() - i,
    {
        proof {
            assert(decreases_to!(*es => es@));
            assert(decreases_to!(es@ => es@[i as int]));
        }
        if !expr_fits(&es[i], off) {
            return false;
        }
        i = i + 1;
    }
    true
}

/// Whether a statement fits the shift.
fn stmt_fits(s: &Stmt, off: Offsets) -> (r: bool)
    ensures
        r == fits_stmt(*s, off),
    decreases s,
{
    match s {
        Stmt::Let { rhs, .. } => expr_fits(rhs, off),
        Stmt::Assign { rhs, .. } => expr_fits(rhs, off),
        Stmt::MemberWrite { obj, key, rhs, .. } => {
            let k = match key {
                MemberKey::Index(i) => expr_fits(i, off),
                MemberKey::Field(_) => true,
            };
            expr_fits(obj, off) && expr_fits(rhs, off) && k
        },
        Stmt::ExprStmt(e, _) => expr_fits(e, off),
    }
}

/// Whether every block of a CFG fits the shift.
#[verifier::loop_isolation(false)]
pub fn cfg_fits(c: &CFG, off: Offsets) -> (r: bool)
    ensures
        r == fits_cfg(*c, off),
    decreases c,
{
    let mut i: usize = 0;
    while i < c.blocks.len()
        invariant
            i <= c.blocks.len(),
            forall|k: int| 0 <= k < i ==> fits_block(#[trigger] c.blocks@[k], off),
        decreases c.blocks.len() - i,
    {
        proof {
            assert(decreases_to!(*c => c.blocks));
            assert(decreases_to!(c.blocks => c.blocks@));
            assert(decreases_to!(c.blocks@ => c.blocks@[i as int]));
        }
        let b = &c.blocks[i];
        let mut j: usize = 0;
        while j < b.stmts.len()
            invariant
                j <= b.stmts.len(),
                forall|k: int| 0 <= k < j ==> fits_stmt(#[trigger] b.stmts@[k], off),
            decreases b.stmts.len() - j,
        {
            proof {
                assert(decreases_to!(*b => b.stmts));
                assert(decreases_to!(b.stmts => b.stmts@));
                assert(decreases_to!(b.stmts@ => b.stmts@[j as int]));
            }
            if !stmt_fits(&b.stmts[j], off) {
                return false;
            }
            j = j + 1;
        }
        let t = match &b.term {
            Terminator::Branch { cond, .. } => expr_fits(cond, off),
            Terminator::Return(e) => expr_fits(e, off),
            _ => true,
        };
        if !t {
            return false;
        }
        i = i + 1;
    }
    true
}

/// Whether a hook entry's label and everything it embeds fit the shift.
pub fn hook_fits(h: &HookEntry, off: Offsets) -> (r: bool)
    ensures
        r == fits_hook(*h, off),
{
    if !label_fits(h.label(), off.labels) {
        return false;
    }
    match h {
        HookEntry::State { init, .. } => expr_fits(init, off),
        HookEntry::Ref { init, .. } => expr_fits(init, off),
        HookEntry::Effect { body_cfg, deps, .. } => cfg_fits(body_cfg, off) && deps_fit(deps, off),
        HookEntry::Memo { body_cfg, deps, .. } => cfg_fits(body_cfg, off) && deps_fit(deps, off),
        HookEntry::Callback { body_cfg, deps, .. } => cfg_fits(body_cfg, off) && deps_fit(deps, off),
        HookEntry::Custom { args, deps, .. } => exprs_fit(args, off) && deps_fit(deps, off),
        HookEntry::Handler { body_cfg, .. } => cfg_fits(body_cfg, off),
    }
}

/// Whether the deps elements of a hook fit the shift.
fn deps_fit(d: &DepsArg, off: Offsets) -> (r: bool)
    ensures
        r == fits_deps(*d, off),
{
    match d {
        DepsArg::List(l) => exprs_fit(&l.elems, off),
        _ => true,
    }
}
} // verus!
