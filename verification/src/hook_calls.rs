//! Where each hook of a component is called in its render body: the labels
//! the render body carries, the call-site markers lowering left, and the
//! per-hook facts the rules of hooks read.
use vstd::prelude::*;

use crate::analysis_result::{HandlerInfo, HookCallInfo, HookKind};
use crate::free_vars::{compute_free_vars, free_in};
use crate::symbol_graph::name_set;
use crate::cfg::{BasicBlock, CFG};
use crate::expr::{children_of, peeled, Expr, MarkerVal};
use crate::hooks::HookEntry;
use crate::stmt::{MemberKey, Stmt};
use crate::types::{BlockId, HookLabel, Var};

verus! {

/// The hook labels `e` carries, in reading order: the label of each state,
/// setter, memo and callback value and each call-site marker, not looking
/// into function literal bodies.
pub open spec fn labels_in(e: Expr) -> Seq<HookLabel>
    decreases e,
{
    match e {
        Expr::StateVal(l) => seq![l],
        Expr::StateSetter(l) => seq![l],
        Expr::MemoVal(l) => seq![l],
        Expr::CallbackVal(l) => seq![l],
        Expr::HookMarker(l, _) => seq![l],
        Expr::ObjectLit { fields, .. } => labels_in_fields(fields@),
        Expr::ArrayLit { elems, .. } => labels_in_list(elems@),
        Expr::FieldAccess { obj, .. } => labels_in(*obj),
        Expr::IndexAccess { arr, idx } => labels_in(*arr) + labels_in(*idx),
        Expr::BinOp { lhs, rhs, .. } => labels_in(*lhs) + labels_in(*rhs),
        Expr::UnaryOp { arg, .. } => labels_in(*arg),
        Expr::Call { fn_, args } => labels_in(*fn_) + labels_in_list(args@),
        Expr::CompApp { props, .. } => labels_in(*props),
        Expr::NativeElem { props, children, .. } => labels_in(*props) + labels_in_list(children@),
        Expr::TSAnnotated(inner) => labels_in(*inner),
        _ => Seq::empty(),
    }
}

/// [`labels_in`] of each of `es`, in order.
pub open spec fn labels_in_list(es: Seq<Expr>) -> Seq<HookLabel>
    decreases es,
{
    if es.len() == 0 {
        Seq::empty()
    } else {
        labels_in_list(es.drop_last()) + labels_in(es.last())
    }
}

/// [`labels_in`] of each field value, in order.
pub open spec fn labels_in_fields(fs: Seq<(String, Expr)>) -> Seq<HookLabel>
    decreases fs,
{
    if fs.len() == 0 {
        Seq::empty()
    } else {
        labels_in_fields(fs.drop_last()) + labels_in(fs.last().1)
    }
}

/// The label an expression itself carries: a state, setter, memo or
/// callback value, or a call-site marker.
pub open spec fn own_label(e: Expr) -> Seq<HookLabel> {
    match e {
        Expr::StateVal(l) => seq![l],
        Expr::StateSetter(l) => seq![l],
        Expr::MemoVal(l) => seq![l],
        Expr::CallbackVal(l) => seq![l],
        Expr::HookMarker(l, _) => seq![l],
        _ => Seq::empty(),
    }
}

proof fn lemma_labels_list_concat(a: Seq<Expr>, b: Seq<Expr>)
    ensures
        labels_in_list(a + b) == labels_in_list(a) + labels_in_list(b),
    decreases b.len(),
{
    if b.len() == 0 {
        assert(a + b =~= a);
        assert(labels_in_list(b) =~= Seq::<HookLabel>::empty());
        assert(labels_in_list(a) + labels_in_list(b) =~= labels_in_list(a));
    } else {
        lemma_labels_list_concat(a, b.drop_last());
        assert((a + b).drop_last() =~= a + b.drop_last());
        assert((a + b).last() == b.last());
        assert(labels_in_list(a) + labels_in_list(b) =~= labels_in_list(a) + labels_in_list(b.drop_last()) + labels_in(b.last()));
    }
}

proof fn lemma_labels_single(x: Expr, y: Expr)
    ensures
        labels_in_list(seq![x]) == labels_in(x),
        labels_in_list(seq![x, y]) == labels_in(x) + labels_in(y),
{
    let s1 = seq![x];
    assert(s1.drop_last() =~= Seq::<Expr>::empty());
    assert(labels_in_list(s1.drop_last()) == Seq::<HookLabel>::empty());
    assert(labels_in_list(s1) =~= labels_in(x));
    let s2 = seq![x, y];
    assert(s2.drop_last() =~= s1);
    assert(s2.last() == y);
}

proof fn lemma_labels_fields(fs: Seq<(String, Expr)>)
    ensures
        labels_in_fields(fs) == labels_in_list(fs.map_values(|f: (String, Expr)| f.1)),
    decreases fs.len(),
{
    if fs.len() > 0 {
        lemma_labels_fields(fs.drop_last());
        assert(fs.map_values(|f: (String, Expr)| f.1).drop_last() =~= fs.drop_last().map_values(|f: (String, Expr)| f.1));
    } else {
        assert(fs.map_values(|f: (String, Expr)| f.1) =~= Seq::<Expr>::empty());
    }
}

/// The labels an expression carries are its own, then those of each
/// expression directly inside it in reading order (callee before
/// arguments, props before children), never those of a function literal's
/// body.
pub proof fn lemma_labels_structure(e: Expr)
    ensures
        labels_in(e) == own_label(e) + labels_in_list(children_of(e)),
{
    let c = children_of(e);
    match e {
        Expr::Call { fn_, args } => {
            lemma_labels_list_concat(seq![*fn_], args@);
            lemma_labels_single(*fn_, *fn_);
            assert(own_label(e) + labels_in_list(c) =~= labels_in(e));
        },
        Expr::NativeElem { props, children, .. } => {
            lemma_labels_list_concat(seq![*props], children@);
            lemma_labels_single(*props, *props);
            assert(own_label(e) + labels_in_list(c) =~= labels_in(e));
        },
        Expr::ObjectLit { fields, .. } => {
            lemma_labels_fields(fields@);
            assert(own_label(e) + labels_in_list(c) =~= labels_in(e));
        },
        Expr::ArrayLit { elems, .. } => {
            assert(own_label(e) + labels_in_list(c) =~= labels_in(e));
        },
        Expr::IndexAccess { arr, idx } => {
            lemma_labels_single(*arr, *idx);
            assert(own_label(e) + labels_in_list(c) =~= labels_in(e));
        },
        Expr::BinOp { lhs, rhs, .. } => {
            lemma_labels_single(*lhs, *rhs);
            assert(own_label(e) + labels_in_list(c) =~= labels_in(e));
        },
        _ => {
            if c.len() == 1 {
                lemma_labels_single(c[0], c[0]);
                assert(c =~= seq![c[0]]);
            } else {
                assert(labels_in_list(c) == Seq::<HookLabel>::empty());
            }
            assert(own_label(e) + labels_in_list(c) =~= labels_in(e));
        },
    }
}

/// The hook labels a statement carries, in reading order.
pub open spec fn labels_in_stmt(s: Stmt) -> Seq<HookLabel> {
    match s {
        Stmt::Let { rhs, .. } => labels_in(rhs),
        Stmt::Assign { rhs, .. } => labels_in(rhs),
        Stmt::MemberWrite { obj, key, rhs, .. } => labels_in(obj) + (match key {
            MemberKey::Index(i) => labels_in(i),
            _ => Seq::empty(),
        }) + labels_in(rhs),
        Stmt::ExprStmt(e, _) => labels_in(e),
    }
}

/// Append the hook labels `expr` carries to `out`.
pub fn collect_hook_labels_expr(expr: &Expr, out: &mut Vec<HookLabel>)
    ensures
        final(out)@ == old(out)@ + labels_in(*expr),
    decreases expr,
{
    let ghost o0 = out@;
    match expr {
        Expr::StateVal(l) => out.push(*l),
        Expr::StateSetter(l) => out.push(*l),
        Expr::MemoVal(l) => out.push(*l),
        Expr::CallbackVal(l) => out.push(*l),
        Expr::HookMarker(l, _) => out.push(*l),
        Expr::ObjectLit { fields, .. } => {
            let mut i: usize = 0;
            assert(fields@.subrange(0, 0) =~= Seq::<(String, Expr)>::empty());
            while i < fields.len()
                invariant
                    i <= fields.len(),
                    *expr matches Expr::ObjectLit { fields: f, .. } && f == *fields,
                    out@ == o0 + labels_in_fields(fields@.subrange(0, i as int)),
                decreases fields.len() - i,
            {
                proof {
                    assert(decreases_to!(*expr => *fields));
                    assert(decreases_to!(*fields => fields@));
                    assert(decreases_to!(fields@ => fields@[i as int]));
                    assert(decreases_to!(fields@[i as int] => fields@[i as int].1));
                }
                collect_hook_labels_expr(&fields[i].1, out);
                proof {
                    let s1 = fields@.subrange(0, i + 1);
                    assert(s1.drop_last() =~= fields@.subrange(0, i as int));
                    assert(s1.last() == fields@[i as int]);
                    assert(out@ =~= o0 + labels_in_fields(s1));
                }
                i = i + 1;
            }
            assert(fields@.subrange(0, fields.len() as int) =~= fields@);
        },
        Expr::ArrayLit { elems, .. } => collect_hook_labels_list(elems, out),
        Expr::FieldAccess { obj, .. } => collect_hook_labels_expr(&**obj, out),
        Expr::IndexAccess { arr, idx } => {
            collect_hook_labels_expr(&**arr, out);
            collect_hook_labels_expr(&**idx, out);
            assert(out@ =~= o0 + labels_in(*expr));
        },
        Expr::BinOp { lhs, rhs, .. } => {
            collect_hook_labels_expr(&**lhs, out);
            collect_hook_labels_expr(&**rhs, out);
            assert(out@ =~= o0 + labels_in(*expr));
        },
        Expr::UnaryOp { arg, .. } => collect_hook_labels_expr(&**arg, out),
        Expr::Call { fn_, args } => {
            collect_hook_labels_expr(&**fn_, out);
            collect_hook_labels_list(args, out);
            assert(out@ =~= o0 + labels_in(*expr));
        },
        Expr::CompApp { props, .. } => collect_hook_labels_expr(&**props, out),
        Expr::NativeElem { props, children, .. } => {
            collect_hook_labels_expr(&**props, out);
            collect_hook_labels_list(children, out);
            assert(out@ =~= o0 + labels_in(*expr));
        },
        Expr::TSAnnotated(inner) => collect_hook_labels_expr(&**inner, out),
        _ => {
            assert(out@ =~= o0 + labels_in(*expr));
        },
    }
}

/// Append the hook labels each of `es` carries to `out`.
fn collect_hook_labels_list(es: &Vec<Expr>, out: &mut Vec<HookLabel>)
    ensures
        final(out)@ == old(out)@ + labels_in_list(es@),
    decreases es,
{
    let ghost o0 = out@;
    let mut i: usize = 0;
    assert(es@.subrange(0, 0) =~= Seq::<Expr>::empty());
    while i < es.len()
        invariant
            i <= es.len(),
            out@ == o0 + labels_in_list(es@.subrange(0, i as int)),
        decreases es.len() - i,
    {
        proof {
            assert(decreases_to!(*es => es@));
            assert(decreases_to!(es@ => es@[i as int]));
        }
        collect_hook_labels_expr(&es[i], out);
        proof {
            let s1 = es@.subrange(0, i + 1);
            assert(s1.drop_last() =~= es@.subrange(0, i as int));
            assert(out@ =~= o0 + labels_in_list(s1));
        }
        i = i + 1;
    }
    assert(es@.subrange(0, es.len() as int) =~= es@);
}

/// The hook labels a statement carries, in reading order.
pub fn hook_labels_in_stmt(stmt: &Stmt) -> (r: Vec<HookLabel>)
    ensures
        r@ == labels_in_stmt(*stmt),
{
    let mut out: Vec<HookLabel> = Vec::new();
    match stmt {
        Stmt::Let { rhs, .. } => collect_hook_labels_expr(rhs, &mut out),
        Stmt::Assign { rhs, .. } => collect_hook_labels_expr(rhs, &mut out),
        Stmt::MemberWrite { obj, key, rhs, .. } => {
            collect_hook_labels_expr(obj, &mut out);
            match key {
                MemberKey::Index(idx) => collect_hook_labels_expr(idx, &mut out),
                _ => {},
            }
            collect_hook_labels_expr(rhs, &mut out);
        },
        Stmt::ExprStmt(e, _) => collect_hook_labels_expr(e, &mut out),
    }
    assert(out@ =~= labels_in_stmt(*stmt));
    out
}

/// `e` is the call-site marker of the hook labelled `l`, annotations
/// stripped.
pub open spec fn is_marker_of(e: Expr, l: HookLabel) -> bool {
    match peeled(e) {
        Expr::HookMarker(m, _) => m == l,
        _ => false,
    }
}

/// `s` binds the marker of `l` (`let x = marker`) or is it (`marker;`).
pub open spec fn marker_stmt(s: Stmt, l: HookLabel) -> bool {
    match s {
        Stmt::Let { rhs, .. } => is_marker_of(rhs, l),
        Stmt::ExprStmt(e, _) => is_marker_of(e, l),
        _ => false,
    }
}

/// The variable a marker statement binds, if it binds one.
pub open spec fn marker_binding(s: Stmt) -> Option<Var> {
    match s {
        Stmt::Let { var, .. } => Some(var),
        _ => None,
    }
}

/// Some statement of `b` is a marker of `l`.
pub open spec fn block_marks(b: BasicBlock, l: HookLabel) -> bool {
    exists|j: int| 0 <= j < b.stmts.len() && marker_stmt(#[trigger] b.stmts@[j], l)
}

fn is_marker(e: &Expr, l: HookLabel) -> (r: bool)
    ensures
        r == is_marker_of(*e, l),
{
    match e.peel_ts() {
        Expr::HookMarker(m, _) => *m == l,
        _ => false,
    }
}

/// The first marker statement of `l` in `b`, if any.
fn first_marker(b: &BasicBlock, l: HookLabel) -> (r: Option<usize>)
    ensures
        r is None <==> !block_marks(*b, l),
        r matches Some(j) ==> j < b.stmts.len() && marker_stmt(b.stmts@[j as int], l) && forall|k: int| 0 <= k < j ==> !marker_stmt(
            #[trigger] b.stmts@[k],
            l,
        ),
{
    let mut j: usize = 0;
    while j < b.stmts.len()
        invariant
            j <= b.stmts.len(),
            forall|k: int| 0 <= k < j ==> !marker_stmt(#[trigger] b.stmts@[k], l),
        decreases b.stmts.len() - j,
    {
        let hit = match &b.stmts[j] {
            Stmt::Let { rhs, .. } => is_marker(rhs, l),
            Stmt::ExprStmt(e, _) => is_marker(e, l),
            _ => false,
        };
        if hit {
            return Some(j);
        }
        j = j + 1;
    }
    None
}

/// The call site of the custom hook labelled `l` in the render body: the
/// marker lowering left there, as `let x = marker` (with the bound
/// variable) or a bare `marker;` (a void call). Of several, the one in the
/// block with the least id, first in that block.
pub fn find_hook_marker(render_cfg: &CFG, label: HookLabel) -> (r: Option<(BlockId, usize, Option<Var>)>)
    ensures
        r is None <==> forall|i: int| 0 <= i < render_cfg.blocks.len() ==> !block_marks(#[trigger] render_cfg.blocks@[i], label),
        r matches Some((bid, idx, v)) ==> exists|i: int|
            0 <= i < render_cfg.blocks.len() && render_cfg.blocks@[i].id == bid && idx < render_cfg.blocks@[i].stmts.len()
                && marker_stmt(render_cfg.blocks@[i].stmts@[idx as int], label) && (forall|k: int|
                0 <= k < idx ==> !marker_stmt(#[trigger] render_cfg.blocks@[i].stmts@[k], label)) && v == marker_binding(
                render_cfg.blocks@[i].stmts@[idx as int],
            ),
        r matches Some((bid, _, _)) ==> forall|k: int|
            0 <= k < render_cfg.blocks.len() && block_marks(#[trigger] render_cfg.blocks@[k], label) ==> bid <= render_cfg.blocks@[k].id,
{
    let mut best: Option<(usize, usize)> = None;
    let mut i: usize = 0;
    while i < render_cfg.blocks.len()
        invariant
            i <= render_cfg.blocks.len(),
            best is None <==> forall|k: int| 0 <= k < i ==> !block_marks(#[trigger] render_cfg.blocks@[k], label),
            best matches Some((bi, j)) ==> bi < i && j < render_cfg.blocks@[bi as int].stmts.len() && marker_stmt(
                render_cfg.blocks@[bi as int].stmts@[j as int],
                label,
            ) && (forall|k: int| 0 <= k < j ==> !marker_stmt(#[trigger] render_cfg.blocks@[bi as int].stmts@[k], label)) && (forall|k: int|
                0 <= k < i && block_marks(#[trigger] render_cfg.blocks@[k], label) ==> render_cfg.blocks@[bi as int].id <= render_cfg.blocks@[k].id),
        decreases render_cfg.blocks.len() - i,
    {
        match first_marker(&render_cfg.blocks[i], label) {
            Some(j) => {
                let better = match best {
                    None => true,
                    Some((bi, _)) => render_cfg.blocks[i].id < render_cfg.blocks[bi].id,
                };
                if better {
                    best = Some((i, j));
                }
            },
            None => {},
        }
        i = i + 1;
    }
    match best {
        Some((bi, j)) => {
            let v = match &render_cfg.blocks[bi].stmts[j] {
                Stmt::Let { var, .. } => Some(var.clone()),
                _ => None,
            };
            Some((render_cfg.blocks[bi].id, j, v))
        },
        None => None,
    }
}

/// `e` with the marker of `l` retagged to the summary `sv`; anything else
/// unchanged.
pub open spec fn retagged(e: Expr, l: HookLabel, sv: crate::expr::SummaryValue) -> Expr {
    match e {
        Expr::HookMarker(m, v) => if m == l {
            Expr::HookMarker(m, MarkerVal::Summary(sv))
        } else {
            Expr::HookMarker(m, v)
        },
        _ => e,
    }
}

/// `s` with its right-hand side (or its expression) retagged.
pub open spec fn retagged_stmt(s: Stmt, l: HookLabel, sv: crate::expr::SummaryValue) -> Stmt {
    match s {
        Stmt::Let { var, rhs, span } => Stmt::Let { var, rhs: retagged(rhs, l, sv), span },
        Stmt::Assign { var, rhs, span } => Stmt::Assign { var, rhs: retagged(rhs, l, sv), span },
        Stmt::MemberWrite { obj, key, rhs, span } => Stmt::MemberWrite { obj, key, rhs: retagged(rhs, l, sv), span },
        Stmt::ExprStmt(e, span) => Stmt::ExprStmt(retagged(e, l, sv), span),
    }
}

fn retag_expr(e: Expr, l: HookLabel, sv: crate::expr::SummaryValue) -> (r: Expr)
    ensures
        r == retagged(e, l, sv),
{
    match e {
        Expr::HookMarker(m, v) => {
            if m == l {
                Expr::HookMarker(m, MarkerVal::Summary(sv))
            } else {
                Expr::HookMarker(m, v)
            }
        },
        other => other,
    }
}

fn retag_stmt(s: Stmt, l: HookLabel, sv: crate::expr::SummaryValue) -> (r: Stmt)
    ensures
        r == retagged_stmt(s, l, sv),
{
    match s {
        Stmt::Let { var, rhs, span } => Stmt::Let { var, rhs: retag_expr(rhs, l, sv), span },
        Stmt::Assign { var, rhs, span } => Stmt::Assign { var, rhs: retag_expr(rhs, l, sv), span },
        Stmt::MemberWrite { obj, key, rhs, span } => Stmt::MemberWrite { obj, key, rhs: retag_expr(rhs, l, sv), span },
        Stmt::ExprStmt(e, span) => Stmt::ExprStmt(retag_expr(e, l, sv), span),
    }
}

/// Retag the call-site marker of the hook labelled `label` with a library
/// summary, wherever a statement holds it as its right-hand side or as its
/// expression, in every block; the hook entry and the rest of the body
/// stay as they are.
pub fn retag_marker(cfg: &mut CFG, label: HookLabel, sv: crate::expr::SummaryValue)
    ensures
        final(cfg).entry == old(cfg).entry,
        final(cfg).edges@ == old(cfg).edges@,
        final(cfg).blocks.len() == old(cfg).blocks.len(),
        forall|i: int| 0 <= i < final(cfg).blocks.len() ==> (#[trigger] final(cfg).blocks@[i]).id == old(cfg).blocks@[i].id
            && final(cfg).blocks@[i].term == old(cfg).blocks@[i].term && final(cfg).blocks@[i].stmts@ == old(cfg).blocks@[i].stmts@.map_values(
            |s: Stmt| retagged_stmt(s, label, sv),
        ),
{
    let ghost b0 = cfg.blocks@;
    let mut blocks: Vec<BasicBlock> = Vec::new();
    std::mem::swap(&mut blocks, &mut cfg.blocks);
    assert(blocks@ == b0);
    let mut out: Vec<BasicBlock> = Vec::new();
    let ghost n = blocks.len();
    while blocks.len() > 0
        invariant
            out.len() + blocks.len() == n,
            n == b0.len(),
            blocks@ == b0.subrange(out.len() as int, n as int),
            forall|i: int| 0 <= i < out.len() ==> (#[trigger] out@[i]).id == b0[i].id && out@[i].term == b0[i].term && out@[i].stmts@
                == b0[i].stmts@.map_values(|s: Stmt| retagged_stmt(s, label, sv)),
        decreases blocks.len(),
    {
        let ghost k = out.len() as int;
        let b = blocks.remove(0);
        assert(b == b0[k]);
        assert(blocks@ =~= b0.subrange(k + 1, n as int));
        let BasicBlock { id, stmts, term } = b;
        let mut stmts = stmts;
        let ghost s0 = stmts@;
        let mut new_stmts: Vec<Stmt> = Vec::new();
        while stmts.len() > 0
            invariant
                new_stmts.len() + stmts.len() == s0.len(),
                stmts@ == s0.subrange(new_stmts.len() as int, s0.len() as int),
                new_stmts@ == s0.subrange(0, new_stmts.len() as int).map_values(|s: Stmt| retagged_stmt(s, label, sv)),
            decreases stmts.len(),
        {
            let ghost m = new_stmts.len() as int;
            let st = stmts.remove(0);
            assert(st == s0[m]);
            assert(stmts@ =~= s0.subrange(m + 1, s0.len() as int));
            new_stmts.push(retag_stmt(st, label, sv));
            assert(new_stmts@ =~= s0.subrange(0, m + 1).map_values(|s: Stmt| retagged_stmt(s, label, sv)));
        }
        assert(s0.subrange(0, s0.len() as int) =~= s0);
        out.push(BasicBlock { id, stmts: new_stmts, term });
    }
    cfg.blocks = out;
}

/// The kind of a hook call.
pub open spec fn kind_of(h: HookEntry) -> HookKind {
    match h {
        HookEntry::State { .. } => HookKind::State,
        HookEntry::Effect { .. } => HookKind::Effect,
        HookEntry::Memo { .. } => HookKind::Memo,
        HookEntry::Callback { .. } => HookKind::Callback,
        HookEntry::Ref { .. } => HookKind::Ref,
        HookEntry::Custom { .. } => HookKind::Custom,
        HookEntry::Handler { .. } => HookKind::Handler,
    }
}

fn kind_of_exec(h: &HookEntry) -> (r: HookKind)
    ensures
        r == kind_of(*h),
{
    match h {
        HookEntry::State { .. } => HookKind::State,
        HookEntry::Effect { .. } => HookKind::Effect,
        HookEntry::Memo { .. } => HookKind::Memo,
        HookEntry::Callback { .. } => HookKind::Callback,
        HookEntry::Ref { .. } => HookKind::Ref,
        HookEntry::Custom { .. } => HookKind::Custom,
        HookEntry::Handler { .. } => HookKind::Handler,
    }
}

/// The last of `hooks` with label `l`: of two entries under one label, the
/// later decides.
pub open spec fn last_labelled(hooks: Seq<HookEntry>, l: HookLabel) -> Option<HookEntry>
    decreases hooks.len(),
{
    if hooks.len() == 0 {
        None
    } else if hooks.last().spec_label() == l {
        Some(hooks.last())
    } else {
        last_labelled(hooks.drop_last(), l)
    }
}

/// Some statement of `b` carries the label `l`.
pub open spec fn block_carries(b: BasicBlock, l: HookLabel) -> bool {
    exists|j: int| 0 <= j < b.stmts.len() && labels_in_stmt(#[trigger] b.stmts@[j]).contains(l)
}

/// The expression a statement evaluates last: its right-hand side, or the
/// expression of an expression statement.
pub open spec fn stmt_value(s: Stmt) -> Expr {
    match s {
        Stmt::Let { rhs, .. } => rhs,
        Stmt::Assign { rhs, .. } => rhs,
        Stmt::MemberWrite { rhs, .. } => rhs,
        Stmt::ExprStmt(e, _) => e,
    }
}

/// A statement is the marker of `l` of a custom hook the engine could
/// neither inline nor summarize.
pub open spec fn unknown_marker(s: Stmt, l: HookLabel) -> bool {
    stmt_value(s) == Expr::HookMarker(l, MarkerVal::Unknown)
}

/// The render body holds an unknown marker of `l`.
pub open spec fn opaque_in(cfg: CFG, l: HookLabel) -> bool {
    exists|i: int, j: int|
        0 <= i < cfg.blocks.len() && 0 <= j < cfg.blocks@[i].stmts.len() && unknown_marker(#[trigger] cfg.blocks@[i].stmts@[j], l)
}

/// `info` is what the rules of hooks read of label `l`: the kind and span of
/// its (last) entry; the least id among the blocks that carry it, with
/// opacity read off its marker; or, for a label no block carries, the entry
/// block and opacity for a custom hook alone.
pub open spec fn call_info(hooks: Seq<HookEntry>, cfg: CFG, l: HookLabel, info: HookCallInfo) -> bool {
    match last_labelled(hooks, l) {
        None => false,
        Some(h) => {
            &&& info.label == l
            &&& info.kind == kind_of(h)
            &&& info.span == h.spec_span()
            &&& if exists|i: int| 0 <= i < cfg.blocks.len() && block_carries(#[trigger] cfg.blocks@[i], l) {
                &&& exists|i: int| 0 <= i < cfg.blocks.len() && block_carries(#[trigger] cfg.blocks@[i], l) && cfg.blocks@[i].id == info.block_id
                &&& forall|i: int| 0 <= i < cfg.blocks.len() && block_carries(#[trigger] cfg.blocks@[i], l) ==> info.block_id <= cfg.blocks@[i].id
                &&& info.opaque == opaque_in(cfg, l)
            } else {
                &&& info.block_id == cfg.entry
                &&& info.opaque == (kind_of(h) == HookKind::Custom)
            }
        },
    }
}

/// Some entry of `hooks` has the label `l`.
pub open spec fn has_label(hooks: Seq<HookEntry>, l: HookLabel) -> bool {
    exists|k: int| 0 <= k < hooks.len() && (#[trigger] hooks[k]).spec_label() == l
}

/// The position of the last entry labelled `l`.
fn last_labelled_at(hooks: &Vec<HookEntry>, l: HookLabel) -> (r: Option<usize>)
    ensures
        r is None <==> last_labelled(hooks@, l) is None,
        r matches Some(k) ==> k < hooks.len() && last_labelled(hooks@, l) == Some(hooks@[k as int]),
{
    let mut k: usize = hooks.len();
    assert(hooks@.subrange(0, k as int) =~= hooks@);
    while k > 0
        invariant
            k <= hooks.len(),
            last_labelled(hooks@, l) == last_labelled(hooks@.subrange(0, k as int), l),
        decreases k,
    {
        let ghost pre = hooks@.subrange(0, k as int);
        assert(pre.drop_last() =~= hooks@.subrange(0, k - 1));
        if hooks[k - 1].label() == l {
            return Some(k - 1);
        }
        k = k - 1;
    }
    None
}

/// `true` iff `v` holds `x`.
fn holds_label(v: &Vec<HookLabel>, x: HookLabel) -> (r: bool)
    ensures
        r == v@.contains(x),
{
    let mut i: usize = 0;
    while i < v.len()
        invariant
            i <= v.len(),
            forall|k: int| 0 <= k < i ==> v@[k] != x,
        decreases v.len() - i,
    {
        if v[i] == x {
            return true;
        }
        i = i + 1;
    }
    false
}

/// Some statement of `b` carries `l`.
fn carries(b: &BasicBlock, l: HookLabel) -> (r: bool)
    ensures
        r == block_carries(*b, l),
{
    let mut j: usize = 0;
    while j < b.stmts.len()
        invariant
            j <= b.stmts.len(),
            forall|k: int| 0 <= k < j ==> !labels_in_stmt(#[trigger] b.stmts@[k]).contains(l),
        decreases b.stmts.len() - j,
    {
        let ls = hook_labels_in_stmt(&b.stmts[j]);
        if holds_label(&ls, l) {
            return true;
        }
        j = j + 1;
    }
    false
}

/// `true` iff the render body holds an unknown marker of `l`.
fn opaque_exec(cfg: &CFG, l: HookLabel) -> (r: bool)
    ensures
        r == opaque_in(*cfg, l),
{
    let mut i: usize = 0;
    while i < cfg.blocks.len()
        invariant
            i <= cfg.blocks.len(),
            forall|a: int, b: int| 0 <= a < i && 0 <= b < cfg.blocks@[a].stmts.len() ==> !unknown_marker(#[trigger] cfg.blocks@[a].stmts@[b], l),
        decreases cfg.blocks.len() - i,
    {
        let blk = &cfg.blocks[i];
        let mut j: usize = 0;
        while j < blk.stmts.len()
            invariant
                i < cfg.blocks.len(),
                *blk == cfg.blocks@[i as int],
                j <= blk.stmts.len(),
                forall|a: int, b: int| 0 <= a < i && 0 <= b < cfg.blocks@[a].stmts.len() ==> !unknown_marker(#[trigger] cfg.blocks@[a].stmts@[b], l),
                forall|b: int| 0 <= b < j ==> !unknown_marker(#[trigger] blk.stmts@[b], l),
            decreases blk.stmts.len() - j,
        {
            let e = match &blk.stmts[j] {
                Stmt::Let { rhs, .. } => rhs,
                Stmt::Assign { rhs, .. } => rhs,
                Stmt::MemberWrite { rhs, .. } => rhs,
                Stmt::ExprStmt(e, _) => e,
            };
            let hit = match e {
                Expr::HookMarker(m, MarkerVal::Unknown) => *m == l,
                _ => false,
            };
            if hit {
                assert(unknown_marker(cfg.blocks@[i as int].stmts@[j as int], l));
                return true;
            }
            j = j + 1;
        }
        i = i + 1;
    }
    false
}

/// Where each hook of a component is called: one row per label its hook
/// table holds, ordered by label. The row's block is the least-id block of
/// the render body carrying the label; a label no block carries (a handler,
/// a marker lost to inlining) falls back to the entry block.
pub fn collect_hook_calls(hooks: &Vec<HookEntry>, cfg: &CFG) -> (r: Vec<HookCallInfo>)
    ensures
        forall|i: int| 0 <= i < r.len() ==> call_info(hooks@, *cfg, r@[i].label, #[trigger] r@[i]),
        forall|i: int, j: int| 0 <= i < j < r.len() ==> r@[i].label < r@[j].label,
        forall|l: HookLabel| (exists|i: int| 0 <= i < r.len() && r@[i].label == l) <==> #[trigger] has_label(hooks@, l),
{
    // The distinct labels, ascending.
    let mut labels: Vec<HookLabel> = Vec::new();
    let mut k: usize = 0;
    while k < hooks.len()
        invariant
            k <= hooks.len(),
            forall|a: int, b: int| 0 <= a < b < labels.len() ==> labels@[a] < labels@[b],
            forall|l: HookLabel| #[trigger] labels@.contains(l) <==> exists|q: int| 0 <= q < k && (#[trigger] hooks@[q]).spec_label() == l,
        decreases hooks.len() - k,
    {
        let l = hooks[k].label();
        let ghost before = labels@;
        let mut p: usize = 0;
        while p < labels.len() && labels[p] < l
            invariant
                p <= labels.len(),
                labels@ == before,
                forall|q: int| 0 <= q < p ==> labels@[q] < l,
            decreases labels.len() - p,
        {
            p = p + 1;
        }
        if p < labels.len() && labels[p] == l {
            proof {
                assert forall|x: HookLabel| #[trigger] labels@.contains(x) <==> exists|q: int| 0 <= q < k + 1 && (#[trigger] hooks@[q]).spec_label() == x by {
                    if x == l {
                        assert(hooks@[k as int].spec_label() == x);
                    }
                    if exists|q: int| 0 <= q < k + 1 && (#[trigger] hooks@[q]).spec_label() == x {
                        let q = choose|q: int| 0 <= q < k + 1 && (#[trigger] hooks@[q]).spec_label() == x;
                        if q < k {
                            assert(exists|q2: int| 0 <= q2 < k && (#[trigger] hooks@[q2]).spec_label() == x);
                        }
                    }
                    if labels@.contains(x) {
                        assert(exists|q2: int| 0 <= q2 < k && (#[trigger] hooks@[q2]).spec_label() == x);
                        let q2 = choose|q2: int| 0 <= q2 < k && (#[trigger] hooks@[q2]).spec_label() == x;
                        assert(0 <= q2 < k + 1);
                    }
                }
            }
        } else {
            labels.insert(p, l);
            proof {
                assert(labels@ =~= before.insert(p as int, l));
                assert forall|a: int, b: int| 0 <= a < b < labels.len() implies labels@[a] < labels@[b] by {
                    if b < p {
                    } else if b == p {
                    } else if a == p {
                        assert(labels@[b] == before[b - 1]);
                        assert(before[p as int] >= l);
                        assert(before[p as int] != l);
                    } else if a < p {
                        assert(labels@[b] == before[b - 1]);
                        if b - 1 > p {
                            assert(before[p as int] < before[b - 1]);
                        }
                        assert(before[p as int] > l);
                    }
                }
                assert forall|x: HookLabel| #[trigger] labels@.contains(x) <==> exists|q: int| 0 <= q < k + 1 && (#[trigger] hooks@[q]).spec_label() == x by {
                    if labels@.contains(x) {
                        let a = choose|a: int| 0 <= a < labels.len() && labels@[a] == x;
                        if a < p {
                            assert(before.contains(x));
                        } else if a > p {
                            assert(before[a - 1] == x);
                            assert(before.contains(x));
                        } else {
                            assert(hooks@[k as int].spec_label() == x);
                        }
                        if before.contains(x) {
                            let q2 = choose|q2: int| 0 <= q2 < k && (#[trigger] hooks@[q2]).spec_label() == x;
                            assert(0 <= q2 < k + 1);
                        }
                    }
                    if exists|q: int| 0 <= q < k + 1 && (#[trigger] hooks@[q]).spec_label() == x {
                        let q = choose|q: int| 0 <= q < k + 1 && (#[trigger] hooks@[q]).spec_label() == x;
                        if q < k {
                            assert(exists|q2: int| 0 <= q2 < k && (#[trigger] hooks@[q2]).spec_label() == x);
                            assert(before.contains(x));
                            let a = choose|a: int| 0 <= a < before.len() && before[a] == x;
                            if a < p {
                                assert(labels@[a] == x);
                            } else {
                                assert(labels@[a + 1] == x);
                            }
                        } else {
                            assert(labels@[p as int] == x);
                        }
                    }
                }
            }
        }
        k = k + 1;
    }
    let mut r: Vec<HookCallInfo> = Vec::new();
    let mut t: usize = 0;
    while t < labels.len()
        invariant
            t <= labels.len(),
            r.len() == t,
            forall|a: int, b: int| 0 <= a < b < labels.len() ==> labels@[a] < labels@[b],
            forall|l: HookLabel| #[trigger] labels@.contains(l) <==> exists|q: int| 0 <= q < hooks.len() && (#[trigger] hooks@[q]).spec_label() == l,
            forall|i: int| 0 <= i < t ==> (#[trigger] r@[i]).label == labels@[i] && call_info(hooks@, *cfg, r@[i].label, r@[i]),
        decreases labels.len() - t,
    {
        let l = labels[t];
        assert(labels@.contains(l));
        let hk = match last_labelled_at(hooks, l) {
            Some(x) => x,
            None => {
                proof {
                    let q = choose|q: int| 0 <= q < hooks.len() && (#[trigger] hooks@[q]).spec_label() == l;
                    lemma_last_labelled_some(hooks@, l, q);
                }
                return r;
            },
        };
        let kind = kind_of_exec(&hooks[hk]);
        let span = hooks[hk].span();
        let mut best: Option<usize> = None;
        let mut i: usize = 0;
        while i < cfg.blocks.len()
            invariant
                i <= cfg.blocks.len(),
                best is None <==> forall|q: int| 0 <= q < i ==> !block_carries(#[trigger] cfg.blocks@[q], l),
                best matches Some(bi) ==> bi < i && block_carries(cfg.blocks@[bi as int], l) && forall|q: int|
                    0 <= q < i && block_carries(#[trigger] cfg.blocks@[q], l) ==> cfg.blocks@[bi as int].id <= cfg.blocks@[q].id,
            decreases cfg.blocks.len() - i,
        {
            if carries(&cfg.blocks[i], l) {
                let better = match best {
                    None => true,
                    Some(bi) => cfg.blocks[i].id < cfg.blocks[bi].id,
                };
                if better {
                    best = Some(i);
                }
            }
            i = i + 1;
        }
        let info = match best {
            Some(bi) => HookCallInfo { label: l, kind, block_id: cfg.blocks[bi].id, span, opaque: opaque_exec(cfg, l) },
            None => {
                let custom = match kind {
                    HookKind::Custom => true,
                    _ => false,
                };
                HookCallInfo { label: l, kind, block_id: cfg.entry, span, opaque: custom }
            },
        };
        r.push(info);
        t = t + 1;
    }
    proof {
        assert forall|x: HookLabel| (exists|i: int| 0 <= i < r.len() && r@[i].label == x) <==> #[trigger] has_label(hooks@, x) by {
            if exists|i: int| 0 <= i < r.len() && r@[i].label == x {
                let i = choose|i: int| 0 <= i < r.len() && r@[i].label == x;
                assert(labels@[i] == x);
                assert(labels@.contains(x));
            }
            if exists|k2: int| 0 <= k2 < hooks.len() && (#[trigger] hooks@[k2]).spec_label() == x {
                assert(labels@.contains(x));
                let i = choose|i: int| 0 <= i < labels.len() && labels@[i] == x;
                assert(r@[i].label == x);
            }
        }
    }
    r
}

proof fn lemma_last_labelled_some(hooks: Seq<HookEntry>, l: HookLabel, q: int)
    requires
        0 <= q < hooks.len(),
        hooks[q].spec_label() == l,
    ensures
        last_labelled(hooks, l) is Some,
    decreases hooks.len(),
{
    if hooks.last().spec_label() != l {
        assert(q < hooks.len() - 1);
        assert(hooks.drop_last()[q] == hooks[q]);
        lemma_last_labelled_some(hooks.drop_last(), l, q);
    }
}

/// The handler entries of a hook table, in order.
pub open spec fn handler_entries(hooks: Seq<HookEntry>) -> Seq<HookEntry>
    decreases hooks.len(),
{
    if hooks.len() == 0 {
        Seq::empty()
    } else {
        let prev = handler_entries(hooks.drop_last());
        if hooks.last() is Handler {
            prev.push(hooks.last())
        } else {
            prev
        }
    }
}

/// `info` describes the handler entry `h`: its label, event and span, and
/// the variables free in its body.
pub open spec fn handler_row(h: HookEntry, info: HandlerInfo) -> bool {
    match h {
        HookEntry::Handler { label, event, body_cfg, span } => {
            &&& info.label == label
            &&& info.event@ == event@
            &&& info.span == span
            &&& forall|x: Seq<char>| #[trigger] name_set(info.free_vars@).contains(x) <==> free_in(body_cfg, x)
        },
        _ => false,
    }
}

/// The entry point of each JSX event handler, in hook order: its event and
/// the variables its body captures.
pub fn collect_handler_info(hooks: &Vec<HookEntry>) -> (r: Vec<HandlerInfo>)
    ensures
        r.len() == handler_entries(hooks@).len(),
        forall|i: int| 0 <= i < r.len() ==> handler_row(handler_entries(hooks@)[i], #[trigger] r@[i]),
{
    let mut r: Vec<HandlerInfo> = Vec::new();
    let mut k: usize = 0;
    assert(hooks@.subrange(0, 0) =~= Seq::<HookEntry>::empty());
    while k < hooks.len()
        invariant
            k <= hooks.len(),
            r.len() == handler_entries(hooks@.subrange(0, k as int)).len(),
            forall|i: int| 0 <= i < r.len() ==> handler_row(handler_entries(hooks@.subrange(0, k as int))[i], #[trigger] r@[i]),
        decreases hooks.len() - k,
    {
        let ghost pre = hooks@.subrange(0, k as int);
        let ghost pre1 = hooks@.subrange(0, k + 1);
        assert(pre1.drop_last() =~= pre);
        assert(pre1.last() == hooks@[k as int]);
        match &hooks[k] {
            HookEntry::Handler { label, event, body_cfg, span } => {
                let info = HandlerInfo { label: *label, event: event.clone(), free_vars: compute_free_vars(body_cfg), span: *span };
                r.push(info);
                proof {
                    assert forall|i: int| 0 <= i < r.len() implies handler_row(handler_entries(pre1)[i], #[trigger] r@[i]) by {
                        if i < r.len() - 1 {
                            assert(handler_entries(pre1)[i] == handler_entries(pre)[i]);
                        }
                    }
                }
            },
            _ => {},
        }
        k = k + 1;
    }
    assert(hooks@.subrange(0, hooks.len() as int) =~= hooks@);
    r
}


/// The effect, memo and callback entries of `hs`, in order.
pub open spec fn effect_entries(hs: Seq<HookEntry>) -> Seq<HookEntry>
    decreases hs.len(),
{
    if hs.len() == 0 {
        Seq::empty()
    } else {
        let prev = effect_entries(hs.drop_last());
        match hs.last() {
            HookEntry::Effect { .. } => prev.push(hs.last()),
            HookEntry::Memo { .. } => prev.push(hs.last()),
            HookEntry::Callback { .. } => prev.push(hs.last()),
            _ => prev,
        }
    }
}

/// `ps` holds, each once, the access paths `body` captures, less those
/// rooted at one of `bound`.
pub open spec fn captured_paths(ps: Seq<crate::free_vars::AccessPath>, body: CFG, bound: Seq<Var>) -> bool {
    &&& forall|p: crate::free_vars::PathView| #[trigger] crate::free_vars::path_set(ps).contains(p) <==> crate::free_vars::paths_cfg(body, p)
        && !crate::free_vars::defines(body, p.0) && !name_set(bound).contains(p.0)
    &&& forall|i: int, j: int| 0 <= i < j < ps.len() ==> ps[i]@ != ps[j]@
}

/// `e` is the deps facts of the hook entry `h`: its label, kind, captured
/// paths (a callback's own parameters bound), a copy of its deps argument,
/// and its span.
pub open spec fn effect_row(h: HookEntry, e: crate::analysis_result::EffectInfo) -> bool {
    let z = crate::remap::Offsets { labels: 0, ids: 0 };
    match h {
        HookEntry::Effect { label, body_cfg, deps, span } => e.label == label && e.kind == HookKind::Effect
            && captured_paths(e.free_paths@, body_cfg, Seq::empty()) && crate::remap::remaps_deps(deps, e.deps, z) && e.span == span,
        HookEntry::Memo { label, body_cfg, deps, span } => e.label == label && e.kind == HookKind::Memo
            && captured_paths(e.free_paths@, body_cfg, Seq::empty()) && crate::remap::remaps_deps(deps, e.deps, z) && e.span == span,
        HookEntry::Callback { label, body_cfg, params, deps, span } => e.label == label && e.kind == HookKind::Callback
            && captured_paths(e.free_paths@, body_cfg, params@) && crate::remap::remaps_deps(deps, e.deps, z) && e.span == span,
        _ => false,
    }
}

/// `p` is one of the first `k` paths of `p0`.
pub open spec fn from_prefix(p: crate::free_vars::AccessPath, p0: Seq<crate::free_vars::AccessPath>, k: int) -> bool {
    exists|q: int| 0 <= q < k && #[trigger] p0[q]@ == p@
}

/// The paths of `ps` not rooted at one of `bound`, in order.
fn drop_bound(ps: Vec<crate::free_vars::AccessPath>, bound: &Vec<Var>) -> (r: Vec<crate::free_vars::AccessPath>)
    requires
        forall|i: int, j: int| 0 <= i < j < ps.len() ==> ps@[i]@ != ps@[j]@,
    ensures
        forall|p: crate::free_vars::PathView| #[trigger] crate::free_vars::path_set(r@).contains(p) <==> crate::free_vars::path_set(ps@).contains(p)
            && !name_set(bound@).contains(p.0),
        forall|i: int, j: int| 0 <= i < j < r.len() ==> r@[i]@ != r@[j]@,
{
    let mut r: Vec<crate::free_vars::AccessPath> = Vec::new();
    let mut ps = ps;
    let ghost p0 = ps@;
    let mut k: usize = 0;
    assert(p0.len() == ps.len());
    while ps.len() > 0
        invariant
            k + ps.len() == p0.len(),
            ps@ == p0.subrange(k as int, p0.len() as int),
            forall|i: int, j: int| 0 <= i < j < p0.len() ==> p0[i]@ != p0[j]@,
            forall|p: crate::free_vars::PathView| #[trigger] crate::free_vars::path_set(r@).contains(p) <==> (exists|q: int| 0 <= q < k && #[trigger] p0[q]@ == p)
                && !name_set(bound@).contains(p.0),
            p0.len() <= usize::MAX,
            forall|i: int| 0 <= i < r.len() ==> #[trigger] from_prefix(r@[i], p0, k as int),
            forall|i: int, j: int| 0 <= i < j < r.len() ==> r@[i]@ != r@[j]@,
        decreases ps.len(),
    {
        let p = ps.remove(0);
        assert(p == p0[k as int]);
        let ghost r0 = r@;
        let mut hit = false;
        let mut b: usize = 0;
        while b < bound.len()
            invariant
                b <= bound.len(),
                hit == exists|q: int| 0 <= q < b && bound@[q]@ == p.root@,
            decreases bound.len() - b,
        {
            if crate::text::str_eq(bound[b].as_str(), p.root.as_str()) {
                hit = true;
            }
            b = b + 1;
        }
        if !hit {
            r.push(p);
            proof {
                assert forall|i: int, j: int| 0 <= i < j < r.len() implies r@[i]@ != r@[j]@ by {
                    if j == r.len() - 1 {
                        assert(r@[i] == r0[i]);
                        assert(from_prefix(r0[i], p0, k as int));
                        let q = choose|q: int| 0 <= q < k && #[trigger] p0[q]@ == r0[i]@;
                    }
                }
            }
        }
        proof {
            assert(ps@ =~= p0.subrange(k + 1, p0.len() as int));
            assert forall|pv: crate::free_vars::PathView| #[trigger] crate::free_vars::path_set(r@).contains(pv) <==> (exists|q: int| 0 <= q < k + 1 && #[trigger] p0[q]@ == pv)
                && !name_set(bound@).contains(pv.0) by {
                if crate::free_vars::path_set(r0).contains(pv) {
                    let w = choose|w: int| 0 <= w < r0.len() && #[trigger] r0[w]@ == pv;
                    assert(r@[w] == r0[w]);
                }
                if crate::free_vars::path_set(r@).contains(pv) && !crate::free_vars::path_set(r0).contains(pv) {
                    let w = choose|w: int| 0 <= w < r@.len() && #[trigger] r@[w]@ == pv;
                    if w < r0.len() {
                        assert(r@[w] == r0[w]);
                    }
                }
                if (exists|q: int| 0 <= q < k + 1 && #[trigger] p0[q]@ == pv) && !(exists|q: int| 0 <= q < k && #[trigger] p0[q]@ == pv) {
                    assert(p@ == pv);
                    if !name_set(bound@).contains(pv.0) {
                        assert(r@[r@.len() - 1] == p);
                    }
                }
                if name_set(bound@).contains(pv.0) && p@ == pv {
                    let w = choose|w: int| 0 <= w < bound@.len() && #[trigger] bound@[w]@ == pv.0;
                }
            }
            assert forall|i: int| 0 <= i < r.len() implies #[trigger] from_prefix(r@[i], p0, k + 1) by {
                if i < r0.len() {
                    assert(r@[i] == r0[i]);
                    assert(from_prefix(r0[i], p0, k as int));
                    let q = choose|q: int| 0 <= q < k && #[trigger] p0[q]@ == r0[i]@;
                } else {
                    assert(p0[k as int]@ == r@[i]@);
                }
            }
        }
        k = k + 1;
    }
    proof {
        assert forall|pv: crate::free_vars::PathView| #[trigger] crate::free_vars::path_set(r@).contains(pv) <==> crate::free_vars::path_set(p0).contains(pv)
            && !name_set(bound@).contains(pv.0) by {
            if crate::free_vars::path_set(p0).contains(pv) {
                let q = choose|q: int| 0 <= q < p0.len() && #[trigger] p0[q]@ == pv;
            }
        }
    }
    r
}

/// Every deps element fits a zero shift.
proof fn lemma_fits_deps_zero(d: crate::hooks::DepsArg)
    ensures
        crate::remap::fits_deps(d, crate::remap::Offsets { labels: 0, ids: 0 }),
{
    if let crate::hooks::DepsArg::List(l) = d {
        assert forall|i: int| 0 <= i < l.elems.len() implies crate::remap::fits_expr(
            #[trigger] l.elems@[i],
            crate::remap::Offsets { labels: 0, ids: 0 },
        ) by {
            crate::remap::lemma_fits_expr_zero(l.elems@[i]);
        }
    }
}

/// The deps facts of each effect, memo and callback entry, in hook order:
/// its label and kind, the paths its body captures (a callback's own
/// parameters are bound, not captured), its deps argument and its span.
pub fn collect_effect_info(hooks: &Vec<HookEntry>) -> (r: Vec<crate::analysis_result::EffectInfo>)
    ensures
        r.len() == effect_entries(hooks@).len(),
        forall|i: int| 0 <= i < r.len() ==> effect_row(effect_entries(hooks@)[i], #[trigger] r@[i]),
{
    let z = crate::remap::Offsets { labels: 0, ids: 0 };
    let mut r: Vec<crate::analysis_result::EffectInfo> = Vec::new();
    let mut k: usize = 0;
    assert(hooks@.subrange(0, 0) =~= Seq::<HookEntry>::empty());
    while k < hooks.len()
        invariant
            k <= hooks.len(),
            z == (crate::remap::Offsets { labels: 0, ids: 0 }),
            r.len() == effect_entries(hooks@.subrange(0, k as int)).len(),
            forall|i: int| 0 <= i < r.len() ==> effect_row(effect_entries(hooks@.subrange(0, k as int))[i], #[trigger] r@[i]),
        decreases hooks.len() - k,
    {
        let ghost pre = hooks@.subrange(0, k as int);
        let ghost pre1 = hooks@.subrange(0, k + 1);
        assert(pre1.drop_last() =~= pre);
        assert(pre1.last() == hooks@[k as int]);
        let info = match &hooks[k] {
            HookEntry::Effect { label, body_cfg, deps, span } => {
                proof {
                    lemma_fits_deps_zero(*deps);
                }
                let none: Vec<Var> = Vec::new();
                let fp = drop_bound(crate::free_vars::compute_free_paths(body_cfg), &none);
                Some(
                    crate::analysis_result::EffectInfo {
                        label: *label,
                        kind: HookKind::Effect,
                        free_paths: fp,
                        deps: crate::remap::shifted_deps(deps, z),
                        span: *span,
                    },
                )
            },
            HookEntry::Memo { label, body_cfg, deps, span } => {
                proof {
                    lemma_fits_deps_zero(*deps);
                }
                let none: Vec<Var> = Vec::new();
                let fp = drop_bound(crate::free_vars::compute_free_paths(body_cfg), &none);
                Some(
                    crate::analysis_result::EffectInfo {
                        label: *label,
                        kind: HookKind::Memo,
                        free_paths: fp,
                        deps: crate::remap::shifted_deps(deps, z),
                        span: *span,
                    },
                )
            },
            HookEntry::Callback { label, body_cfg, params, deps, span } => {
                proof {
                    lemma_fits_deps_zero(*deps);
                }
                let fp = drop_bound(crate::free_vars::compute_free_paths(body_cfg), params);
                Some(
                    crate::analysis_result::EffectInfo {
                        label: *label,
                        kind: HookKind::Callback,
                        free_paths: fp,
                        deps: crate::remap::shifted_deps(deps, z),
                        span: *span,
                    },
                )
            },
            _ => None,
        };
        match info {
            Some(e) => {
                proof {
                    assert(effect_row(hooks@[k as int], e));
                }
                r.push(e);
                proof {
                    assert forall|i: int| 0 <= i < r.len() implies effect_row(effect_entries(pre1)[i], #[trigger] r@[i]) by {
                        if i < r.len() - 1 {
                            assert(effect_entries(pre1)[i] == effect_entries(pre)[i]);
                        }
                    }
                }
            },
            None => {},
        }
        k = k + 1;
    }
    assert(hooks@.subrange(0, hooks.len() as int) =~= hooks@);
    r
}
} // verus!
