//! How fresh the value a write stores is: whether argument 0 of a setter
//! call is a new reference on every call, the must-change leg of a churn
//! edge.
use vstd::prelude::*;

use crate::cfg::{BasicBlock, Terminator, CFG};
use crate::expr::Expr;
use crate::setters::Updater;
use crate::types::Var;

verus! {

/// Does a write store a new reference every time it runs? Ordered
/// `Not < Maybe < Fresh`.
#[derive(Debug, Clone, Copy, PartialEq, Eq, Structural, PartialOrd, Ord)]
pub enum Freshness {
    Not,
    /// May store a fresh reference (opaque value, imprecise updater).
    Maybe,
    /// Must store a fresh reference every call.
    Fresh,
}

/// The position of a freshness in `Not < Maybe < Fresh`.
pub open spec fn rank(f: Freshness) -> nat {
    match f {
        Freshness::Not => 0,
        Freshness::Maybe => 1,
        Freshness::Fresh => 2,
    }
}

/// The greater of two freshnesses.
pub open spec fn fresh_max(a: Freshness, b: Freshness) -> Freshness {
    if rank(a) >= rank(b) {
        a
    } else {
        b
    }
}

/// The lesser of two freshnesses.
pub open spec fn fresh_min(a: Freshness, b: Freshness) -> Freshness {
    if rank(a) <= rank(b) {
        a
    } else {
        b
    }
}

/// Freshness of one return expression of a functional updater whose
/// parameters are `params`, read without an environment: literals of
/// objects, arrays and functions are fresh; the identity updater (returning
/// its first parameter) and literal resets are not; an operator returns a
/// primitive, or one of its operands for the logical ones, so it is at most
/// `Maybe`; anything else may be fresh.
pub open spec fn return_fresh(e: Expr, params: Seq<Var>) -> Freshness
    decreases e,
{
    match e {
        Expr::TSAnnotated(inner) => return_fresh(*inner, params),
        Expr::ObjectLit { .. } => Freshness::Fresh,
        Expr::ArrayLit { .. } => Freshness::Fresh,
        Expr::FnLit { .. } => Freshness::Fresh,
        Expr::Var(v) => if params.len() > 0 && params[0]@ == v@ {
            Freshness::Not
        } else {
            Freshness::Maybe
        },
        Expr::Lit(_) => Freshness::Not,
        Expr::BinOp { lhs, rhs, .. } => fresh_min(
            fresh_max(return_fresh(*lhs, params), return_fresh(*rhs, params)),
            Freshness::Maybe,
        ),
        Expr::UnaryOp { .. } => Freshness::Not,
        _ => Freshness::Maybe,
    }
}

/// The freshness of a returned expression by its shape, for every shape: a
/// new object, array or function (a literal) is a new reference on every
/// call; an annotation is transparent; the updater's own first parameter
/// and a primitive literal or unary result are not fresh; any other
/// variable may be; an operator yields a primitive or one of its operands,
/// so it is never surely fresh and is surely not fresh exactly when neither
/// operand may be; anything else (a call, a member read, a state read, an
/// element) may be fresh.
pub proof fn lemma_return_freshness_by_shape(e: Expr, params: Seq<Var>)
    ensures
        (e is ObjectLit || e is ArrayLit || e is FnLit) ==> return_fresh(e, params) == Freshness::Fresh,
        e matches Expr::TSAnnotated(inner) ==> return_fresh(e, params) == return_fresh(*inner, params),
        e matches Expr::Var(v) ==> return_fresh(e, params) == (if params.len() > 0 && params[0]@ == v@ {
            Freshness::Not
        } else {
            Freshness::Maybe
        }),
        (e is Lit || e is UnaryOp) ==> return_fresh(e, params) == Freshness::Not,
        e matches Expr::BinOp { lhs, rhs, .. } ==> return_fresh(e, params) != Freshness::Fresh && (return_fresh(e, params)
            == Freshness::Not <==> (return_fresh(*lhs, params) == Freshness::Not && return_fresh(*rhs, params) == Freshness::Not)),
        (e is Call || e is FieldAccess || e is IndexAccess || e is CompApp || e is NativeElem || e is StateVal
            || e is StateSetter || e is MemoVal || e is CallbackVal || e is HookMarker || e is SummaryVal) ==> return_fresh(e, params)
            == Freshness::Maybe,
{
}

/// Annotations never change a return's freshness.
pub proof fn lemma_return_fresh_peeled(e: Expr, params: Seq<Var>)
    ensures
        return_fresh(e, params) == return_fresh(crate::expr::peeled(e), params),
    decreases e,
{
    if let Expr::TSAnnotated(inner) = e {
        lemma_return_fresh_peeled(*inner, params);
    }
}

/// An updater that returns, on every path that returns (and one does), a
/// new object, array or function literal (annotations aside) stores a new
/// reference every time; one that only returns its own first parameter
/// stores none.
pub proof fn lemma_literal_updater_is_fresh(blocks: Seq<BasicBlock>, params: Seq<Var>)
    ensures
        ((exists|i: int| 0 <= i < blocks.len() && #[trigger] returns_at(blocks, i)) && forall|i: int|
            0 <= i < blocks.len() && #[trigger] returns_at(blocks, i) ==> {
                let r = crate::expr::peeled(blocks[i].term->Return_0);
                r is ObjectLit || r is ArrayLit || r is FnLit
            }) ==> returns_fresh(blocks, params) == Freshness::Fresh,
        ((exists|i: int| 0 <= i < blocks.len() && #[trigger] returns_at(blocks, i)) && params.len() > 0 && forall|i: int|
            0 <= i < blocks.len() && #[trigger] returns_at(blocks, i) ==> blocks[i].term->Return_0 == Expr::Var(params[0]))
            ==> returns_fresh(blocks, params) == Freshness::Not,
{
    assert forall|i: int| 0 <= i < blocks.len() && #[trigger] returns_at(blocks, i) implies return_fresh(
        blocks[i].term->Return_0,
        params,
    ) == return_fresh(crate::expr::peeled(blocks[i].term->Return_0), params) by {
        lemma_return_fresh_peeled(blocks[i].term->Return_0, params);
    }
}

/// An updater with no return, or with one return that is a new literal
/// and another that is its own first parameter, may or may not store a new
/// reference.
pub proof fn lemma_mixed_updater_is_maybe(blocks: Seq<BasicBlock>, params: Seq<Var>, a: int, b: int)
    ensures
        !(exists|i: int| 0 <= i < blocks.len() && #[trigger] returns_at(blocks, i)) ==> returns_fresh(blocks, params)
            == Freshness::Maybe,
        (0 <= a < blocks.len() && 0 <= b < blocks.len() && params.len() > 0 && returns_at(blocks, a) && returns_at(blocks, b)
            && (blocks[a].term->Return_0 is ArrayLit || blocks[a].term->Return_0 is ObjectLit) && blocks[b].term->Return_0
            == Expr::Var(params[0])) ==> returns_fresh(blocks, params) == Freshness::Maybe,
{
}

/// Block `i` of `blocks` returns `e`.
pub open spec fn returns_at(blocks: Seq<BasicBlock>, i: int) -> bool {
    blocks[i].term is Return
}

/// Freshness of what a functional updater returns: `Fresh` when every
/// return is, `Not` when none is, `Maybe` otherwise or when nothing returns.
pub open spec fn returns_fresh(blocks: Seq<BasicBlock>, params: Seq<Var>) -> Freshness {
    if !exists|i: int| 0 <= i < blocks.len() && #[trigger] returns_at(blocks, i) {
        Freshness::Maybe
    } else if forall|i: int|
        0 <= i < blocks.len() && #[trigger] returns_at(blocks, i) ==> return_fresh(blocks[i].term->Return_0, params)
            == Freshness::Fresh {
        Freshness::Fresh
    } else if forall|i: int|
        0 <= i < blocks.len() && #[trigger] returns_at(blocks, i) ==> return_fresh(blocks[i].term->Return_0, params)
            == Freshness::Not {
        Freshness::Not
    } else {
        Freshness::Maybe
    }
}

/// `rank(a) >= rank(b)`.
fn fresh_at_least(a: Freshness, b: Freshness) -> (r: bool)
    ensures
        r == (rank(a) >= rank(b)),
{
    match (a, b) {
        (_, Freshness::Not) => true,
        (Freshness::Not, _) => false,
        (_, Freshness::Maybe) => true,
        (Freshness::Maybe, _) => false,
        _ => true,
    }
}

/// Freshness of one return expression of a functional updater (see
/// `return_fresh`).
pub fn classify_updater_return(e: &Expr, params: &[Var]) -> (r: Freshness)
    ensures
        r == return_fresh(*e, params@),
    decreases e,
{
    match e {
        Expr::TSAnnotated(inner) => classify_updater_return(&**inner, params),
        Expr::ObjectLit { .. } => Freshness::Fresh,
        Expr::ArrayLit { .. } => Freshness::Fresh,
        Expr::FnLit { .. } => Freshness::Fresh,
        Expr::Var(v) => {
            if params.len() > 0 && crate::text::str_eq(params[0].as_str(), v.as_str()) {
                Freshness::Not
            } else {
                Freshness::Maybe
            }
        },
        Expr::Lit(_) => Freshness::Not,
        Expr::BinOp { lhs, rhs, .. } => {
            let l = classify_updater_return(&**lhs, params);
            let r = classify_updater_return(&**rhs, params);
            let hi = if fresh_at_least(l, r) {
                l
            } else {
                r
            };
            if fresh_at_least(Freshness::Maybe, hi) {
                hi
            } else {
                Freshness::Maybe
            }
        },
        Expr::UnaryOp { .. } => Freshness::Not,
        _ => Freshness::Maybe,
    }
}

/// Freshness of what a functional updater with body `body` and parameters
/// `params` returns (see `returns_fresh`).
pub fn returns_freshness(body: &CFG, params: &[Var]) -> (r: Freshness)
    ensures
        r == returns_fresh(body.blocks@, params@),
{
    let mut any = false;
    let mut all_fresh = true;
    let mut all_not = true;
    let mut i: usize = 0;
    while i < body.blocks.len()
        invariant
            i <= body.blocks.len(),
            any == exists|q: int| 0 <= q < i && #[trigger] returns_at(body.blocks@, q),
            all_fresh == forall|q: int|
                0 <= q < i && #[trigger] returns_at(body.blocks@, q) ==> return_fresh(body.blocks@[q].term->Return_0, params@)
                    == Freshness::Fresh,
            all_not == forall|q: int|
                0 <= q < i && #[trigger] returns_at(body.blocks@, q) ==> return_fresh(body.blocks@[q].term->Return_0, params@)
                    == Freshness::Not,
        decreases body.blocks.len() - i,
    {
        if let Terminator::Return(e) = &body.blocks[i].term {
            let f = classify_updater_return(e, params);
            any = true;
            if f != Freshness::Fresh {
                all_fresh = false;
            }
            if f != Freshness::Not {
                all_not = false;
            }
            assert(returns_at(body.blocks@, i as int));
        }
        i = i + 1;
    }
    if !any {
        Freshness::Maybe
    } else if all_fresh {
        Freshness::Fresh
    } else if all_not {
        Freshness::Not
    } else {
        Freshness::Maybe
    }
}

/// The freshness of what a write stores when it does not hang on the value
/// of its argument: `Not` for a bare `setX()`, what the returns give for a
/// function literal or a functional updater the walk proved (argument 0 is
/// read with its type annotations peeled); `None` when the freshness is
/// that of the evaluated argument.
pub fn written_freshness(arg: Option<&Expr>, updater: &Updater) -> (r: Option<Freshness>)
    ensures
        r == match arg {
            None => Some(Freshness::Not),
            Some(a) => match crate::expr::peeled(*a) {
                Expr::FnLit { params, body_cfg, .. } => Some(returns_fresh(body_cfg.blocks@, params@)),
                _ => match *updater {
                    Updater::Functional(body) => Some(returns_fresh(body.blocks@, Seq::empty())),
                    Updater::Unknown => None,
                },
            },
        },
{
    match arg {
        None => Some(Freshness::Not),
        Some(a) => match a.peel_ts() {
            Expr::FnLit { params, body_cfg, .. } => Some(returns_freshness(&**body_cfg, params.as_slice())),
            _ => match updater {
                Updater::Functional(body) => {
                    let none: Vec<Var> = Vec::new();
                    Some(returns_freshness(&**body, none.as_slice()))
                },
                Updater::Unknown => None,
            },
        },
    }
}

} // verus!
