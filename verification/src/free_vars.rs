//! Read accesses at the granularity the deps rules match at: a variable,
//! refined by the chain of field names read through it.
use vstd::prelude::*;
use vstd::string::StringExecFns;

use crate::cfg::{BasicBlock, Terminator, CFG};
use crate::expr::{children_of, Expr};
use crate::splice::{names, source_name, source_name_spec};
use crate::stmt::{MemberKey, Stmt};
use crate::symbol_graph::{name_set, push_name};
use crate::text::str_eq;
use crate::types::Var;

verus! {

broadcast use vstd::string::group_string_axioms;

/// A read access rooted at a variable, refined by a chain of field names:
/// `x` is `{root: x, segments: []}`, `x.a.b` is `{root: x, segments: [a, b]}`.
/// A dep covers a use only when it is a prefix of it, so `[x.b]` does not
/// cover `x.a` while `[x]` does. A dynamic member access (`x[i]`) collapses
/// to the bare root on the use side, and declares nothing on the dep side.
#[derive(Clone, PartialEq, Eq, Hash, Debug)]
pub struct AccessPath {
    pub root: Var,
    pub segments: Vec<String>,
}

impl AccessPath {
    /// The path as plain values: the root's name and the segment names.
    pub open spec fn view(&self) -> (Seq<char>, Seq<Seq<char>>) {
        (self.root@, names(self.segments@))
    }

    /// The path as a user reads it: the source-level name of the root (a
    /// spliced capture may carry the internal `#salt` mark), then `.seg`
    /// for each segment.
    pub fn display(&self) -> (r: String)
        ensures
            r@ == shown_path(source_name_spec(self.root@), names(self.segments@)),
    {
        let mut r = String::from_str(source_name(self.root.as_str()));
        let mut i: usize = 0;
        assert(names(self.segments@.subrange(0, 0)) =~= Seq::<Seq<char>>::empty());
        while i < self.segments.len()
            invariant
                i <= self.segments.len(),
                r@ == shown_path(source_name_spec(self.root@), names(self.segments@.subrange(0, i as int))),
            decreases self.segments.len() - i,
        {
            proof { reveal_strlit("."); }
            let ghost before = r@;
            r.append(".");
            r.append(self.segments[i].as_str());
            assert(r@ == before + seq!['.'] + self.segments@[i as int]@);
            let ghost s1 = names(self.segments@.subrange(0, i + 1));
            let ghost s0 = names(self.segments@.subrange(0, i as int));
            assert(s1 =~= s0.push(self.segments@[i as int]@));
            assert(s1.drop_last() =~= s0);
            assert(s1.last() == self.segments@[i as int]@);
            i = i + 1;
        }
        assert(self.segments@.subrange(0, self.segments@.len() as int) =~= self.segments@);
        r
    }
}

/// `root` followed by `.seg` for each segment.
pub open spec fn shown_path(root: Seq<char>, segs: Seq<Seq<char>>) -> Seq<char>
    decreases segs.len(),
{
    if segs.len() == 0 {
        root
    } else {
        shown_path(root, segs.drop_last()) + seq!['.'] + segs.last()
    }
}

/// A declared path `d` covers a used path `u`: same root, and `d`'s segments
/// are a prefix of `u`'s.
pub open spec fn covers(d: (Seq<char>, Seq<Seq<char>>), u: (Seq<char>, Seq<Seq<char>>)) -> bool {
    &&& d.0 == u.0
    &&& d.1.len() <= u.1.len()
    &&& u.1.subrange(0, d.1.len() as int) == d.1
}

/// A used path is covered when some declared path is a prefix of it: `[x]`
/// covers `x.a`, `[x.a]` covers `x.a` and `x.a.b`, `[x.b]` covers neither
/// `x.a` nor the whole `x`.
pub fn path_covered(used: &AccessPath, declared: &[AccessPath]) -> (r: bool)
    ensures
        r <==> exists|k: int| 0 <= k < declared@.len() && covers(#[trigger] declared@[k]@, used@),
{
    let mut k: usize = 0;
    while k < declared.len()
        invariant
            k <= declared@.len(),
            forall|q: int| 0 <= q < k ==> !covers(#[trigger] declared@[q]@, used@),
        decreases declared@.len() - k,
    {
        let d = &declared[k];
        if str_eq(d.root.as_str(), used.root.as_str()) && d.segments.len() <= used.segments.len() {
            let mut j: usize = 0;
            let mut same = true;
            while j < d.segments.len()
                invariant
                    j <= d.segments.len(),
                    d.segments.len() <= used.segments.len(),
                    same <==> forall|t: int| 0 <= t < j ==> d.segments@[t]@ == used.segments@[t]@,
                decreases d.segments.len() - j,
            {
                if !str_eq(d.segments[j].as_str(), used.segments[j].as_str()) {
                    same = false;
                }
                j = j + 1;
            }
            if same {
                assert(names(used.segments@).subrange(0, d.segments@.len() as int) =~= names(d.segments@));
                assert(covers(declared@[k as int]@, used@));
                return true;
            }
            assert(!covers(declared@[k as int]@, used@)) by {
                if covers(declared@[k as int]@, used@) {
                    let t = choose|t: int| 0 <= t < d.segments.len() && d.segments@[t]@ != used.segments@[t]@;
                    assert(names(used.segments@).subrange(0, d.segments@.len() as int)[t] == names(d.segments@)[t]);
                }
            }
        }
        k = k + 1;
    }
    false
}

/// The maximal member chain rooted at a variable: `(root, segments, opaque)`,
/// `opaque` when a dynamic index sits in the chain (the segments are then
/// dropped, the access collapsing to the bare root). `None` when the chain
/// does not end at a variable.
pub open spec fn chain_of(e: Expr) -> Option<(Seq<char>, Seq<Seq<char>>, bool)>
    decreases e,
{
    match e {
        Expr::Var(v) => Some((v@, Seq::empty(), false)),
        Expr::TSAnnotated(inner) => chain_of(*inner),
        Expr::FieldAccess { obj, field } => match chain_of(*obj) {
            Some((root, segs, opaque)) => Some(
                (root, if opaque {
                    segs
                } else {
                    segs.push(field@)
                }, opaque),
            ),
            None => None,
        },
        Expr::IndexAccess { arr, .. } => match chain_of(*arr) {
            Some((root, _, _)) => Some((root, Seq::empty(), true)),
            None => None,
        },
        _ => None,
    }
}

/// The off-chain sub-expressions met while reading a member chain, in the
/// order they are met: index expressions, and a base that is not a variable.
pub open spec fn side_of(e: Expr) -> Seq<Expr>
    decreases e,
{
    match e {
        Expr::Var(_) => Seq::empty(),
        Expr::TSAnnotated(inner) => side_of(*inner),
        Expr::FieldAccess { obj, .. } => side_of(*obj),
        Expr::IndexAccess { arr, idx } => seq![*idx] + side_of(*arr),
        _ => seq![e],
    }
}

/// The expressions a list of references points at.
pub open spec fn derefs(s: Seq<&Expr>) -> Seq<Expr> {
    s.map_values(|x: &Expr| *x)
}

/// Extract the maximal member chain rooted at a variable, pushing the
/// off-chain sub-expressions into `side` for the caller to recurse into.
pub fn extract_path<'e>(e: &'e Expr, side: &mut Vec<&'e Expr>) -> (r: Option<(Var, Vec<String>, bool)>)
    ensures
        derefs(final(side)@) == derefs(old(side)@) + side_of(*e),
        match r {
            Some((root, segs, opaque)) => chain_of(*e) == Some((root@, names(segs@), opaque)),
            None => chain_of(*e) is None,
        },
    decreases e,
{
    match e {
        Expr::Var(v) => {
            let segs: Vec<String> = Vec::new();
            assert(names(segs@) =~= Seq::<Seq<char>>::empty());
            assert(derefs(side@) =~= derefs(old(side)@) + side_of(*e));
            Some((v.clone(), segs, false))
        },
        Expr::TSAnnotated(inner) => extract_path(&**inner, side),
        Expr::FieldAccess { obj, field } => match extract_path(&**obj, side) {
            Some((root, segs, opaque)) => {
                let mut segs = segs;
                if !opaque {
                    let ghost before = segs@;
                    segs.push(field.clone());
                    assert(names(segs@) =~= names(before).push(field@));
                }
                Some((root, segs, opaque))
            },
            None => None,
        },
        Expr::IndexAccess { arr, idx } => {
            side.push(&**idx);
            assert(derefs(side@) =~= derefs(old(side)@).push(**idx));
            let r = extract_path(&**arr, side);
            assert(derefs(side@) =~= derefs(old(side)@) + side_of(*e));
            match r {
                Some((root, _, _)) => {
                    let segs: Vec<String> = Vec::new();
                    assert(names(segs@) =~= Seq::<Seq<char>>::empty());
                    Some((root, segs, true))
                },
                None => None,
            }
        },
        _ => {
            side.push(e);
            assert(derefs(side@) =~= derefs(old(side)@) + side_of(*e));
            None
        },
    }
}

/// The paths `deps` declares, in order: the member chain of each entry that
/// is one, without a dynamic index (such a dep pins no element, so it
/// declares nothing coverable); literals and calls declare nothing.
pub open spec fn declared_paths(deps: Seq<Expr>) -> Seq<(Seq<char>, Seq<Seq<char>>)>
    decreases deps.len(),
{
    if deps.len() == 0 {
        Seq::empty()
    } else {
        let prev = declared_paths(deps.drop_last());
        match chain_of(deps.last()) {
            Some((root, segs, false)) => prev.push((root, segs)),
            _ => prev,
        }
    }
}

/// The access paths declared by a list of deps entries held by reference
/// (see [`declared_paths`]).
pub fn dep_paths_of(deps: &Vec<&Expr>) -> (r: Vec<AccessPath>)
    ensures
        r@.map_values(|p: AccessPath| p@) == declared_paths(derefs(deps@)),
{
    let ghost ds = derefs(deps@);
    let mut r: Vec<AccessPath> = Vec::new();
    let mut i: usize = 0;
    while i < deps.len()
        invariant
            i <= deps@.len(),
            ds == derefs(deps@),
            r@.map_values(|p: AccessPath| p@) == declared_paths(ds.subrange(0, i as int)),
        decreases deps@.len() - i,
    {
        let mut side: Vec<&Expr> = Vec::new();
        let ghost before = r@;
        assert(ds.subrange(0, i + 1).drop_last() =~= ds.subrange(0, i as int));
        assert(ds.subrange(0, i + 1).last() == *deps@[i as int]);
        match extract_path(deps[i], &mut side) {
            Some((root, segments, opaque)) => {
                if !opaque {
                    r.push(AccessPath { root, segments });
                    assert(r@.map_values(|p: AccessPath| p@) =~= before.map_values(|p: AccessPath| p@).push(r@.last()@));
                }
            },
            None => {},
        }
        i = i + 1;
    }
    assert(ds.subrange(0, deps@.len() as int) =~= ds);
    r
}

/// The access paths declared by a deps array (see [`declared_paths`]).
pub fn dep_paths(deps: &[Expr]) -> (r: Vec<AccessPath>)
    ensures
        r@.map_values(|p: AccessPath| p@) == declared_paths(deps@),
{
    let mut r: Vec<AccessPath> = Vec::new();
    let mut i: usize = 0;
    while i < deps.len()
        invariant
            i <= deps@.len(),
            r@.map_values(|p: AccessPath| p@) == declared_paths(deps@.subrange(0, i as int)),
        decreases deps@.len() - i,
    {
        let mut side: Vec<&Expr> = Vec::new();
        let ghost before = r@;
        assert(deps@.subrange(0, i + 1).drop_last() =~= deps@.subrange(0, i as int));
        match extract_path(&deps[i], &mut side) {
            Some((root, segments, opaque)) => {
                if !opaque {
                    r.push(AccessPath { root, segments });
                    assert(r@.map_values(|p: AccessPath| p@) =~= before.map_values(|p: AccessPath| p@).push(r@.last()@));
                }
            },
            None => {},
        }
        i = i + 1;
    }
    assert(deps@.subrange(0, deps@.len() as int) =~= deps@);
    r
}

// ── Free variables ──────────────────────────────────────────────────────────

/// A statement binds `v` (a `let` or an assignment to it).
pub open spec fn stmt_defines(s: Stmt, v: Seq<char>) -> bool {
    match s {
        Stmt::Let { var, .. } => var@ == v,
        Stmt::Assign { var, .. } => var@ == v,
        _ => false,
    }
}

/// Some statement of `c` binds `v`.
pub open spec fn defines(c: CFG, v: Seq<char>) -> bool {
    exists|i: int, j: int|
        0 <= i < c.blocks.len() && 0 <= j < c.blocks@[i].stmts.len() && stmt_defines(#[trigger] c.blocks@[i].stmts@[j], v)
}

/// `e` reads the variable `v`: a use of it anywhere in `e`, or a use free in
/// the body of a function literal of `e` whose parameters do not shadow it.
pub open spec fn reads_expr(e: Expr, v: Seq<char>) -> bool
    decreases e,
{
    match e {
        Expr::Var(x) => x@ == v,
        Expr::FnLit { params, body_cfg, .. } => reads_cfg(*body_cfg, v) && !defines(*body_cfg, v) && !names(params@).contains(v),
        Expr::ObjectLit { fields, .. } => exists|i: int| 0 <= i < fields.len() && reads_expr(#[trigger] fields@[i].1, v),
        Expr::ArrayLit { elems, .. } => exists|i: int| 0 <= i < elems.len() && reads_expr(#[trigger] elems@[i], v),
        Expr::FieldAccess { obj, .. } => reads_expr(*obj, v),
        Expr::IndexAccess { arr, idx } => reads_expr(*arr, v) || reads_expr(*idx, v),
        Expr::BinOp { lhs, rhs, .. } => reads_expr(*lhs, v) || reads_expr(*rhs, v),
        Expr::UnaryOp { arg, .. } => reads_expr(*arg, v),
        Expr::Call { fn_, args } => reads_expr(*fn_, v) || exists|i: int| 0 <= i < args.len() && reads_expr(#[trigger] args@[i], v),
        Expr::CompApp { props, .. } => reads_expr(*props, v),
        Expr::NativeElem { props, children, .. } => reads_expr(*props, v) || exists|i: int|
            0 <= i < children.len() && reads_expr(#[trigger] children@[i], v),
        Expr::TSAnnotated(inner) => reads_expr(*inner, v),
        _ => false,
    }
}

/// An expression reads `v` exactly when it is the variable `v`, when one
/// of the expressions directly inside it reads `v`, or when it is a
/// function literal whose body reads `v` free (bound neither by its own
/// statements nor by its parameters).
pub proof fn lemma_reads_structure(e: Expr, v: Seq<char>)
    ensures
        reads_expr(e, v) <==> {
            ||| (e matches Expr::Var(x) && x@ == v)
            ||| (e matches Expr::FnLit { params, body_cfg, .. } && reads_cfg(*body_cfg, v) && !defines(*body_cfg, v)
                && !names(params@).contains(v))
            ||| exists|k: int| 0 <= k < children_of(e).len() && reads_expr(#[trigger] children_of(e)[k], v)
        },
{
    let c = children_of(e);
    match e {
        Expr::Call { fn_, args } => {
            assert(c[0] == *fn_);
            assert forall|i: int| 0 <= i < args.len() implies c[i + 1] == args@[i] by {}
            assert forall|k: int| 0 <= k < c.len() implies (k == 0 && c[k] == *fn_) || (k >= 1 && c[k] == args@[k - 1]) by {}
        },
        Expr::NativeElem { props, children, .. } => {
            assert(c[0] == *props);
            assert forall|i: int| 0 <= i < children.len() implies c[i + 1] == children@[i] by {}
            assert forall|k: int| 0 <= k < c.len() implies (k == 0 && c[k] == *props) || (k >= 1 && c[k] == children@[k - 1]) by {}
        },
        Expr::CompApp { props, .. } => {
            assert(c[0] == *props);
            assert forall|k: int| 0 <= k < c.len() implies c[k] == *props by {}
        },
        Expr::ObjectLit { fields, .. } => {
            assert(c.len() == fields.len());
            assert forall|k: int| 0 <= k < c.len() implies #[trigger] c[k] == fields@[k].1 by {}
            assert forall|i: int| 0 <= i < fields.len() implies #[trigger] fields@[i].1 == c[i] by {}
        },
        Expr::FieldAccess { obj, .. } => {
            assert(c[0] == *obj);
            assert forall|k: int| 0 <= k < c.len() implies c[k] == *obj by {}
        },
        Expr::IndexAccess { arr, idx } => {
            assert(c[0] == *arr && c[1] == *idx);
            assert forall|k: int| 0 <= k < c.len() implies (k == 0 && c[k] == *arr) || (k == 1 && c[k] == *idx) by {}
        },
        Expr::BinOp { lhs, rhs, .. } => {
            assert(c[0] == *lhs && c[1] == *rhs);
            assert forall|k: int| 0 <= k < c.len() implies (k == 0 && c[k] == *lhs) || (k == 1 && c[k] == *rhs) by {}
        },
        Expr::UnaryOp { arg, .. } => {
            assert(c[0] == *arg);
            assert forall|k: int| 0 <= k < c.len() implies c[k] == *arg by {}
        },
        Expr::TSAnnotated(inner) => {
            assert(c[0] == *inner);
            assert forall|k: int| 0 <= k < c.len() implies c[k] == *inner by {}
        },
        _ => {},
    }
}

/// A statement reads `v` in one of its expressions.
pub open spec fn reads_stmt(s: Stmt, v: Seq<char>) -> bool
    decreases s,
{
    match s {
        Stmt::Let { rhs, .. } => reads_expr(rhs, v),
        Stmt::Assign { rhs, .. } => reads_expr(rhs, v),
        Stmt::MemberWrite { obj, key, rhs, .. } => reads_expr(obj, v) || reads_expr(rhs, v) || (match key {
            MemberKey::Index(i) => reads_expr(i, v),
            _ => false,
        }),
        Stmt::ExprStmt(e, _) => reads_expr(e, v),
    }
}

/// A terminator reads `v` in its expression.
pub open spec fn reads_term(t: Terminator, v: Seq<char>) -> bool
    decreases t,
{
    match t {
        Terminator::Return(e) => reads_expr(e, v),
        Terminator::Branch { cond, .. } => reads_expr(cond, v),
        _ => false,
    }
}

/// A block reads `v` in a statement or its terminator.
pub open spec fn reads_block(b: BasicBlock, v: Seq<char>) -> bool
    decreases b,
{
    ||| exists|j: int| 0 <= j < b.stmts.len() && reads_stmt(#[trigger] b.stmts@[j], v)
    ||| reads_term(b.term, v)
}

/// Some block of `c` reads `v`.
pub open spec fn reads_cfg(c: CFG, v: Seq<char>) -> bool
    decreases c,
{
    exists|i: int| 0 <= i < c.blocks.len() && reads_block(#[trigger] c.blocks@[i], v)
}

/// `v` is free in `c`: read there and bound by no statement of it.
pub open spec fn free_in(c: CFG, v: Seq<char>) -> bool {
    reads_cfg(c, v) && !defines(c, v)
}

/// `true` iff `names` holds `n`.
fn holds_name(ns: &Vec<Var>, n: &Var) -> (r: bool)
    ensures
        r == name_set(ns@).contains(n@),
{
    let mut i: usize = 0;
    while i < ns.len()
        invariant
            i <= ns.len(),
            forall|q: int| 0 <= q < i ==> ns@[q]@ != n@,
        decreases ns.len() - i,
    {
        if str_eq(ns[i].as_str(), n.as_str()) {
            return true;
        }
        i = i + 1;
    }
    false
}

/// Add to `out` every variable `expr` reads (see [`reads_expr`]).
#[verifier::loop_isolation(false)]
pub fn collect_used_vars(expr: &Expr, out: &mut Vec<Var>)
    ensures
        forall|x: Seq<char>| #[trigger] name_set(final(out)@).contains(x) <==> name_set(old(out)@).contains(x) || reads_expr(*expr, x),
    decreases expr,
{
    let ghost o0 = out@;
    match expr {
        Expr::Var(v) => push_name(out, v),
        Expr::FnLit { params, body_cfg, .. } => {
            proof {
                assert(decreases_to!(*expr => **body_cfg));
            }
            let inner = compute_free_vars(&**body_cfg);
            let mut i: usize = 0;
            while i < inner.len()
                invariant
                    i <= inner.len(),
                    forall|x: Seq<char>| #[trigger] name_set(out@).contains(x) <==> name_set(o0).contains(x) || (exists|q: int|
                        0 <= q < i && inner@[q]@ == x) && !names(params@).contains(x),
                decreases inner.len() - i,
            {
                let ghost before = out@;
                if !holds_name(params, &inner[i]) {
                    push_name(out, &inner[i]);
                }
                proof {
                    assert(name_set(params@).contains(inner@[i as int]@) == names(params@).contains(inner@[i as int]@)) by {
                        if name_set(params@).contains(inner@[i as int]@) {
                            let q = choose|q: int| 0 <= q < params@.len() && #[trigger] params@[q]@ == inner@[i as int]@;
                            assert(names(params@)[q] == inner@[i as int]@);
                        }
                        if names(params@).contains(inner@[i as int]@) {
                            let q = choose|q: int| 0 <= q < names(params@).len() && names(params@)[q] == inner@[i as int]@;
                            assert(params@[q]@ == inner@[i as int]@);
                        }
                    }
                    assert forall|x: Seq<char>| #[trigger] name_set(out@).contains(x) <==> name_set(o0).contains(x) || (exists|q: int|
                        0 <= q < i + 1 && inner@[q]@ == x) && !names(params@).contains(x) by {
                        if exists|q: int| 0 <= q < i + 1 && inner@[q]@ == x {
                            let q = choose|q: int| 0 <= q < i + 1 && inner@[q]@ == x;
                            if q < i {
                                assert(exists|q2: int| 0 <= q2 < i && inner@[q2]@ == x);
                            }
                        }
                    }
                }
                i = i + 1;
            }
            proof {
                assert forall|x: Seq<char>| #[trigger] name_set(out@).contains(x) <==> name_set(o0).contains(x) || reads_expr(*expr, x) by {
                    if name_set(inner@).contains(x) {
                        let q = choose|q: int| 0 <= q < inner@.len() && #[trigger] inner@[q]@ == x;
                    }
                    if exists|q: int| 0 <= q < inner.len() && inner@[q]@ == x {
                        let q = choose|q: int| 0 <= q < inner.len() && inner@[q]@ == x;
                        assert(name_set(inner@).contains(x));
                    }
                }
            }
        },
        Expr::ObjectLit { fields, .. } => {
            let mut i: usize = 0;
            while i < fields.len()
                invariant
                    i <= fields.len(),
                    forall|x: Seq<char>| #[trigger] name_set(out@).contains(x) <==> name_set(o0).contains(x)
                        || exists|k: int| 0 <= k < i && reads_expr(#[trigger] fields@[k].1, x),
                decreases fields.len() - i,
            {
                proof {
                    assert(decreases_to!(*expr => *fields));
                    assert(decreases_to!(*fields => fields@));
                    assert(decreases_to!(fields@ => fields@[i as int]));
                    assert(decreases_to!(fields@[i as int] => fields@[i as int].1));
                }
                collect_used_vars(&fields[i].1, out);
                proof {
                    assert forall|x: Seq<char>| #[trigger] name_set(out@).contains(x) <==> name_set(o0).contains(x)
                        || exists|k: int| 0 <= k < i + 1 && reads_expr(#[trigger] fields@[k].1, x) by {
                        if exists|k: int| 0 <= k < i + 1 && reads_expr(#[trigger] fields@[k].1, x) {
                            let k = choose|k: int| 0 <= k < i + 1 && reads_expr(#[trigger] fields@[k].1, x);
                            if k < i {
                            }
                        }
                    }
                }
                i = i + 1;
            }
        },
        Expr::ArrayLit { elems, .. } => collect_vars_exprs(elems, out),
        Expr::FieldAccess { obj, .. } => collect_used_vars(&**obj, out),
        Expr::IndexAccess { arr, idx } => {
            collect_used_vars(&**arr, out);
            collect_used_vars(&**idx, out);
        },
        Expr::BinOp { lhs, rhs, .. } => {
            collect_used_vars(&**lhs, out);
            collect_used_vars(&**rhs, out);
        },
        Expr::UnaryOp { arg, .. } => collect_used_vars(&**arg, out),
        Expr::Call { fn_, args } => {
            collect_used_vars(&**fn_, out);
            collect_vars_exprs(args, out);
        },
        Expr::CompApp { props, .. } => collect_used_vars(&**props, out),
        Expr::NativeElem { props, children, .. } => {
            collect_used_vars(&**props, out);
            collect_vars_exprs(children, out);
        },
        Expr::TSAnnotated(inner) => collect_used_vars(&**inner, out),
        _ => {},
    }
}

/// Add to `out` every variable one of `es` reads.
#[verifier::loop_isolation(false)]
fn collect_vars_exprs(es: &Vec<Expr>, out: &mut Vec<Var>)
    ensures
        forall|x: Seq<char>| #[trigger] name_set(final(out)@).contains(x) <==> name_set(old(out)@).contains(x)
            || exists|k: int| 0 <= k < es.len() && reads_expr(#[trigger] es@[k], x),
    decreases es,
{
    let ghost o0 = out@;
    let mut i: usize = 0;
    while i < es.len()
        invariant
            i <= es.len(),
            forall|x: Seq<char>| #[trigger] name_set(out@).contains(x) <==> name_set(o0).contains(x)
                || exists|k: int| 0 <= k < i && reads_expr(#[trigger] es@[k], x),
        decreases es.len() - i,
    {
        proof {
            assert(decreases_to!(*es => es@));
            assert(decreases_to!(es@ => es@[i as int]));
        }
        collect_used_vars(&es[i], out);
        i = i + 1;
    }
}

/// Add to `out` every variable a statement reads.
pub(crate) fn collect_vars_stmt(st: &Stmt, out: &mut Vec<Var>)
    ensures
        forall|x: Seq<char>| #[trigger] name_set(final(out)@).contains(x) <==> name_set(old(out)@).contains(x) || reads_stmt(*st, x),
    decreases st,
{
    match st {
        Stmt::Let { rhs, .. } => collect_used_vars(rhs, out),
        Stmt::Assign { rhs, .. } => collect_used_vars(rhs, out),
        Stmt::MemberWrite { obj, key, rhs, .. } => {
            collect_used_vars(obj, out);
            if let MemberKey::Index(i) = key {
                collect_used_vars(i, out);
            }
            collect_used_vars(rhs, out);
        },
        Stmt::ExprStmt(e, _) => collect_used_vars(e, out),
    }
}

/// The free variables of a body: those read anywhere in it, function
/// literal bodies included, and bound by none of its statements; each once.
#[verifier::loop_isolation(false)]
pub fn compute_free_vars(cfg: &CFG) -> (r: Vec<Var>)
    ensures
        forall|x: Seq<char>| #[trigger] name_set(r@).contains(x) <==> free_in(*cfg, x),
        forall|i: int, j: int| 0 <= i < j < r.len() ==> r@[i]@ != r@[j]@,
    decreases cfg,
{
    let mut used: Vec<Var> = Vec::new();
    let mut defined: Vec<Var> = Vec::new();
    let mut i: usize = 0;
    while i < cfg.blocks.len()
        invariant
            i <= cfg.blocks.len(),
            forall|x: Seq<char>| #[trigger] name_set(used@).contains(x) <==> exists|k: int|
                0 <= k < i && reads_block(#[trigger] cfg.blocks@[k], x),
            forall|x: Seq<char>| #[trigger] name_set(defined@).contains(x) <==> exists|k: int, j: int|
                0 <= k < i && 0 <= j < cfg.blocks@[k].stmts.len() && stmt_defines(#[trigger] cfg.blocks@[k].stmts@[j], x),
        decreases cfg.blocks.len() - i,
    {
        let ghost u0 = used@;
        let ghost d0 = defined@;
        let b = &cfg.blocks[i];
        let mut j: usize = 0;
        while j < b.stmts.len()
            invariant
                j <= b.stmts.len(),
                forall|x: Seq<char>| #[trigger] name_set(used@).contains(x) <==> name_set(u0).contains(x) || exists|jj: int|
                    0 <= jj < j && reads_stmt(#[trigger] b.stmts@[jj], x),
                forall|x: Seq<char>| #[trigger] name_set(defined@).contains(x) <==> name_set(d0).contains(x) || exists|jj: int|
                    0 <= jj < j && stmt_defines(#[trigger] b.stmts@[jj], x),
            decreases b.stmts.len() - j,
        {
            proof {
                assert(decreases_to!(*cfg => cfg.blocks));
                assert(decreases_to!(cfg.blocks => cfg.blocks@));
                assert(decreases_to!(cfg.blocks@ => cfg.blocks@[i as int]));
                assert(decreases_to!(cfg.blocks@[i as int] => cfg.blocks@[i as int].stmts));
                assert(decreases_to!(cfg.blocks@[i as int].stmts => cfg.blocks@[i as int].stmts@));
                assert(decreases_to!(cfg.blocks@[i as int].stmts@ => cfg.blocks@[i as int].stmts@[j as int]));
            }
            let ghost dd = defined@;
            collect_vars_stmt(&b.stmts[j], &mut used);
            match &b.stmts[j] {
                Stmt::Let { var, .. } => push_name(&mut defined, var),
                Stmt::Assign { var, .. } => push_name(&mut defined, var),
                _ => {},
            }
            proof {
                assert forall|x: Seq<char>| #[trigger] name_set(used@).contains(x) <==> name_set(u0).contains(x) || exists|jj: int|
                    0 <= jj < j + 1 && reads_stmt(#[trigger] b.stmts@[jj], x) by {
                    if exists|jj: int| 0 <= jj < j + 1 && reads_stmt(#[trigger] b.stmts@[jj], x) {
                        let jj = choose|jj: int| 0 <= jj < j + 1 && reads_stmt(#[trigger] b.stmts@[jj], x);
                        if jj < j {
                        }
                    }
                }
                assert forall|x: Seq<char>| #[trigger] name_set(defined@).contains(x) <==> name_set(d0).contains(x) || exists|jj: int|
                    0 <= jj < j + 1 && stmt_defines(#[trigger] b.stmts@[jj], x) by {
                    if exists|jj: int| 0 <= jj < j + 1 && stmt_defines(#[trigger] b.stmts@[jj], x) {
                        let jj = choose|jj: int| 0 <= jj < j + 1 && stmt_defines(#[trigger] b.stmts@[jj], x);
                        if jj < j {
                        }
                    }
                    if !(b.stmts@[j as int] is Let || b.stmts@[j as int] is Assign) {
                        assert(defined@ == dd);
                    }
                }
            }
            j = j + 1;
        }
        proof {
            assert(decreases_to!(*cfg => cfg.blocks));
            assert(decreases_to!(cfg.blocks => cfg.blocks@));
            assert(decreases_to!(cfg.blocks@ => cfg.blocks@[i as int]));
            assert(decreases_to!(cfg.blocks@[i as int] => cfg.blocks@[i as int].term));
        }
        match &b.term {
            Terminator::Return(e) => collect_used_vars(e, &mut used),
            Terminator::Branch { cond, .. } => collect_used_vars(cond, &mut used),
            _ => {},
        }
        proof {
            assert forall|x: Seq<char>| #[trigger] name_set(used@).contains(x) <==> exists|k: int|
                0 <= k < i + 1 && reads_block(#[trigger] cfg.blocks@[k], x) by {
                if exists|k: int| 0 <= k < i + 1 && reads_block(#[trigger] cfg.blocks@[k], x) {
                    let k = choose|k: int| 0 <= k < i + 1 && reads_block(#[trigger] cfg.blocks@[k], x);
                    if k < i {
                    }
                }
            }
            assert forall|x: Seq<char>| #[trigger] name_set(defined@).contains(x) <==> exists|k: int, jj: int|
                0 <= k < i + 1 && 0 <= jj < cfg.blocks@[k].stmts.len() && stmt_defines(#[trigger] cfg.blocks@[k].stmts@[jj], x) by {
                if exists|k: int, jj: int|
                    0 <= k < i + 1 && 0 <= jj < cfg.blocks@[k].stmts.len() && stmt_defines(#[trigger] cfg.blocks@[k].stmts@[jj], x) {
                    let (k, jj) = choose|k: int, jj: int|
                        0 <= k < i + 1 && 0 <= jj < cfg.blocks@[k].stmts.len() && stmt_defines(#[trigger] cfg.blocks@[k].stmts@[jj], x);
                    if k < i {
                        assert(exists|k2: int, j2: int|
                            0 <= k2 < i && 0 <= j2 < cfg.blocks@[k2].stmts.len() && stmt_defines(#[trigger] cfg.blocks@[k2].stmts@[j2], x));
                    }
                }
            }
        }
        i = i + 1;
    }
    let mut r: Vec<Var> = Vec::new();
    let mut k: usize = 0;
    while k < used.len()
        invariant
            k <= used.len(),
            forall|x: Seq<char>| #[trigger] name_set(r@).contains(x) <==> (exists|q: int| 0 <= q < k && used@[q]@ == x)
                && !name_set(defined@).contains(x),
            forall|a: int, b: int| 0 <= a < b < r.len() ==> r@[a]@ != r@[b]@,
        decreases used.len() - k,
    {
        let ghost before = r@;
        if !holds_name(&defined, &used[k]) && !holds_name(&r, &used[k]) {
            r.push(used[k].clone());
            proof {
                assert(r@[before.len() as int]@ == used@[k as int]@);
                assert forall|a: int, b: int| 0 <= a < b < r.len() implies r@[a]@ != r@[b]@ by {
                    if b == before.len() {
                        assert(r@[a] == before[a]);
                        if r@[a]@ == r@[b]@ {
                            assert(before[a]@ == used@[k as int]@);
                            assert(name_set(before).contains(used@[k as int]@));
                        }
                    } else {
                        assert(r@[a] == before[a] && r@[b] == before[b]);
                    }
                }
                assert forall|x: Seq<char>| #[trigger] name_set(r@).contains(x) <==> name_set(before).contains(x) || x == used@[k as int]@ by {
                    if name_set(r@).contains(x) {
                        let q = choose|q: int| 0 <= q < r@.len() && #[trigger] r@[q]@ == x;
                        if q < before.len() {
                            assert(before[q]@ == x);
                        }
                    }
                    if name_set(before).contains(x) {
                        let q = choose|q: int| 0 <= q < before.len() && #[trigger] before[q]@ == x;
                        assert(r@[q]@ == x);
                    }
                }
            }
        }
        proof {
            assert forall|x: Seq<char>| #[trigger] name_set(r@).contains(x) <==> (exists|q: int| 0 <= q < k + 1 && used@[q]@ == x)
                && !name_set(defined@).contains(x) by {
                if exists|q: int| 0 <= q < k + 1 && used@[q]@ == x {
                    let q = choose|q: int| 0 <= q < k + 1 && used@[q]@ == x;
                    if q < k {
                        assert(exists|q2: int| 0 <= q2 < k && used@[q2]@ == x);
                    }
                }
            }
        }
        k = k + 1;
    }
    proof {
        assert forall|x: Seq<char>| #[trigger] name_set(r@).contains(x) <==> free_in(*cfg, x) by {
            if exists|q: int| 0 <= q < used.len() && used@[q]@ == x {
                let q = choose|q: int| 0 <= q < used.len() && used@[q]@ == x;
                assert(name_set(used@).contains(x));
            }
            if name_set(used@).contains(x) {
                let q = choose|q: int| 0 <= q < used@.len() && #[trigger] used@[q]@ == x;
            }
        }
    }
    r
}

// ── Free access paths ───────────────────────────────────────────────────────

/// The access paths an expression reads: a variable reads its own bare
/// path; a literal, an operator, a call, a component or native element or
/// an annotation reads exactly the paths the expressions directly inside it
/// read (a callee, arguments, members, props, children, operands).
pub proof fn lemma_path_reads_structure(e: Expr, p: PathView)
    ensures
        e matches Expr::Var(v) ==> (path_reads(e, p) <==> p == (v@, Seq::<Seq<char>>::empty())),
        (e is ObjectLit || e is ArrayLit || e is BinOp || e is UnaryOp || e is Call || e is CompApp || e is NativeElem
            || e is TSAnnotated) ==> (path_reads(e, p) <==> exists|k: int|
            0 <= k < children_of(e).len() && path_reads(#[trigger] children_of(e)[k], p)),
{
    let c = children_of(e);
    match e {
        Expr::Call { fn_, args } => {
            assert(c[0] == *fn_);
            assert forall|i: int| 0 <= i < args.len() implies c[i + 1] == args@[i] by {}
            assert forall|k: int| 0 <= k < c.len() implies (k == 0 && c[k] == *fn_) || (k >= 1 && c[k] == args@[k - 1]) by {}
        },
        Expr::NativeElem { props, children, .. } => {
            assert(c[0] == *props);
            assert forall|i: int| 0 <= i < children.len() implies c[i + 1] == children@[i] by {}
            assert forall|k: int| 0 <= k < c.len() implies (k == 0 && c[k] == *props) || (k >= 1 && c[k] == children@[k - 1]) by {}
        },
        Expr::CompApp { props, .. } => {
            assert(c[0] == *props);
            assert forall|k: int| 0 <= k < c.len() implies c[k] == *props by {}
        },
        Expr::ObjectLit { fields, .. } => {
            assert(c.len() == fields.len());
            assert forall|k: int| 0 <= k < c.len() implies #[trigger] c[k] == fields@[k].1 by {}
            assert forall|i: int| 0 <= i < fields.len() implies #[trigger] fields@[i].1 == c[i] by {}
        },
        Expr::FieldAccess { obj, .. } => {
            assert(c[0] == *obj);
            assert forall|k: int| 0 <= k < c.len() implies c[k] == *obj by {}
        },
        Expr::IndexAccess { arr, idx } => {
            assert(c[0] == *arr && c[1] == *idx);
            assert forall|k: int| 0 <= k < c.len() implies (k == 0 && c[k] == *arr) || (k == 1 && c[k] == *idx) by {}
        },
        Expr::BinOp { lhs, rhs, .. } => {
            assert(c[0] == *lhs && c[1] == *rhs);
            assert forall|k: int| 0 <= k < c.len() implies (k == 0 && c[k] == *lhs) || (k == 1 && c[k] == *rhs) by {}
        },
        Expr::UnaryOp { arg, .. } => {
            assert(c[0] == *arg);
            assert forall|k: int| 0 <= k < c.len() implies c[k] == *arg by {}
        },
        Expr::TSAnnotated(inner) => {
            assert(c[0] == *inner);
            assert forall|k: int| 0 <= k < c.len() implies c[k] == *inner by {}
        },
        _ => {},
    }
}

/// A path as plain values: the root's name and the segment names.
pub type PathView = (Seq<char>, Seq<Seq<char>>);

/// The path a member chain reads: its root and segments (none past a
/// dynamic index).
pub open spec fn chain_path(e: Expr) -> Option<PathView> {
    match chain_of(e) {
        Some((root, segs, _)) => Some((root, segs)),
        None => None,
    }
}

/// `e` reads the path `p`: a member chain read whole, the paths read by the
/// off-chain parts of a chain (its index expressions, a base that is not a
/// variable), the paths free in the body of a function literal whose
/// parameters do not shadow their root, and those read by sub-expressions.
pub open spec fn path_reads(e: Expr, p: PathView) -> bool
    decreases e, 0nat,
{
    match e {
        Expr::Var(_) => chain_path(e) == Some(p),
        Expr::FieldAccess { obj, .. } => chain_path(e) == Some(p) || side_reads(*obj, p),
        Expr::IndexAccess { arr, idx } => chain_path(e) == Some(p) || path_reads(*idx, p) || side_reads(*arr, p),
        Expr::FnLit { params, body_cfg, .. } => paths_cfg(*body_cfg, p) && !defines(*body_cfg, p.0) && !names(params@).contains(p.0),
        Expr::ObjectLit { fields, .. } => exists|i: int| 0 <= i < fields.len() && path_reads(#[trigger] fields@[i].1, p),
        Expr::ArrayLit { elems, .. } => exists|i: int| 0 <= i < elems.len() && path_reads(#[trigger] elems@[i], p),
        Expr::BinOp { lhs, rhs, .. } => path_reads(*lhs, p) || path_reads(*rhs, p),
        Expr::UnaryOp { arg, .. } => path_reads(*arg, p),
        Expr::Call { fn_, args } => path_reads(*fn_, p) || exists|i: int| 0 <= i < args.len() && path_reads(#[trigger] args@[i], p),
        Expr::CompApp { props, .. } => path_reads(*props, p),
        Expr::NativeElem { props, children, .. } => path_reads(*props, p) || exists|i: int|
            0 <= i < children.len() && path_reads(#[trigger] children@[i], p),
        Expr::TSAnnotated(inner) => path_reads(*inner, p),
        _ => false,
    }
}

/// The paths read off the chain below a member access: through `x` down
/// to the root, the index expressions met, and a base that is not a
/// variable.
pub open spec fn side_reads(x: Expr, p: PathView) -> bool
    decreases x, 1nat,
{
    match x {
        Expr::Var(_) => false,
        Expr::TSAnnotated(inner) => side_reads(*inner, p),
        Expr::FieldAccess { obj, .. } => side_reads(*obj, p),
        Expr::IndexAccess { arr, idx } => path_reads(*idx, p) || side_reads(*arr, p),
        _ => path_reads(x, p),
    }
}

/// A statement reads `p` in one of its expressions.
pub open spec fn paths_stmt(s: Stmt, p: PathView) -> bool
    decreases s, 0nat,
{
    match s {
        Stmt::Let { rhs, .. } => path_reads(rhs, p),
        Stmt::Assign { rhs, .. } => path_reads(rhs, p),
        Stmt::MemberWrite { obj, key, rhs, .. } => path_reads(obj, p) || path_reads(rhs, p) || (match key {
            MemberKey::Index(i) => path_reads(i, p),
            _ => false,
        }),
        Stmt::ExprStmt(e, _) => path_reads(e, p),
    }
}

/// A terminator reads `p` in its expression.
pub open spec fn paths_term(t: Terminator, p: PathView) -> bool
    decreases t, 0nat,
{
    match t {
        Terminator::Return(e) => path_reads(e, p),
        Terminator::Branch { cond, .. } => path_reads(cond, p),
        _ => false,
    }
}

/// A block reads `p` in a statement or its terminator.
pub open spec fn paths_block(b: BasicBlock, p: PathView) -> bool
    decreases b, 0nat,
{
    ||| exists|j: int| 0 <= j < b.stmts.len() && paths_stmt(#[trigger] b.stmts@[j], p)
    ||| paths_term(b.term, p)
}

/// Some block of `c` reads `p`.
pub open spec fn paths_cfg(c: CFG, p: PathView) -> bool
    decreases c, 0nat,
{
    exists|i: int| 0 <= i < c.blocks.len() && paths_block(#[trigger] c.blocks@[i], p)
}

/// The paths a list holds.
pub open spec fn path_set(v: Seq<AccessPath>) -> Set<PathView> {
    Set::new(|p: PathView| exists|i: int| 0 <= i < v.len() && #[trigger] v[i]@ == p)
}

/// A copy of a path, equal to it.
pub(crate) fn copy_path(p: &AccessPath) -> (r: AccessPath)
    ensures
        r@ == p@,
{
    AccessPath { root: p.root.clone(), segments: crate::expr::copy_strings(&p.segments) }
}

/// `true` iff the two paths are equal as plain values.
pub(crate) fn same_path(a: &AccessPath, b: &AccessPath) -> (r: bool)
    ensures
        r == (a@ == b@),
{
    if !str_eq(a.root.as_str(), b.root.as_str()) {
        return false;
    }
    if a.segments.len() != b.segments.len() {
        assert(names(a.segments@).len() != names(b.segments@).len());
        return false;
    }
    let mut j: usize = 0;
    while j < a.segments.len()
        invariant
            j <= a.segments.len(),
            a.segments.len() == b.segments.len(),
            forall|t: int| 0 <= t < j ==> a.segments@[t]@ == b.segments@[t]@,
        decreases a.segments.len() - j,
    {
        if !str_eq(a.segments[j].as_str(), b.segments[j].as_str()) {
            assert(names(a.segments@)[j as int] != names(b.segments@)[j as int]);
            return false;
        }
        j = j + 1;
    }
    assert(names(a.segments@) =~= names(b.segments@));
    true
}

/// `true` iff `v` holds `p`.
pub(crate) fn holds_path(v: &Vec<AccessPath>, p: &AccessPath) -> (r: bool)
    ensures
        r == path_set(v@).contains(p@),
{
    let mut i: usize = 0;
    while i < v.len()
        invariant
            i <= v.len(),
            forall|q: int| 0 <= q < i ==> v@[q]@ != p@,
        decreases v.len() - i,
    {
        if same_path(&v[i], p) {
            return true;
        }
        i = i + 1;
    }
    false
}

/// Add `p` to `out`.
pub(crate) fn push_path(out: &mut Vec<AccessPath>, p: AccessPath)
    ensures
        final(out)@ == old(out)@.push(p),
        path_set(final(out)@) == path_set(old(out)@).insert(p@),
{
    let ghost before = out@;
    let ghost pv = p@;
    out.push(p);
    assert(path_set(out@) =~= path_set(before).insert(pv)) by {
        assert forall|x: PathView| path_set(out@).contains(x) <==> path_set(before).insert(pv).contains(x) by {
            if path_set(out@).contains(x) {
                let i = choose|i: int| 0 <= i < out@.len() && #[trigger] out@[i]@ == x;
                if i < before.len() {
                    assert(before[i]@ == x);
                }
            }
            if path_set(before).contains(x) {
                let i = choose|i: int| 0 <= i < before.len() && #[trigger] before[i]@ == x;
                assert(out@[i]@ == x);
            }
            if x == pv {
                assert(out@[before.len() as int]@ == x);
            }
        }
    }
}

/// Add to `out` every path `expr` reads (see [`path_reads`]).
#[verifier::loop_isolation(false)]
pub fn collect_used_paths(expr: &Expr, out: &mut Vec<AccessPath>)
    ensures
        forall|p: PathView| #[trigger] path_set(final(out)@).contains(p) <==> path_set(old(out)@).contains(p) || path_reads(*expr, p),
    decreases expr, 0nat,
{
    let ghost o0 = out@;
    match expr {
        Expr::Var(_) | Expr::FieldAccess { .. } | Expr::IndexAccess { .. } => {
            let mut scratch: Vec<&Expr> = Vec::new();
            let chain = extract_path(expr, &mut scratch);
            match chain {
                Some((root, segments, _)) => {
                    push_path(out, AccessPath { root, segments });
                },
                None => {},
            }
            let ghost o1 = out@;
            match expr {
                Expr::FieldAccess { obj, .. } => collect_side_paths(&**obj, out),
                Expr::IndexAccess { arr, idx } => {
                    collect_used_paths(&**idx, out);
                    collect_side_paths(&**arr, out);
                },
                _ => {},
            }
        },
        Expr::FnLit { params, body_cfg, .. } => {
            proof {
                assert(decreases_to!(*expr => **body_cfg));
            }
            let inner = compute_free_paths(&**body_cfg);
            let mut i: usize = 0;
            while i < inner.len()
                invariant
                    i <= inner.len(),
                    forall|p: PathView| #[trigger] path_set(out@).contains(p) <==> path_set(o0).contains(p) || (exists|q: int|
                        0 <= q < i && inner@[q]@ == p) && !names(params@).contains(p.0),
                decreases inner.len() - i,
            {
                proof {
                    assert(name_set(params@).contains(inner@[i as int].root@) == names(params@).contains(inner@[i as int].root@)) by {
                        let r = inner@[i as int].root@;
                        if name_set(params@).contains(r) {
                            let q = choose|q: int| 0 <= q < params@.len() && #[trigger] params@[q]@ == r;
                            assert(names(params@)[q] == r);
                        }
                        if names(params@).contains(r) {
                            let q = choose|q: int| 0 <= q < names(params@).len() && names(params@)[q] == r;
                            assert(params@[q]@ == r);
                        }
                    }
                }
                if !holds_name(params, &inner[i].root) {
                    push_path(out, copy_path(&inner[i]));
                }
                proof {
                    assert forall|p: PathView| #[trigger] path_set(out@).contains(p) <==> path_set(o0).contains(p) || (exists|q: int|
                        0 <= q < i + 1 && inner@[q]@ == p) && !names(params@).contains(p.0) by {
                        if exists|q: int| 0 <= q < i + 1 && inner@[q]@ == p {
                            let q = choose|q: int| 0 <= q < i + 1 && inner@[q]@ == p;
                            if q < i {
                                assert(exists|q2: int| 0 <= q2 < i && inner@[q2]@ == p);
                            }
                        }
                    }
                }
                i = i + 1;
            }
            proof {
                assert forall|p: PathView| #[trigger] path_set(out@).contains(p) <==> path_set(o0).contains(p) || path_reads(*expr, p) by {
                    if path_set(inner@).contains(p) {
                        let q = choose|q: int| 0 <= q < inner@.len() && #[trigger] inner@[q]@ == p;
                    }
                    if exists|q: int| 0 <= q < inner.len() && inner@[q]@ == p {
                        let q = choose|q: int| 0 <= q < inner.len() && inner@[q]@ == p;
                        assert(path_set(inner@).contains(p));
                    }
                }
            }
        },
        Expr::ObjectLit { fields, .. } => {
            let mut i: usize = 0;
            while i < fields.len()
                invariant
                    i <= fields.len(),
                    forall|p: PathView| #[trigger] path_set(out@).contains(p) <==> path_set(o0).contains(p)
                        || exists|k: int| 0 <= k < i && path_reads(#[trigger] fields@[k].1, p),
                decreases fields.len() - i,
            {
                proof {
                    assert(decreases_to!(*expr => *fields));
                    assert(decreases_to!(*fields => fields@));
                    assert(decreases_to!(fields@ => fields@[i as int]));
                    assert(decreases_to!(fields@[i as int] => fields@[i as int].1));
                }
                collect_used_paths(&fields[i].1, out);
                proof {
                    assert forall|p: PathView| #[trigger] path_set(out@).contains(p) <==> path_set(o0).contains(p)
                        || exists|k: int| 0 <= k < i + 1 && path_reads(#[trigger] fields@[k].1, p) by {
                        if exists|k: int| 0 <= k < i + 1 && path_reads(#[trigger] fields@[k].1, p) {
                            let k = choose|k: int| 0 <= k < i + 1 && path_reads(#[trigger] fields@[k].1, p);
                            if k < i {
                            }
                        }
                    }
                }
                i = i + 1;
            }
        },
        Expr::ArrayLit { elems, .. } => collect_paths_exprs(elems, out),
        Expr::BinOp { lhs, rhs, .. } => {
            collect_used_paths(&**lhs, out);
            collect_used_paths(&**rhs, out);
        },
        Expr::UnaryOp { arg, .. } => collect_used_paths(&**arg, out),
        Expr::Call { fn_, args } => {
            collect_used_paths(&**fn_, out);
            collect_paths_exprs(args, out);
        },
        Expr::CompApp { props, .. } => collect_used_paths(&**props, out),
        Expr::NativeElem { props, children, .. } => {
            collect_used_paths(&**props, out);
            collect_paths_exprs(children, out);
        },
        Expr::TSAnnotated(inner) => collect_used_paths(&**inner, out),
        _ => {},
    }
}

/// Add to `out` the paths read off the chain below a member access (see
/// [`side_reads`]).
fn collect_side_paths(x: &Expr, out: &mut Vec<AccessPath>)
    ensures
        forall|p: PathView| #[trigger] path_set(final(out)@).contains(p) <==> path_set(old(out)@).contains(p) || side_reads(*x, p),
    decreases x, 1nat,
{
    match x {
        Expr::Var(_) => {},
        Expr::TSAnnotated(inner) => collect_side_paths(&**inner, out),
        Expr::FieldAccess { obj, .. } => collect_side_paths(&**obj, out),
        Expr::IndexAccess { arr, idx } => {
            collect_used_paths(&**idx, out);
            collect_side_paths(&**arr, out);
        },
        _ => collect_used_paths(x, out),
    }
}

/// Add to `out` every path one of `es` reads.
#[verifier::loop_isolation(false)]
fn collect_paths_exprs(es: &Vec<Expr>, out: &mut Vec<AccessPath>)
    ensures
        forall|p: PathView| #[trigger] path_set(final(out)@).contains(p) <==> path_set(old(out)@).contains(p)
            || exists|k: int| 0 <= k < es.len() && path_reads(#[trigger] es@[k], p),
    decreases es, 0nat,
{
    let ghost o0 = out@;
    let mut i: usize = 0;
    while i < es.len()
        invariant
            i <= es.len(),
            forall|p: PathView| #[trigger] path_set(out@).contains(p) <==> path_set(o0).contains(p)
                || exists|k: int| 0 <= k < i && path_reads(#[trigger] es@[k], p),
        decreases es.len() - i,
    {
        proof {
            assert(decreases_to!(*es => es@));
            assert(decreases_to!(es@ => es@[i as int]));
        }
        collect_used_paths(&es[i], out);
        i = i + 1;
    }
}

/// Add to `out` every path a statement reads.
fn collect_paths_stmt(st: &Stmt, out: &mut Vec<AccessPath>)
    ensures
        forall|p: PathView| #[trigger] path_set(final(out)@).contains(p) <==> path_set(old(out)@).contains(p) || paths_stmt(*st, p),
    decreases st, 0nat,
{
    match st {
        Stmt::Let { rhs, .. } => collect_used_paths(rhs, out),
        Stmt::Assign { rhs, .. } => collect_used_paths(rhs, out),
        Stmt::MemberWrite { obj, key, rhs, .. } => {
            collect_used_paths(obj, out);
            if let MemberKey::Index(i) = key {
                collect_used_paths(i, out);
            }
            collect_used_paths(rhs, out);
        },
        Stmt::ExprStmt(e, _) => collect_used_paths(e, out),
    }
}

/// The free access paths of a body: every read, refined to the member
/// chain it touches (see [`path_reads`]), whose root no statement of the
/// body binds; each once.
#[verifier::loop_isolation(false)]
pub fn compute_free_paths(cfg: &CFG) -> (r: Vec<AccessPath>)
    ensures
        forall|p: PathView| #[trigger] path_set(r@).contains(p) <==> paths_cfg(*cfg, p) && !defines(*cfg, p.0),
        forall|i: int, j: int| 0 <= i < j < r.len() ==> r@[i]@ != r@[j]@,
    decreases cfg, 0nat,
{
    let mut used: Vec<AccessPath> = Vec::new();
    let mut defined: Vec<Var> = Vec::new();
    let mut i: usize = 0;
    while i < cfg.blocks.len()
        invariant
            i <= cfg.blocks.len(),
            forall|p: PathView| #[trigger] path_set(used@).contains(p) <==> exists|k: int|
                0 <= k < i && paths_block(#[trigger] cfg.blocks@[k], p),
            forall|x: Seq<char>| #[trigger] name_set(defined@).contains(x) <==> exists|k: int, j: int|
                0 <= k < i && 0 <= j < cfg.blocks@[k].stmts.len() && stmt_defines(#[trigger] cfg.blocks@[k].stmts@[j], x),
        decreases cfg.blocks.len() - i,
    {
        let ghost u0 = used@;
        let ghost d0 = defined@;
        let b = &cfg.blocks[i];
        let mut j: usize = 0;
        while j < b.stmts.len()
            invariant
                j <= b.stmts.len(),
                forall|p: PathView| #[trigger] path_set(used@).contains(p) <==> path_set(u0).contains(p) || exists|jj: int|
                    0 <= jj < j && paths_stmt(#[trigger] b.stmts@[jj], p),
                forall|x: Seq<char>| #[trigger] name_set(defined@).contains(x) <==> name_set(d0).contains(x) || exists|jj: int|
                    0 <= jj < j && stmt_defines(#[trigger] b.stmts@[jj], x),
            decreases b.stmts.len() - j,
        {
            proof {
                assert(decreases_to!(*cfg => cfg.blocks));
                assert(decreases_to!(cfg.blocks => cfg.blocks@));
                assert(decreases_to!(cfg.blocks@ => cfg.blocks@[i as int]));
                assert(decreases_to!(cfg.blocks@[i as int] => cfg.blocks@[i as int].stmts));
                assert(decreases_to!(cfg.blocks@[i as int].stmts => cfg.blocks@[i as int].stmts@));
                assert(decreases_to!(cfg.blocks@[i as int].stmts@ => cfg.blocks@[i as int].stmts@[j as int]));
            }
            let ghost dd = defined@;
            collect_paths_stmt(&b.stmts[j], &mut used);
            match &b.stmts[j] {
                Stmt::Let { var, .. } => push_name(&mut defined, var),
                Stmt::Assign { var, .. } => push_name(&mut defined, var),
                _ => {},
            }
            proof {
                assert forall|p: PathView| #[trigger] path_set(used@).contains(p) <==> path_set(u0).contains(p) || exists|jj: int|
                    0 <= jj < j + 1 && paths_stmt(#[trigger] b.stmts@[jj], p) by {
                    if exists|jj: int| 0 <= jj < j + 1 && paths_stmt(#[trigger] b.stmts@[jj], p) {
                        let jj = choose|jj: int| 0 <= jj < j + 1 && paths_stmt(#[trigger] b.stmts@[jj], p);
                        if jj < j {
                        }
                    }
                }
                assert forall|x: Seq<char>| #[trigger] name_set(defined@).contains(x) <==> name_set(d0).contains(x) || exists|jj: int|
                    0 <= jj < j + 1 && stmt_defines(#[trigger] b.stmts@[jj], x) by {
                    if exists|jj: int| 0 <= jj < j + 1 && stmt_defines(#[trigger] b.stmts@[jj], x) {
                        let jj = choose|jj: int| 0 <= jj < j + 1 && stmt_defines(#[trigger] b.stmts@[jj], x);
                        if jj < j {
                        }
                    }
                    if !(b.stmts@[j as int] is Let || b.stmts@[j as int] is Assign) {
                        assert(defined@ == dd);
                    }
                }
            }
            j = j + 1;
        }
        proof {
            assert(decreases_to!(*cfg => cfg.blocks));
            assert(decreases_to!(cfg.blocks => cfg.blocks@));
            assert(decreases_to!(cfg.blocks@ => cfg.blocks@[i as int]));
            assert(decreases_to!(cfg.blocks@[i as int] => cfg.blocks@[i as int].term));
        }
        match &b.term {
            Terminator::Return(e) => collect_used_paths(e, &mut used),
            Terminator::Branch { cond, .. } => collect_used_paths(cond, &mut used),
            _ => {},
        }
        proof {
            assert forall|p: PathView| #[trigger] path_set(used@).contains(p) <==> exists|k: int|
                0 <= k < i + 1 && paths_block(#[trigger] cfg.blocks@[k], p) by {
                if exists|k: int| 0 <= k < i + 1 && paths_block(#[trigger] cfg.blocks@[k], p) {
                    let k = choose|k: int| 0 <= k < i + 1 && paths_block(#[trigger] cfg.blocks@[k], p);
                    if k < i {
                    }
                }
            }
            assert forall|x: Seq<char>| #[trigger] name_set(defined@).contains(x) <==> exists|k: int, jj: int|
                0 <= k < i + 1 && 0 <= jj < cfg.blocks@[k].stmts.len() && stmt_defines(#[trigger] cfg.blocks@[k].stmts@[jj], x) by {
                if exists|k: int, jj: int|
                    0 <= k < i + 1 && 0 <= jj < cfg.blocks@[k].stmts.len() && stmt_defines(#[trigger] cfg.blocks@[k].stmts@[jj], x) {
                    let (k, jj) = choose|k: int, jj: int|
                        0 <= k < i + 1 && 0 <= jj < cfg.blocks@[k].stmts.len() && stmt_defines(#[trigger] cfg.blocks@[k].stmts@[jj], x);
                    if k < i {
                        assert(exists|k2: int, j2: int|
                            0 <= k2 < i && 0 <= j2 < cfg.blocks@[k2].stmts.len() && stmt_defines(#[trigger] cfg.blocks@[k2].stmts@[j2], x));
                    }
                }
            }
        }
        i = i + 1;
    }
    let mut r: Vec<AccessPath> = Vec::new();
    let mut k: usize = 0;
    while k < used.len()
        invariant
            k <= used.len(),
            forall|p: PathView| #[trigger] path_set(r@).contains(p) <==> (exists|q: int| 0 <= q < k && used@[q]@ == p)
                && !name_set(defined@).contains(p.0),
            forall|a: int, b: int| 0 <= a < b < r.len() ==> r@[a]@ != r@[b]@,
        decreases used.len() - k,
    {
        let ghost before = r@;
        if !holds_name(&defined, &used[k].root) && !holds_path(&r, &used[k]) {
            push_path(&mut r, copy_path(&used[k]));
            proof {
                assert forall|a: int, b: int| 0 <= a < b < r.len() implies r@[a]@ != r@[b]@ by {
                    if b == before.len() {
                        assert(r@[a] == before[a]);
                        if r@[a]@ == r@[b]@ {
                            assert(path_set(before).contains(used@[k as int]@));
                        }
                    } else {
                        assert(r@[a] == before[a] && r@[b] == before[b]);
                    }
                }
            }
        }
        proof {
            assert forall|p: PathView| #[trigger] path_set(r@).contains(p) <==> (exists|q: int| 0 <= q < k + 1 && used@[q]@ == p)
                && !name_set(defined@).contains(p.0) by {
                if exists|q: int| 0 <= q < k + 1 && used@[q]@ == p {
                    let q = choose|q: int| 0 <= q < k + 1 && used@[q]@ == p;
                    if q < k {
                        assert(exists|q2: int| 0 <= q2 < k && used@[q2]@ == p);
                    }
                }
            }
        }
        k = k + 1;
    }
    proof {
        assert forall|p: PathView| #[trigger] path_set(r@).contains(p) <==> paths_cfg(*cfg, p) && !defines(*cfg, p.0) by {
            if exists|q: int| 0 <= q < used.len() && used@[q]@ == p {
                let q = choose|q: int| 0 <= q < used.len() && used@[q]@ == p;
                assert(path_set(used@).contains(p));
            }
            if path_set(used@).contains(p) {
                let q = choose|q: int| 0 <= q < used@.len() && #[trigger] used@[q]@ == p;
            }
        }
    }
    r
}

} // verus!
