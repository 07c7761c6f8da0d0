//! Grafting a callee's CFG into a caller at a call site, and the hygienic
//! alpha-renaming that keeps the callee's locals from clobbering the
//! caller's: every variable bound inside the callee becomes `name#salt`,
//! while free variables are left alone so they still resolve in the caller.
//! Renaming is capture-aware: a nested function literal's own params shadow
//! the renaming inside its body.
use std::sync::Arc;

use vstd::prelude::*;
use vstd::string::StrSliceExecFns;
use vstd::string::StringExecFns;

use crate::cfg::{cfg_valid, find_block, has_edge, has_block, term_targets, BasicBlock, Edge, EdgeKind, Terminator, CFG};
use crate::source_range::SourceRange;
use crate::expr::{copy_prop_spans, copy_strings, copy_vec, Expr};
use crate::hooks::{DepsArg, DepsList, HookEntry};
use crate::stmt::{MemberKey, Stmt};
use crate::text::{decimal, decimal_string, find_char, str_eq};
use crate::types::{BlockId, Symbol, Var};

verus! {

broadcast use vstd::string::group_string_axioms;

/// Character separating a spliced callee-local's source name from its unique
/// salt (`count#3`). A JS identifier never contains it, so it unambiguously
/// marks a variable alpha-renamed by a splice.
pub const SPLICE_MARK: char = '#';

/// An alpha-rename map, `old name → fresh name`, as a list of pairs in which
/// no old name occurs twice.
pub type RenameMap = Vec<(Var, Var)>;

/// The old names of a rename map.
pub open spec fn rename_keys(ren: Seq<(Var, Var)>) -> Seq<Seq<char>> {
    ren.map_values(|p: (Var, Var)| p.0@)
}

/// The names of a list of variables.
pub open spec fn names(vs: Seq<Var>) -> Seq<Seq<char>> {
    vs.map_values(|p: Var| p@)
}

/// No old name occurs twice.
pub open spec fn rename_wf(ren: Seq<(Var, Var)>) -> bool {
    forall|i: int, j: int| 0 <= i < j < ren.len() ==> ren[i].0@ != ren[j].0@
}

/// What `v` is renamed to: the fresh name of its entry, or `v` itself when
/// the map has none.
pub open spec fn renamed(ren: Seq<(Var, Var)>, v: Seq<char>) -> Seq<char>
    decreases ren.len(),
{
    if ren.len() == 0 {
        v
    } else if ren[0].0@ == v {
        ren[0].1@
    } else {
        renamed(ren.drop_first(), v)
    }
}

/// The entries of `ren` whose old name is not among `params`, in order.
pub open spec fn without_spec(ren: Seq<(Var, Var)>, params: Seq<Var>) -> Seq<(Var, Var)>
    decreases ren.len(),
{
    if ren.len() == 0 {
        ren
    } else {
        let rest = without_spec(ren.drop_last(), params);
        if names(params).contains(ren.last().0@) {
            rest
        } else {
            rest.push(ren.last())
        }
    }
}

/// The name of `v` after renaming by `ren`.
pub fn rename_one(ren: &RenameMap, v: &Var) -> (r: Var)
    ensures
        r@ == renamed(ren@, v@),
{
    let mut i: usize = 0;
    assert(ren@.subrange(0, ren@.len() as int) =~= ren@);
    while i < ren.len()
        invariant
            i <= ren.len(),
            renamed(ren@, v@) == renamed(ren@.subrange(i as int, ren@.len() as int), v@),
        decreases ren.len() - i,
    {
        let ghost rest = ren@.subrange(i as int, ren@.len() as int);
        assert(rest[0] == ren@[i as int]);
        assert(rest.drop_first() =~= ren@.subrange(i + 1, ren@.len() as int));
        if str_eq(ren[i].0.as_str(), v.as_str()) {
            return ren[i].1.clone();
        }
        i = i + 1;
    }
    v.clone()
}

/// `true` iff `name` is one of `params`.
fn is_param(params: &[Var], name: &Var) -> (r: bool)
    ensures
        r <==> names(params@).contains(name@),
{
    let ghost views = names(params@);
    let mut i: usize = 0;
    while i < params.len()
        invariant
            i <= params.len(),
            views == names(params@),
            forall|k: int| 0 <= k < i ==> views[k] != name@,
        decreases params.len() - i,
    {
        if str_eq(params[i].as_str(), name.as_str()) {
            assert(views[i as int] == name@);
            return true;
        }
        i = i + 1;
    }
    false
}

/// `ren` without the entries a closure's own `params` shadow.
pub fn without(ren: &RenameMap, params: &[Var]) -> (r: RenameMap)
    ensures
        r@ == without_spec(ren@, params@),
{
    let mut r: RenameMap = Vec::new();
    let mut i: usize = 0;
    while i < ren.len()
        invariant
            i <= ren.len(),
            r@ == without_spec(ren@.subrange(0, i as int), params@),
        decreases ren.len() - i,
    {
        let ghost prefix = ren@.subrange(0, i + 1);
        assert(prefix.drop_last() =~= ren@.subrange(0, i as int));
        assert(prefix.last() == ren@[i as int]);
        if !is_param(params, &ren[i].0) {
            let k = ren[i].0.clone();
            let v = ren[i].1.clone();
            r.push((k, v));
        }
        i = i + 1;
    }
    assert(ren@.subrange(0, ren@.len() as int) =~= ren@);
    r
}

/// The source-level name of a variable: its characters before the first
/// splice mark, or all of them when there is none.
pub open spec fn source_name_spec(v: Seq<char>) -> Seq<char>
    decreases v.len(),
{
    if v.len() == 0 {
        v
    } else if v[0] == '#' {
        Seq::empty()
    } else {
        seq![v[0]] + source_name_spec(v.drop_first())
    }
}

/// The characters before the first splice mark are what
/// [`source_name_spec`] keeps.
proof fn lemma_source_name_prefix(v: Seq<char>, k: int)
    requires
        0 <= k <= v.len(),
        forall|i: int| 0 <= i < k ==> v[i] != SPLICE_MARK,
        k == v.len() || v[k] == SPLICE_MARK,
    ensures
        source_name_spec(v) == v.subrange(0, k),
    decreases v.len(),
{
    if v.len() > 0 && k > 0 {
        lemma_source_name_prefix(v.drop_first(), k - 1);
        assert(v.subrange(0, k) =~= seq![v[0]] + v.drop_first().subrange(0, k - 1));
    } else if v.len() > 0 {
        assert(v.subrange(0, k) =~= Seq::<char>::empty());
    }
}

/// The source-level name of a (possibly spliced-and-renamed) variable, for
/// display only: `count#3` → `count`, `count` → `count`.
pub fn source_name(var: &str) -> (r: &str)
    ensures
        r@ == source_name_spec(var@),
        !var@.contains(SPLICE_MARK) ==> r@ == var@,
        var@.contains(SPLICE_MARK) ==> {
            &&& r@.len() < var@.len()
            &&& r@ == var@.subrange(0, r@.len() as int)
            &&& var@[r@.len() as int] == SPLICE_MARK
            &&& !r@.contains(SPLICE_MARK)
        },
{
    match find_char(var, SPLICE_MARK) {
        Some(i) => {
            let r = var.substring_char(0, i);
            assert(var@.contains(SPLICE_MARK));
            proof { lemma_source_name_prefix(var@, i as int); }
            assert(!r@.contains(SPLICE_MARK)) by {
                if r@.contains(SPLICE_MARK) {
                    let k = choose|k: int| 0 <= k < r@.len() && r@[k] == SPLICE_MARK;
                    assert(var@[k] == SPLICE_MARK);
                }
            }
            r
        },
        None => {
            proof {
                lemma_source_name_prefix(var@, var@.len() as int);
                assert(var@.subrange(0, var@.len() as int) =~= var@);
            }
            var
        },
    }
}


// ── Fresh names ─────────────────────────────────────────────────────────────

/// The fresh name a splice with `salt` gives the callee-bound `v`.
pub open spec fn fresh_name(v: Seq<char>, salt: u32) -> Seq<char> {
    v + seq![SPLICE_MARK] + decimal(salt as nat)
}

/// `v` is the target of a `let` in some block of `c`.
pub open spec fn let_bound(c: CFG, v: Seq<char>) -> bool {
    exists|i: int, j: int|
        0 <= i < c.blocks.len() && 0 <= j < c.blocks@[i].stmts.len() && (
        #[trigger] c.blocks@[i].stmts@[j] matches Stmt::Let { var, .. } && var@ == v)
}

/// `true` iff some entry of `ren` has the old name `v`.
fn has_key(ren: &RenameMap, v: &Var) -> (r: bool)
    ensures
        r <==> rename_keys(ren@).contains(v@),
{
    let mut i: usize = 0;
    while i < ren.len()
        invariant
            i <= ren.len(),
            forall|k: int| 0 <= k < i ==> ren@[k].0@ != v@,
        decreases ren.len() - i,
    {
        if str_eq(ren[i].0.as_str(), v.as_str()) {
            assert(rename_keys(ren@)[i as int] == v@);
            return true;
        }
        i = i + 1;
    }
    proof {
        if rename_keys(ren@).contains(v@) {
            let k = choose|k: int| 0 <= k < rename_keys(ren@).len() && rename_keys(ren@)[k] == v@;
            assert(ren@[k].0@ == v@);
        }
    }
    false
}

/// Add `v ↦ v#salt` unless `v` already has an entry.
fn add_fresh(ren: &mut RenameMap, v: &Var, salt: u32)
    requires
        rename_wf(old(ren)@),
        forall|k: int| 0 <= k < old(ren)@.len() ==> #[trigger] old(ren)@[k].1@ == fresh_name(old(ren)@[k].0@, salt),
    ensures
        rename_wf(final(ren)@),
        forall|k: int| 0 <= k < final(ren)@.len() ==> #[trigger] final(ren)@[k].1@ == fresh_name(final(ren)@[k].0@, salt),
        forall|x: Seq<char>| rename_keys(final(ren)@).contains(x) <==> (rename_keys(old(ren)@).contains(x) || x == v@),
{
    if !has_key(ren, v) {
        let mut fresh = v.clone();
        fresh.append("#");
        proof { reveal_strlit("#"); }
        let digits = decimal_string(salt as usize);
        fresh.append(digits.as_str());
        assert(fresh@ =~= fresh_name(v@, salt));
        let ghost before = ren@;
        assert(before == old(ren)@);
        let ghost fresh_v = fresh@;
        let key = v.clone();
        ren.push((key, fresh));
        assert forall|k: int| 0 <= k < ren@.len() implies #[trigger] ren@[k].1@ == fresh_name(ren@[k].0@, salt) by {
            if k < before.len() {
                assert(ren@[k] == before[k]);
                assert(old(ren)@[k].1@ == fresh_name(old(ren)@[k].0@, salt));
            } else {
                assert(ren@[k].1@ == fresh_v);
                assert(ren@[k].0@ == v@);
            }
        }
        assert(rename_keys(ren@) =~= rename_keys(before).push(v@));
        assert forall|x: Seq<char>| rename_keys(ren@).contains(x) <==> (rename_keys(before).contains(x) || x == v@) by {
            let a = rename_keys(before);
            let b = rename_keys(ren@);
            if a.contains(x) {
                let k = choose|k: int| 0 <= k < a.len() && a[k] == x;
                assert(b[k] == x);
            }
            if x == v@ {
                assert(b[a.len() as int] == x);
            }
            if b.contains(x) {
                let k = choose|k: int| 0 <= k < b.len() && b[k] == x;
                if k < a.len() {
                    assert(a[k] == x);
                }
            }
        }
        assert forall|i: int, j: int| 0 <= i < j < ren@.len() implies ren@[i].0@ != ren@[j].0@ by {
            if j == ren@.len() - 1 {
                assert(rename_keys(before)[i] == ren@[i].0@);
            }
        }
    }
}

/// Fresh-name map for every variable bound inside `cfg`: its `params` plus
/// every `let` target, each renamed to `name#salt`. Assignments to variables
/// never `let`-bound in the callee are writes to an outer binding and stay
/// out. `salt` must be unique per splice within the final CFG.
#[verifier::loop_isolation(false)]
pub fn callee_rename_map(cfg: &CFG, params: &[Var], salt: u32) -> (r: RenameMap)
    ensures
        rename_wf(r@),
        forall|k: int| 0 <= k < r@.len() ==> #[trigger] r@[k].1@ == fresh_name(r@[k].0@, salt),
        forall|x: Seq<char>|
            #![trigger rename_keys(r@).contains(x)]
            #![trigger names(params@).contains(x)]
            #![trigger let_bound(*cfg, x)]
            rename_keys(r@).contains(x) <==> (names(params@).contains(x) || let_bound(*cfg, x)),
{
    let mut ren: RenameMap = Vec::new();
    let mut i: usize = 0;
    while i < params.len()
        invariant
            i <= params.len(),
            rename_wf(ren@),
            forall|k: int| 0 <= k < ren@.len() ==> #[trigger] ren@[k].1@ == fresh_name(ren@[k].0@, salt),
            forall|x: Seq<char>|
                rename_keys(ren@).contains(x) <==> names(params@.subrange(0, i as int)).contains(x),
        decreases params.len() - i,
    {
        add_fresh(&mut ren, &params[i], salt);
        assert forall|x: Seq<char>| rename_keys(ren@).contains(x) <==> names(params@.subrange(0, i + 1)).contains(x) by {
            let a = names(params@.subrange(0, i as int));
            let b = names(params@.subrange(0, i + 1));
            assert(b =~= a.push(params@[i as int]@));
            if a.contains(x) {
                let k = choose|k: int| 0 <= k < a.len() && a[k] == x;
                assert(b[k] == x);
            }
            if x == params@[i as int]@ {
                assert(b[a.len() as int] == x);
            }
            if b.contains(x) {
                let k = choose|k: int| 0 <= k < b.len() && b[k] == x;
                if k < a.len() {
                    assert(a[k] == x);
                }
            }
        }
        i = i + 1;
    }
    assert(params@.subrange(0, params@.len() as int) =~= params@);
    let mut bi: usize = 0;
    while bi < cfg.blocks.len()
        invariant
            bi <= cfg.blocks.len(),
            rename_wf(ren@),
            forall|k: int| 0 <= k < ren@.len() ==> #[trigger] ren@[k].1@ == fresh_name(ren@[k].0@, salt),
            forall|x: Seq<char>|
                rename_keys(ren@).contains(x) <==> (names(params@).contains(x)
                    || exists|i: int, j: int|
                    0 <= i < bi && 0 <= j < cfg.blocks@[i].stmts.len() && (
                    #[trigger] cfg.blocks@[i].stmts@[j] matches Stmt::Let { var, .. } && var@ == x)),
        decreases cfg.blocks.len() - bi,
    {
        let mut j: usize = 0;
        while j < cfg.blocks[bi].stmts.len()
            invariant
                bi < cfg.blocks.len(),
                j <= cfg.blocks@[bi as int].stmts.len(),
                rename_wf(ren@),
                forall|k: int| 0 <= k < ren@.len() ==> #[trigger] ren@[k].1@ == fresh_name(ren@[k].0@, salt),
                forall|x: Seq<char>|
                    rename_keys(ren@).contains(x) <==> (names(params@).contains(x)
                        || (exists|i: int, jj: int|
                        0 <= i < bi && 0 <= jj < cfg.blocks@[i].stmts.len() && (
                        #[trigger] cfg.blocks@[i].stmts@[jj] matches Stmt::Let { var, .. } && var@ == x))
                        || (exists|jj: int|
                        0 <= jj < j && (
                        #[trigger] cfg.blocks@[bi as int].stmts@[jj] matches Stmt::Let { var, .. } && var@ == x))),
            decreases cfg.blocks@[bi as int].stmts.len() - j,
        {
            if let Stmt::Let { var, .. } = &cfg.blocks[bi].stmts[j] {
                add_fresh(&mut ren, var, salt);
            }
            j = j + 1;
        }
        bi = bi + 1;
    }
    ren
}

// ── Renaming, as a relation between a body and its copy ─────────────────────

/// `r` is `e` with every variable renamed by `ren`, capture-aware: inside a
/// function literal the literal's own params are dropped from the map.
pub open spec fn renames_expr(e: Expr, r: Expr, ren: Seq<(Var, Var)>) -> bool
    decreases e,
{
    match e {
        Expr::Var(v) => match r {
            Expr::Var(w) => w@ == renamed(ren, v@),
            _ => false,
        },
        Expr::ObjectLit { id, fields } => match r {
            Expr::ObjectLit { id: rid, fields: rf } => {
                &&& rid == id
                &&& rf.len() == fields.len()
                &&& forall|i: int|
                    0 <= i < fields.len() ==> renames_field(#[trigger] fields@[i], rf@[i], ren)
            },
            _ => false,
        },
        Expr::ArrayLit { id, elems, arity, spread_at } => match r {
            Expr::ArrayLit { id: rid, elems: re, arity: ra, spread_at: rs } => {
                &&& rid == id
                &&& ra == arity
                &&& rs@ == spread_at@
                &&& re.len() == elems.len()
                &&& forall|i: int|
                    0 <= i < elems.len() ==> renames_expr(#[trigger] elems@[i], re@[i], ren)
            },
            _ => false,
        },
        Expr::FnLit { id, params, body_cfg } => match r {
            Expr::FnLit { id: rid, params: rp, body_cfg: rb } => {
                &&& rid == id
                &&& rp@ == params@
                &&& renames_cfg(*body_cfg, *rb, without_spec(ren, params@))
            },
            _ => false,
        },
        Expr::FieldAccess { obj, field } => match r {
            Expr::FieldAccess { obj: ro, field: rf } => rf == field && renames_expr(*obj, *ro, ren),
            _ => false,
        },
        Expr::IndexAccess { arr, idx } => match r {
            Expr::IndexAccess { arr: ra, idx: ri } => renames_expr(*arr, *ra, ren) && renames_expr(
                *idx,
                *ri,
                ren,
            ),
            _ => false,
        },
        Expr::BinOp { op, lhs, rhs } => match r {
            Expr::BinOp { op: rop, lhs: rl, rhs: rr } => {
                &&& rop == op
                &&& renames_expr(*lhs, *rl, ren)
                &&& renames_expr(*rhs, *rr, ren)
            },
            _ => false,
        },
        Expr::UnaryOp { op, arg } => match r {
            Expr::UnaryOp { op: rop, arg: ra } => rop == op && renames_expr(*arg, *ra, ren),
            _ => false,
        },
        Expr::Call { fn_, args } => match r {
            Expr::Call { fn_: rfn, args: ra } => {
                &&& renames_expr(*fn_, *rfn, ren)
                &&& ra.len() == args.len()
                &&& forall|i: int|
                    0 <= i < args.len() ==> renames_expr(#[trigger] args@[i], ra@[i], ren)
            },
            _ => false,
        },
        Expr::CompApp { name, props, span } => match r {
            Expr::CompApp { name: rn, props: rp, span: rs } => {
                &&& rn == name
                &&& rs == span
                &&& renames_expr(*props, *rp, ren)
            },
            _ => false,
        },
        Expr::NativeElem { tag, props, children, span, prop_spans } => match r {
            Expr::NativeElem {
                tag: rt,
                props: rp,
                children: rc,
                span: rs,
                prop_spans: rps,
            } => {
                &&& rt == tag
                &&& rs == span
                &&& rps@ == prop_spans@
                &&& renames_expr(*props, *rp, ren)
                &&& rc.len() == children.len()
                &&& forall|i: int|
                    0 <= i < children.len() ==> renames_expr(#[trigger] children@[i], rc@[i], ren)
            },
            _ => false,
        },
        Expr::TSAnnotated(inner) => match r {
            Expr::TSAnnotated(ri) => renames_expr(*inner, *ri, ren),
            _ => false,
        },
        _ => r == e,
    }
}

/// `g` is the object member `f` with its value renamed; the key is equal.
pub open spec fn renames_field(f: (Symbol, Expr), g: (Symbol, Expr), ren: Seq<(Var, Var)>) -> bool
    decreases f,
{
    g.0 == f.0 && renames_expr(f.1, g.1, ren)
}

/// `r` is `s` renamed: binding targets and reads alike.
pub open spec fn renames_stmt(s: Stmt, r: Stmt, ren: Seq<(Var, Var)>) -> bool
    decreases s,
{
    match s {
        Stmt::Let { var, rhs, span } => match r {
            Stmt::Let { var: rv, rhs: rr, span: rs } => {
                &&& rv@ == renamed(ren, var@)
                &&& rs == span
                &&& renames_expr(rhs, rr, ren)
            },
            _ => false,
        },
        Stmt::Assign { var, rhs, span } => match r {
            Stmt::Assign { var: rv, rhs: rr, span: rs } => {
                &&& rv@ == renamed(ren, var@)
                &&& rs == span
                &&& renames_expr(rhs, rr, ren)
            },
            _ => false,
        },
        Stmt::MemberWrite { obj, key, rhs, span } => match r {
            Stmt::MemberWrite { obj: ro, key: rk, rhs: rr, span: rs } => {
                &&& rs == span
                &&& renames_expr(obj, ro, ren)
                &&& renames_expr(rhs, rr, ren)
                &&& match key {
                    MemberKey::Field(f) => rk == MemberKey::Field(f),
                    MemberKey::Index(i) => match rk {
                        MemberKey::Index(ri) => renames_expr(i, ri, ren),
                        _ => false,
                    },
                }
            },
            _ => false,
        },
        Stmt::ExprStmt(e, span) => match r {
            Stmt::ExprStmt(re, rs) => rs == span && renames_expr(e, re, ren),
            _ => false,
        },
    }
}

/// `r` is `t` with its expression renamed; targets and spans equal.
pub open spec fn renames_term(t: Terminator, r: Terminator, ren: Seq<(Var, Var)>) -> bool
    decreases t,
{
    match t {
        Terminator::Branch { cond, then_, else_, span } => match r {
            Terminator::Branch { cond: rc, then_: rt, else_: re, span: rs } => {
                &&& rt == then_
                &&& re == else_
                &&& rs == span
                &&& renames_expr(cond, rc, ren)
            },
            _ => false,
        },
        Terminator::Return(e) => match r {
            Terminator::Return(re) => renames_expr(e, re, ren),
            _ => false,
        },
        _ => r == t,
    }
}

/// `r` is block `b` renamed.
pub open spec fn renames_block(b: BasicBlock, r: BasicBlock, ren: Seq<(Var, Var)>) -> bool
    decreases b,
{
    &&& r.id == b.id
    &&& r.stmts.len() == b.stmts.len()
    &&& forall|j: int|
        0 <= j < b.stmts.len() ==> renames_stmt(#[trigger] b.stmts@[j], r.stmts@[j], ren)
    &&& renames_term(b.term, r.term, ren)
}

/// `r` is `c` renamed block by block; entry, block ids and edges equal.
pub open spec fn renames_cfg(c: CFG, r: CFG, ren: Seq<(Var, Var)>) -> bool
    decreases c,
{
    &&& r.entry == c.entry
    &&& r.edges@ == c.edges@
    &&& r.blocks.len() == c.blocks.len()
    &&& forall|i: int|
        0 <= i < c.blocks.len() ==> renames_block(#[trigger] c.blocks@[i], r.blocks@[i], ren)
}

/// `r` is a deps argument with its elements renamed.
pub open spec fn renames_deps(d: DepsArg, r: DepsArg, ren: Seq<(Var, Var)>) -> bool {
    match d {
        DepsArg::List(l) => match r {
            DepsArg::List(rl) => {
                &&& rl.arity == l.arity
                &&& rl.spread_at@ == l.spread_at@
                &&& rl.elems.len() == l.elems.len()
                &&& forall|i: int|
                    0 <= i < l.elems.len() ==> renames_expr(#[trigger] l.elems@[i], rl.elems@[i], ren)
            },
            _ => false,
        },
        DepsArg::Absent => r is Absent,
        DepsArg::Opaque => r is Opaque,
    }
}

/// `r` is the hook entry `h` with everything it captures from the enclosing
/// scope renamed: initializers, bodies, arguments and deps. A callback's
/// own params shadow inside its body; its deps see the full map.
pub open spec fn renames_hook(h: HookEntry, r: HookEntry, ren: Seq<(Var, Var)>) -> bool {
    &&& r.spec_label() == h.spec_label()
    &&& r.spec_span() == h.spec_span()
    &&& match h {
        HookEntry::State { init, .. } => match r {
            HookEntry::State { init: ri, .. } => renames_expr(init, ri, ren),
            _ => false,
        },
        HookEntry::Ref { init, .. } => match r {
            HookEntry::Ref { init: ri, .. } => renames_expr(init, ri, ren),
            _ => false,
        },
        HookEntry::Effect { body_cfg, deps, .. } => match r {
            HookEntry::Effect { body_cfg: rb, deps: rd, .. } => renames_cfg(body_cfg, rb, ren)
                && renames_deps(deps, rd, ren),
            _ => false,
        },
        HookEntry::Memo { body_cfg, deps, .. } => match r {
            HookEntry::Memo { body_cfg: rb, deps: rd, .. } => renames_cfg(body_cfg, rb, ren)
                && renames_deps(deps, rd, ren),
            _ => false,
        },
        HookEntry::Callback { body_cfg, params, deps, .. } => match r {
            HookEntry::Callback { body_cfg: rb, params: rp, deps: rd, .. } => {
                &&& renames_cfg(body_cfg, rb, without_spec(ren, params@))
                &&& rp@ == params@
                &&& renames_deps(deps, rd, ren)
            },
            _ => false,
        },
        HookEntry::Custom { name, args, deps, binding, import_source, resolved_file, .. } => match r {
            HookEntry::Custom {
                name: rn,
                args: ra,
                deps: rd,
                binding: rbind,
                import_source: ris,
                resolved_file: rrf,
                ..
            } => {
                &&& rn == name
                &&& rbind == binding
                &&& ris == import_source
                &&& rrf == resolved_file
                &&& renames_deps(deps, rd, ren)
                &&& ra.len() == args.len()
                &&& forall|i: int|
                    0 <= i < args.len() ==> renames_expr(#[trigger] args@[i], ra@[i], ren)
            },
            _ => false,
        },
        HookEntry::Handler { event, body_cfg, .. } => match r {
            HookEntry::Handler { event: re, body_cfg: rb, .. } => re == event && renames_cfg(
                body_cfg,
                rb,
                ren,
            ),
            _ => false,
        },
    }
}

// ── The splice ─────────────────────────────────────────────────────────────

/// The callee side of a splice: what to graft in and how to bind it.
///
/// `params` and `args` are zipped into `let param = arg;` bindings prepended
/// to the callee's entry block (extra params or args are ignored, as in JS).
/// `bound_var` receives the callee's returned value (`None` discards it).
/// `rename` maps each callee-bound variable to its fresh name (built with
/// [`callee_rename_map`] from the same params and body). `callee` must
/// already carry its shifted hook labels; the splice renumbers blocks and
/// renames variables only.
pub struct Splice<'a> {
    pub callee: CFG,
    pub params: &'a [Var],
    pub args: &'a [Expr],
    pub bound_var: Option<&'a Var>,
    pub rename: &'a RenameMap,
}

/// Block `i` of a callee lowered with fresh ids carries id `i`.
pub open spec fn dense_ids(c: CFG) -> bool {
    forall|i: int| 0 <= i < c.blocks.len() ==> #[trigger] c.blocks@[i].id == i
}

/// Where a splice puts the callee's blocks: one past the caller's highest id.
pub open spec fn graft_offset(blocks: Seq<BasicBlock>) -> nat {
    if blocks.len() == 0 {
        0
    } else {
        (blocks.last().id + 1) as nat
    }
}

/// Every id the callee names, shifted by `off`, is still a `usize`.
pub open spec fn graft_fits(callee: CFG, off: nat) -> bool {
    &&& off + callee.blocks.len() <= usize::MAX
    &&& callee.entry + off <= usize::MAX
    &&& forall|k: int|
        0 <= k < callee.edges.len() ==> #[trigger] callee.edges@[k].from + off <= usize::MAX
            && callee.edges@[k].to + off <= usize::MAX
    &&& forall|i: int, j: int|
        0 <= i < callee.blocks.len() && 0 <= j < term_targets(callee.blocks@[i].term).len()
            ==> #[trigger] term_targets(callee.blocks@[i].term)[j] + off <= usize::MAX
}

/// Whether a graft of `callee` one past the last of `caller_blocks` keeps
/// every id it names a `usize`.
pub fn graft_ok(callee: &CFG, caller_blocks: &Vec<BasicBlock>) -> (r: bool)
    ensures
        r == graft_fits(*callee, graft_offset(caller_blocks@)),
{
    let off: usize = if caller_blocks.len() == 0 {
        0
    } else {
        let last = caller_blocks[caller_blocks.len() - 1].id;
        if last == usize::MAX {
            return false;
        }
        last + 1
    };
    assert(off == graft_offset(caller_blocks@));
    if callee.blocks.len() > usize::MAX - off || callee.entry > usize::MAX - off {
        return false;
    }
    let mut k: usize = 0;
    while k < callee.edges.len()
        invariant
            k <= callee.edges.len(),
            off == graft_offset(caller_blocks@),
            forall|q: int| 0 <= q < k ==> #[trigger] callee.edges@[q].from + off <= usize::MAX && callee.edges@[q].to + off <= usize::MAX,
        decreases callee.edges.len() - k,
    {
        if callee.edges[k].from > usize::MAX - off || callee.edges[k].to > usize::MAX - off {
            return false;
        }
        k = k + 1;
    }
    let mut i: usize = 0;
    while i < callee.blocks.len()
        invariant
            i <= callee.blocks.len(),
            off == graft_offset(caller_blocks@),
            forall|a: int, j: int|
                0 <= a < i && 0 <= j < term_targets(callee.blocks@[a].term).len() ==> #[trigger] term_targets(callee.blocks@[a].term)[j] + off <= usize::MAX,
        decreases callee.blocks.len() - i,
    {
        match &callee.blocks[i].term {
            Terminator::Jump(b) => {
                if *b > usize::MAX - off {
                    assert(term_targets(callee.blocks@[i as int].term)[0] == *b);
                    return false;
                }
            },
            Terminator::Branch { then_, else_, .. } => {
                if *then_ > usize::MAX - off {
                    assert(term_targets(callee.blocks@[i as int].term)[0] == *then_);
                    return false;
                }
                if *else_ > usize::MAX - off {
                    assert(term_targets(callee.blocks@[i as int].term)[1] == *else_);
                    return false;
                }
            },
            _ => {},
        }
        i = i + 1;
    }
    true
}

/// The position of the block carrying `id`.
pub open spec fn block_pos(blocks: Seq<BasicBlock>, id: BlockId) -> int {
    choose|i: int| 0 <= i < blocks.len() && blocks[i].id == id
}

/// `lets` binds each renamed param to a copy of its argument, at the call
/// site, for as many pairs as both lists have.
pub open spec fn param_lets(
    lets: Seq<Stmt>,
    params: Seq<Var>,
    args: Seq<Expr>,
    ren: Seq<(Var, Var)>,
    span: Option<SourceRange>,
) -> bool {
    &&& lets.len() == (if params.len() <= args.len() {
        params.len()
    } else {
        args.len()
    })
    &&& forall|k: int|
        0 <= k < lets.len() ==> match #[trigger] lets[k] {
            Stmt::Let { var, rhs, span: s } => {
                &&& var@ == renamed(ren, params[k]@)
                &&& renames_expr(args[k], rhs, Seq::empty())
                &&& s == span
            },
            _ => false,
        }
}

/// `r` is the callee terminator `t` as grafted: block targets shifted by
/// `off`, a return turned into a jump to the join block.
pub open spec fn grafted_term(
    t: Terminator,
    r: Terminator,
    off: nat,
    join: BlockId,
    ren: Seq<(Var, Var)>,
) -> bool {
    match t {
        Terminator::Jump(x) => r == Terminator::Jump((x + off) as usize),
        Terminator::Branch { cond, then_, else_, span } => match r {
            Terminator::Branch { cond: rc, then_: rt, else_: re, span: rs } => {
                &&& rt == then_ + off
                &&& re == else_ + off
                &&& rs == span
                &&& renames_expr(cond, rc, ren)
            },
            _ => false,
        },
        Terminator::Return(_) => r == Terminator::Jump(join),
        Terminator::Unreachable => r == Terminator::Unreachable,
    }
}

/// `nb` is the callee block `cb` as grafted: id shifted, `lets` first (the
/// param bindings, entry block only), then the renamed statements, then, for
/// a returning block with a bound variable, the assignment of the returned
/// value at the call site; its terminator as [`grafted_term`] says.
pub open spec fn grafted_block(
    cb: BasicBlock,
    nb: BasicBlock,
    lets: Seq<Stmt>,
    off: nat,
    join: BlockId,
    ren: Seq<(Var, Var)>,
    bound: Option<Seq<char>>,
    call_span: Option<SourceRange>,
) -> bool {
    let p = lets.len();
    let n = cb.stmts.len();
    let binds = cb.term is Return && bound is Some;
    &&& nb.id == cb.id + off
    &&& nb.stmts.len() == p + n + (if binds {
        1int
    } else {
        0
    })
    &&& nb.stmts@.subrange(0, p as int) == lets
    &&& forall|j: int| 0 <= j < n ==> renames_stmt(#[trigger] cb.stmts@[j], nb.stmts@[p + j], ren)
    &&& binds ==> match nb.stmts@[p + n] {
        Stmt::Assign { var, rhs, span } => {
            &&& var@ == bound->0
            &&& (cb.term matches Terminator::Return(e) && renames_expr(e, rhs, ren))
            &&& span == call_span
        },
        _ => false,
    }
    &&& grafted_term(cb.term, nb.term, off, join, ren)
}

/// `edges` with every edge leaving `from` made to leave `to` instead.
pub open spec fn redirected(edges: Seq<Edge>, from: BlockId, to: BlockId) -> Seq<Edge> {
    edges.map_values(
        |e: Edge|
            if e.from == from {
                Edge { from: to, to: e.to, kind: e.kind }
            } else {
                e
            },
    )
}

/// `edges` with both ends shifted by `off`, kinds kept.
pub open spec fn shifted_edges(edges: Seq<Edge>, off: nat) -> Seq<Edge> {
    edges.map_values(
        |e: Edge| Edge { from: (e.from + off) as usize, to: (e.to + off) as usize, kind: e.kind },
    )
}

/// One edge to the join block from each returning callee block, in block
/// order.
pub open spec fn return_edges(blocks: Seq<BasicBlock>, off: nat, join: BlockId) -> Seq<Edge>
    decreases blocks.len(),
{
    if blocks.len() == 0 {
        Seq::empty()
    } else {
        let prev = return_edges(blocks.drop_last(), off, join);
        if blocks.last().term is Return {
            prev.push(
                Edge { from: (blocks.last().id + off) as usize, to: join, kind: EdgeKind::Unconditional },
            )
        } else {
            prev
        }
    }
}

/// How many param bindings a splice prepends: one per `(param, arg)` pair.
pub open spec fn pair_count(params: Seq<Var>, args: Seq<Expr>) -> nat {
    if params.len() <= args.len() {
        params.len()
    } else {
        args.len()
    }
}

/// The call site's span: that of the statement at `stmt_idx`, if any.
pub open spec fn call_span_of(stmts: Seq<Stmt>, stmt_idx: nat) -> Option<SourceRange> {
    if stmt_idx < stmts.len() {
        stmts[stmt_idx as int].spec_span()
    } else {
        None
    }
}

/// The statements after the call: those past `stmt_idx`.
pub open spec fn post_call(stmts: Seq<Stmt>, stmt_idx: nat) -> Seq<Stmt> {
    if stmt_idx < stmts.len() {
        stmts.subrange(stmt_idx + 1int, stmts.len() as int)
    } else {
        Seq::empty()
    }
}

/// The bound variable's name, if any.
pub open spec fn bound_name(bound_var: Option<&Var>) -> Option<Seq<char>> {
    match bound_var {
        Some(v) => Some(v@),
        None => None,
    }
}

/// `new` is `old` with the call statement at `stmt_idx` of block `block_id`
/// replaced by the callee's body: the block keeps the statements before the
/// call and jumps to the shifted callee entry; the callee's blocks follow,
/// grafted as [`grafted_block`] says, the param bindings opening its entry
/// block; a fresh join block at `join` carries the statements after the
/// call and the block's old terminator. Edges: the block's old out-edges now
/// leave the join block, then the edge into the callee, the callee's own
/// edges shifted, and one edge from each returning callee block to the join.
pub open spec fn spliced(
    old: CFG,
    new: CFG,
    block_id: BlockId,
    stmt_idx: nat,
    callee: CFG,
    params: Seq<Var>,
    args: Seq<Expr>,
    bound: Option<Seq<char>>,
    ren: Seq<(Var, Var)>,
) -> bool {
    let off = graft_offset(old.blocks@);
    let n = callee.blocks.len();
    let join = (off + n) as usize;
    let pos = block_pos(old.blocks@, block_id);
    let ob = old.blocks@[pos];
    let m = old.blocks.len();
    let span = call_span_of(ob.stmts@, stmt_idx);
    let lets = new.blocks@[m + callee.entry].stmts@.subrange(0, pair_count(params, args) as int);
    &&& new.entry == old.entry
    &&& new.blocks.len() == m + n + 1
    &&& forall|k: int| 0 <= k < m && k != pos ==> #[trigger] new.blocks@[k] == old.blocks@[k]
    &&& new.blocks@[pos].id == block_id
    &&& new.blocks@[pos].stmts@ == ob.stmts@.subrange(0, stmt_idx as int)
    &&& new.blocks@[pos].term == Terminator::Jump((callee.entry + off) as usize)
    &&& param_lets(lets, params, args, ren, span)
    &&& forall|i: int|
        0 <= i < n ==> grafted_block(
            #[trigger] callee.blocks@[i],
            new.blocks@[m + i],
            if i == callee.entry {
                lets
            } else {
                Seq::empty()
            },
            off,
            join,
            ren,
            bound,
            span,
        )
    &&& new.blocks@[m + n].id == join
    &&& new.blocks@[m + n].stmts@ == post_call(ob.stmts@, stmt_idx)
    &&& new.blocks@[m + n].term == ob.term
    &&& new.edges@ == redirected(old.edges@, block_id, join) + seq![
        Edge { from: block_id, to: (callee.entry + off) as usize, kind: EdgeKind::Unconditional },
    ] + shifted_edges(callee.edges@, off) + return_edges(callee.blocks@, off, join)
}

/// Splice `splice.callee` into `caller`, replacing the call statement at
/// `(block_id, stmt_idx)`.
///
/// Returns the half-open block-id range the callee's blocks landed in (the
/// join block just past it belongs to the caller), or `None` when the splice
/// was skipped: a callee without its entry block, or a call site naming a
/// block that is not there. Both are checked before anything is changed, so
/// a skipped splice leaves the caller intact.
#[verifier::loop_isolation(false)]
#[verifier::spinoff_prover]
#[verifier::rlimit(60)]
pub fn splice_callee_into_cfg(
    caller: &mut CFG,
    block_id: BlockId,
    stmt_idx: usize,
    splice: Splice<'_>,
) -> (r: Option<std::ops::Range<BlockId>>)
    requires
        old(caller).blocks_wf(),
        dense_ids(splice.callee),
        has_block(old(caller).blocks@, block_id) ==> stmt_idx <= old(caller).blocks@[block_pos(
            old(caller).blocks@,
            block_id,
        )].stmts.len(),
        graft_fits(splice.callee, graft_offset(old(caller).blocks@)),
    ensures
        !has_block(splice.callee.blocks@, splice.callee.entry) || !has_block(
            old(caller).blocks@,
            block_id,
        ) ==> r is None && *final(caller) == *old(caller),
        has_block(splice.callee.blocks@, splice.callee.entry) && has_block(
            old(caller).blocks@,
            block_id,
        ) ==> {
            &&& r matches Some(range) && range.start == graft_offset(old(caller).blocks@)
                && range.end == graft_offset(old(caller).blocks@) + splice.callee.blocks.len()
            &&& final(caller).blocks_wf()
            &&& spliced(
                *old(caller),
                *final(caller),
                block_id,
                stmt_idx as nat,
                splice.callee,
                splice.params@,
                splice.args@,
                bound_name(splice.bound_var),
                splice.rename@,
            )
        },
{
    let ghost callee0 = splice.callee;
    let ghost old_caller = *caller;
    let Splice { callee, params, args, bound_var, rename } = splice;
    let ghost ren = rename@;
    let callee_r = rename_vars_cfg(callee, rename);
    let ghost rb0 = callee_r.blocks@;
    assert(has_block(callee_r.blocks@, callee_r.entry) <==> has_block(callee0.blocks@, callee0.entry)) by {
        if has_block(callee0.blocks@, callee0.entry) {
            let i = choose|i: int| 0 <= i < callee0.blocks@.len() && #[trigger] callee0.blocks@[i].id == callee0.entry;
            assert(renames_block(callee0.blocks@[i], callee_r.blocks@[i], ren));
            assert(callee_r.blocks@[i].id == callee_r.entry);
        }
        if has_block(callee_r.blocks@, callee_r.entry) {
            let i = choose|i: int| 0 <= i < callee_r.blocks@.len() && #[trigger] callee_r.blocks@[i].id == callee_r.entry;
            assert(renames_block(callee0.blocks@[i], callee_r.blocks@[i], ren));
            assert(callee0.blocks@[i].id == callee0.entry);
        }
    }
    // Both preconditions are checked before anything is mutated.
    if find_block(&callee_r.blocks, callee_r.entry).is_none() {
        return None;
    }
    let pos = match find_block(&caller.blocks, block_id) {
        Some(p) => p,
        None => { return None; },
    };
    assert(block_pos(old_caller.blocks@, block_id) == pos as int) by {
        let q = block_pos(old_caller.blocks@, block_id);
        if q != pos as int {
            if q < pos as int {
                assert(old_caller.blocks@[q].id < old_caller.blocks@[pos as int].id);
            } else {
                assert(old_caller.blocks@[pos as int].id < old_caller.blocks@[q].id);
            }
        }
    }
    let m = caller.blocks.len();
    let off: usize = caller.blocks[m - 1].id + 1;
    let n = callee_r.blocks.len();
    let join: BlockId = off + n;
    let callee_entry = callee_r.entry;
    let entry: BlockId = callee_entry + off;
    let ghost bound = bound_name(bound_var);

    // The renamed params, in order.
    let mut renamed_params: Vec<Var> = Vec::new();
    let mut k: usize = 0;
    while k < params.len()
        invariant
            k <= params.len(),
            renamed_params.len() == k,
            forall|t: int| 0 <= t < k ==> #[trigger] renamed_params@[t]@ == renamed(ren, params@[t]@),
        decreases params.len() - k,
    {
        renamed_params.push(rename_one(rename, &params[k]));
        k = k + 1;
    }

    // Split the caller block at the call site: the statements before it stay,
    // the call statement is dropped, the ones after it move to the join block.
    let old_block = caller.blocks.remove(pos);
    let BasicBlock { id: bid, stmts: mut pre, term: old_term } = old_block;
    let ghost ob_stmts = pre@;
    let mut post = pre.split_off(stmt_idx);
    let call_span = if post.len() > 0 {
        post[0].span()
    } else {
        None
    };
    if post.len() > 0 {
        let _ = post.remove(0);
    }
    assert(post@ == post_call(ob_stmts, stmt_idx as nat));
    assert(call_span == call_span_of(ob_stmts, stmt_idx as nat));
    caller.blocks.insert(pos, BasicBlock { id: bid, stmts: pre, term: Terminator::Jump(entry) });
    let ghost head = caller.blocks@;

    // The param bindings: `let renamed_param = arg;` at the call site.
    let empty: RenameMap = Vec::new();
    let mut lets: Vec<Stmt> = Vec::new();
    let mut k: usize = 0;
    while k < params.len() && k < args.len()
        invariant
            k <= params.len(),
            k <= args.len(),
            lets.len() == k,
            forall|t: int| 0 <= t < k ==> match #[trigger] lets@[t] {
                Stmt::Let { var, rhs, span: s } => {
                    &&& var@ == renamed(ren, params@[t]@)
                    &&& renames_expr(args@[t], rhs, Seq::empty())
                    &&& s == call_span
                },
                _ => false,
            },
        decreases params.len() - k,
    {
        let v = renamed_params[k].clone();
        let a = renamed_expr(&args[k], &empty);
        lets.push(Stmt::Let { var: v, rhs: a, span: call_span });
        k = k + 1;
    }
    let ghost lets0 = lets@;
    assert(param_lets(lets0, params@, args@, ren, call_span));

    // The callee's blocks, shifted past the caller's, returns rewritten into
    // jumps to the join block.
    let CFG { entry: _, blocks: mut cblocks, edges: cedges } = callee_r;
    let mut ret_edges: Vec<Edge> = Vec::new();
    let mut i: usize = 0;
    while i < n
        invariant
            i <= n,
            n == rb0.len(),
            cblocks@ == rb0.subrange(i as int, n as int),
            caller.blocks.len() == m + i,
            caller.blocks@.subrange(0, m as int) == head,
            caller.entry == old_caller.entry,
            caller.edges@ == old_caller.edges@,
            lets@ == (if i <= callee_entry {
                lets0
            } else {
                Seq::<Stmt>::empty()
            }),
            ret_edges@ == return_edges(callee0.blocks@.subrange(0, i as int), off as nat, join),
            forall|t: int|
                0 <= t < i ==> grafted_block(
                    #[trigger] callee0.blocks@[t],
                    caller.blocks@[m + t],
                    if t == callee_entry {
                        lets0
                    } else {
                        Seq::empty()
                    },
                    off as nat,
                    join,
                    ren,
                    bound,
                    call_span,
                ),
        decreases n - i,
    {
        let b = cblocks.remove(0);
        assert(b == rb0[i as int]);
        let ghost cb = callee0.blocks@[i as int];
        assert(renames_block(cb, b, ren));
        let BasicBlock { id, stmts, term } = b;
        let mut stmts = stmts;
        let ghost rstmts = stmts@;
        let new_term = match term {
            Terminator::Jump(t) => {
                assert(term_targets(cb.term)[0] == t);
                Terminator::Jump(t + off)
            },
            Terminator::Branch { cond, then_, else_, span } => {
                assert(term_targets(cb.term)[0] == then_);
                assert(term_targets(cb.term)[1] == else_);
                Terminator::Branch { cond, then_: then_ + off, else_: else_ + off, span }
            },
            Terminator::Return(ret) => {
                match bound_var {
                    Some(v) => {
                        stmts.push(Stmt::Assign { var: v.clone(), rhs: ret, span: call_span });
                    },
                    None => {},
                }
                ret_edges.push(Edge { from: id + off, to: join, kind: EdgeKind::Unconditional });
                Terminator::Jump(join)
            },
            Terminator::Unreachable => Terminator::Unreachable,
        };
        let ghost s_mid = stmts@;
        let stmts2 = if i == callee_entry {
            let mut s2: Vec<Stmt> = Vec::new();
            std::mem::swap(&mut s2, &mut lets);
            s2.append(&mut stmts);
            s2
        } else {
            stmts
        };
        caller.blocks.push(BasicBlock { id: id + off, stmts: stmts2, term: new_term });
        proof {
            let rb = rb0[i as int];
            let lp = if i == callee_entry {
                lets0
            } else {
                Seq::<Stmt>::empty()
            };
            let nb = caller.blocks@[m + i];
            assert(nb.stmts@ =~= lp + s_mid);
            assert(nb.stmts@.subrange(0, lp.len() as int) =~= lp);
            assert forall|j: int| 0 <= j < cb.stmts.len() implies renames_stmt(
                #[trigger] cb.stmts@[j],
                nb.stmts@[lp.len() + j],
                ren,
            ) by {
                assert(renames_stmt(cb.stmts@[j], rb.stmts@[j], ren));
                assert(nb.stmts@[lp.len() + j] == s_mid[j]);
                assert(s_mid[j] == rstmts[j]);
            }
            assert(grafted_block(cb, nb, lp, off as nat, join, ren, bound, call_span));
        }
        proof {
            assert(callee0.blocks@.subrange(0, i + 1).drop_last() =~= callee0.blocks@.subrange(0, i as int));
            assert(cblocks@ =~= rb0.subrange(i + 1, n as int));
            assert(caller.blocks@.subrange(0, m as int) =~= head);
        }
        i = i + 1;
    }
    assert(callee0.blocks@.subrange(0, n as int) =~= callee0.blocks@);
    caller.blocks.push(BasicBlock { id: join, stmts: post, term: old_term });
    let ghost final_blocks = caller.blocks@;
    let ghost final_entry = caller.entry;

    // Edges: the block's old out-edges now leave the join block.
    let ghost old_edges = caller.edges@;
    let mut k: usize = 0;
    while k < caller.edges.len()
        invariant
            caller.blocks@ == final_blocks,
            caller.entry == final_entry,
            caller.edges.len() == old_edges.len(),
            k <= old_edges.len(),
            forall|t: int|
                0 <= t < k ==> #[trigger] caller.edges@[t] == (if old_edges[t].from == block_id {
                    Edge { from: join, to: old_edges[t].to, kind: old_edges[t].kind }
                } else {
                    old_edges[t]
                }),
            forall|t: int| k <= t < old_edges.len() ==> #[trigger] caller.edges@[t] == old_edges[t],
        decreases old_edges.len() - k,
    {
        let e = caller.edges[k];
        if e.from == block_id {
            caller.edges[k] = Edge { from: join, to: e.to, kind: e.kind };
        }
        k = k + 1;
    }
    assert(caller.edges@ =~= redirected(old_edges, block_id, join));
    caller.edges.push(Edge { from: block_id, to: entry, kind: EdgeKind::Unconditional });
    let ghost mid = caller.edges@;
    let mut k: usize = 0;
    while k < cedges.len()
        invariant
            caller.blocks@ == final_blocks,
            caller.entry == final_entry,
            k <= cedges.len(),
            cedges@ == callee0.edges@,
            caller.edges@ == mid + shifted_edges(cedges@.subrange(0, k as int), off as nat),
        decreases cedges.len() - k,
    {
        let e = cedges[k];
        caller.edges.push(Edge { from: e.from + off, to: e.to + off, kind: e.kind });
        assert(shifted_edges(cedges@.subrange(0, k + 1), off as nat) =~= shifted_edges(
            cedges@.subrange(0, k as int),
            off as nat,
        ).push(Edge { from: (e.from + off) as usize, to: (e.to + off) as usize, kind: e.kind }));
        k = k + 1;
    }
    assert(cedges@.subrange(0, cedges@.len() as int) =~= cedges@);
    let ghost mid2 = caller.edges@;
    let mut k: usize = 0;
    while k < ret_edges.len()
        invariant
            caller.blocks@ == final_blocks,
            caller.entry == final_entry,
            k <= ret_edges.len(),
            caller.edges@ == mid2 + ret_edges@.subrange(0, k as int),
        decreases ret_edges.len() - k,
    {
        caller.edges.push(ret_edges[k]);
        assert(ret_edges@.subrange(0, k + 1) =~= ret_edges@.subrange(0, k as int).push(ret_edges@[k as int]));
        k = k + 1;
    }
    assert(ret_edges@.subrange(0, ret_edges@.len() as int) =~= ret_edges@);
    proof {
        let newc = *caller;
        assert(head =~= old_caller.blocks@.update(pos as int, head[pos as int]));
        assert forall|k: int| 0 <= k < m && k != pos implies #[trigger] newc.blocks@[k] == old_caller.blocks@[k] by {
            assert(newc.blocks@.subrange(0, m as int)[k] == head[k]);
        }
        assert(newc.blocks@[pos as int] == head[pos as int]) by {
            assert(newc.blocks@.subrange(0, m as int)[pos as int] == head[pos as int]);
        }
        assert(graft_offset(old_caller.blocks@) == off as nat);
        assert(newc.blocks@[m + callee_entry].stmts@.subrange(0, pair_count(params@, args@) as int) == lets0) by {
            assert(grafted_block(callee0.blocks@[callee_entry as int], newc.blocks@[m + callee_entry], lets0, off as nat, join, ren, bound, call_span));
        }
        assert(newc.entry == old_caller.entry);
        assert(newc.blocks.len() == m + n + 1);
        assert(newc.blocks@[pos as int].id == block_id);
        assert(newc.blocks@[pos as int].stmts@ == ob_stmts.subrange(0, stmt_idx as int));
        assert(old_caller.blocks@[pos as int].stmts@ == ob_stmts);
        assert(newc.blocks@[pos as int].term == Terminator::Jump((callee0.entry + off) as usize));
        assert(newc.blocks@[m + n].id == join);
        assert(newc.blocks@[m + n].stmts@ == post_call(ob_stmts, stmt_idx as nat));
        assert(newc.blocks@[m + n].term == old_caller.blocks@[pos as int].term);
        assert(newc.edges@ == redirected(old_caller.edges@, block_id, join) + seq![
            Edge { from: block_id, to: (callee0.entry + off) as usize, kind: EdgeKind::Unconditional },
        ] + shifted_edges(callee0.edges@, off as nat) + return_edges(callee0.blocks@, off as nat, join));
        assert(spliced(old_caller, newc, block_id, stmt_idx as nat, callee0, params@, args@, bound, ren));
        assert forall|a: int, b: int| 0 <= a < b < newc.blocks@.len() implies newc.blocks@[a].id < newc.blocks@[b].id by {
            if b < m {
                assert(old_caller.blocks@[a].id < old_caller.blocks@[b].id);
            } else if a < m {
                assert(old_caller.blocks@[a].id <= old_caller.blocks@[m - 1].id);
                if b < m + n {
                    assert(grafted_block(callee0.blocks@[b - m], newc.blocks@[b], if b - m == callee_entry { lets0 } else { Seq::empty() }, off as nat, join, ren, bound, call_span));
                }
            } else if b < m + n {
                assert(grafted_block(callee0.blocks@[a - m], newc.blocks@[a], if a - m == callee_entry { lets0 } else { Seq::empty() }, off as nat, join, ren, bound, call_span));
                assert(grafted_block(callee0.blocks@[b - m], newc.blocks@[b], if b - m == callee_entry { lets0 } else { Seq::empty() }, off as nat, join, ren, bound, call_span));
            } else {
                assert(grafted_block(callee0.blocks@[a - m], newc.blocks@[a], if a - m == callee_entry { lets0 } else { Seq::empty() }, off as nat, join, ren, bound, call_span));
            }
        }
    }
    Some(off..join)
}

/// Each returning callee block has its edge to the join block.
proof fn lemma_return_edge(blocks: Seq<BasicBlock>, off: nat, join: BlockId, i: int)
    requires
        0 <= i < blocks.len(),
        blocks[i].term is Return,
    ensures
        has_edge(return_edges(blocks, off, join), (blocks[i].id + off) as usize, join),
    decreases blocks.len(),
{
    let prev = return_edges(blocks.drop_last(), off, join);
    if i == blocks.len() - 1 {
        let r = return_edges(blocks, off, join);
        assert(r[prev.len() as int].from == (blocks[i].id + off) as usize);
        assert(r[prev.len() as int].to == join);
    } else {
        assert(blocks.drop_last()[i] == blocks[i]);
        lemma_return_edge(blocks.drop_last(), off, join, i);
        let q = choose|q: int|
            0 <= q < prev.len() && #[trigger] prev[q].from == (blocks[i].id + off) as usize
                && prev[q].to == join;
        let r = return_edges(blocks, off, join);
        assert(r[q] == prev[q]);
    }
}

/// `f` is the shifted id of one of `blocks`.
pub open spec fn is_shifted_id(blocks: Seq<BasicBlock>, off: nat, f: BlockId) -> bool {
    exists|i: int| 0 <= i < blocks.len() && f == (#[trigger] blocks[i].id + off) as usize
}

/// Every edge of [`return_edges`] leaves a shifted block for the join.
proof fn lemma_return_edges_shape(blocks: Seq<BasicBlock>, off: nat, join: BlockId)
    ensures
        forall|q: int|
            #![trigger return_edges(blocks, off, join)[q]]
            0 <= q < return_edges(blocks, off, join).len() ==> return_edges(blocks, off, join)[q].to
                == join && is_shifted_id(blocks, off, return_edges(blocks, off, join)[q].from),
    decreases blocks.len(),
{
    if blocks.len() > 0 {
        let init = blocks.drop_last();
        lemma_return_edges_shape(init, off, join);
        let prev = return_edges(init, off, join);
        let r = return_edges(blocks, off, join);
        assert forall|q: int| 0 <= q < r.len() implies #[trigger] r[q].to == join && is_shifted_id(
            blocks,
            off,
            r[q].from,
        ) by {
            assert(r == return_edges(blocks, off, join));
            if q < prev.len() {
                assert(r[q] == prev[q]);
                assert(prev[q].to == join);
                assert(is_shifted_id(init, off, prev[q].from));
                let i = choose|i: int|
                    0 <= i < init.len() && prev[q].from == (#[trigger] init[i].id + off) as usize;
                assert(init[i] == blocks[i]);
                assert(r[q].from == (blocks[i].id + off) as usize);
            } else {
                let i = blocks.len() - 1;
                assert(r[q].from == (blocks[i].id + off) as usize);
            }
        }
    }
}

/// A splice keeps a well-formed caller well-formed: grafting a valid callee
/// with fresh ids into a valid caller leaves every edge between existing
/// blocks, and every terminator target a block joined to its source by an
/// edge.
pub proof fn lemma_splice_keeps_valid(
    old: CFG,
    new: CFG,
    block_id: BlockId,
    stmt_idx: nat,
    callee: CFG,
    params: Seq<Var>,
    args: Seq<Expr>,
    bound: Option<Seq<char>>,
    ren: Seq<(Var, Var)>,
)
    requires
        old.blocks_wf(),
        cfg_valid(old),
        cfg_valid(callee),
        dense_ids(callee),
        has_block(old.blocks@, block_id),
        graft_fits(callee, graft_offset(old.blocks@)),
        spliced(old, new, block_id, stmt_idx, callee, params, args, bound, ren),
    ensures
        cfg_valid(new),
{
    let off = graft_offset(old.blocks@);
    let n = callee.blocks.len();
    let join = (off + n) as usize;
    let pos = block_pos(old.blocks@, block_id);
    let m = old.blocks.len();
    let ob = old.blocks@[pos];
    let lets = new.blocks@[m + callee.entry].stmts@.subrange(
        0,
        pair_count(params, args) as int,
    );
    let span = call_span_of(ob.stmts@, stmt_idx);
    let e1 = redirected(old.edges@, block_id, join);
    let e2 = seq![
        Edge { from: block_id, to: (callee.entry + off) as usize, kind: EdgeKind::Unconditional },
    ];
    let e3 = shifted_edges(callee.edges@, off);
    let e4 = return_edges(callee.blocks@, off, join);
    assert(new.edges@ == e1 + e2 + e3 + e4);
    let ne = new.edges@;
    // Ids of the caller's own blocks are kept.
    assert forall|k: int| 0 <= k < m implies #[trigger] new.blocks@[k].id == old.blocks@[k].id by {
        if k != pos {
            assert(new.blocks@[k] == old.blocks@[k]);
        }
    }
    assert forall|x: BlockId| has_block(old.blocks@, x) implies has_block(new.blocks@, x) by {
        let k = choose|k: int| 0 <= k < m && #[trigger] old.blocks@[k].id == x;
        assert(new.blocks@[k].id == x);
    }
    // Callee ids land at their shifted place.
    assert forall|i: int| 0 <= i < n implies #[trigger] new.blocks@[m + i].id == i + off by {
        assert(grafted_block(
            callee.blocks@[i],
            new.blocks@[m + i],
            if i == callee.entry {
                lets
            } else {
                Seq::empty()
            },
            off,
            join,
            ren,
            bound,
            span,
        ));
    }
    assert forall|x: BlockId| has_block(callee.blocks@, x) implies has_block(new.blocks@, (x + off) as usize) by {
        let i = choose|i: int| 0 <= i < n && #[trigger] callee.blocks@[i].id == x;
        assert(new.blocks@[m + i].id == (x + off) as usize);
    }
    assert(has_block(new.blocks@, join)) by {
        assert(new.blocks@[m + n].id == join);
    }
    assert(has_block(new.blocks@, block_id)) by {
        assert(new.blocks@[pos].id == block_id);
    }
    // Index arithmetic over the four edge segments.
    let l1 = e1.len();
    let l3 = e3.len();
    assert forall|q: int| 0 <= q < l1 implies #[trigger] ne[q] == e1[q] by {}
    assert(ne[l1 as int] == e2[0]);
    assert forall|q: int| 0 <= q < l3 implies #[trigger] ne[l1 + 1 + q] == e3[q] by {}
    assert forall|q: int| 0 <= q < e4.len() implies #[trigger] ne[l1 + 1 + l3 + q] == e4[q] by {}
    // Entry.
    assert(has_block(new.blocks@, new.entry));
    // Every edge joins two blocks.
    lemma_return_edges_shape(callee.blocks@, off, join);
    assert forall|q: int| 0 <= q < ne.len() implies has_block(new.blocks@, #[trigger] ne[q].from)
        && has_block(new.blocks@, ne[q].to) by {
        if q < l1 {
            assert(has_block(old.blocks@, old.edges@[q].from));
            assert(has_block(old.blocks@, old.edges@[q].to));
        } else if q == l1 {
            assert(has_block(callee.blocks@, callee.entry));
        } else if q < l1 + 1 + l3 {
            let c = q - l1 - 1;
            assert(has_block(callee.blocks@, callee.edges@[c].from));
            assert(has_block(callee.blocks@, callee.edges@[c].to));
        } else {
            let c = q - l1 - 1 - l3;
            assert(e4[c].to == join);
            assert(is_shifted_id(callee.blocks@, off, e4[c].from));
            let i = choose|i: int|
                0 <= i < n && e4[c].from == (#[trigger] callee.blocks@[i].id + off) as usize;
            assert(callee.blocks@[i].id == i);
            assert(new.blocks@[m + i].id == e4[c].from);
        }
    }
    // Every terminator target is a block reached by an edge.
    assert forall|i: int, j: int|
        0 <= i < new.blocks@.len() && 0 <= j < term_targets(new.blocks@[i].term).len() implies {
        &&& has_block(new.blocks@, #[trigger] term_targets(new.blocks@[i].term)[j])
        &&& has_edge(ne, new.blocks@[i].id, term_targets(new.blocks@[i].term)[j])
    } by {
        let t = term_targets(new.blocks@[i].term)[j];
        if i < m && i != pos {
            assert(new.blocks@[i] == old.blocks@[i]);
            assert(has_block(old.blocks@, t));
            assert(has_edge(old.edges@, old.blocks@[i].id, t));
            let q = choose|q: int|
                0 <= q < old.edges@.len() && #[trigger] old.edges@[q].from == old.blocks@[i].id
                    && old.edges@[q].to == t;
            assert(old.blocks@[i].id != block_id) by {
                if i < pos {
                    assert(old.blocks@[i].id < old.blocks@[pos].id);
                } else {
                    assert(old.blocks@[pos].id < old.blocks@[i].id);
                }
            }
            assert(ne[q] == old.edges@[q]);
            assert(ne[q].from == new.blocks@[i].id && ne[q].to == t);
        } else if i == pos {
            assert(t == (callee.entry + off) as usize);
            assert(has_block(callee.blocks@, callee.entry));
            assert(ne[l1 as int].from == new.blocks@[i].id && ne[l1 as int].to == t);
        } else if i < m + n {
            let c = i - m;
            let cb = callee.blocks@[c];
            assert(grafted_block(
                cb,
                new.blocks@[i],
                if c == callee.entry {
                    lets
                } else {
                    Seq::empty()
                },
                off,
                join,
                ren,
                bound,
                span,
            ));
            match cb.term {
                Terminator::Return(_) => {
                    assert(t == join);
                    lemma_return_edge(callee.blocks@, off, join, c);
                    let q = choose|q: int|
                        0 <= q < e4.len() && #[trigger] e4[q].from == (cb.id + off) as usize
                            && e4[q].to == join;
                    assert(ne[l1 + 1 + l3 + q] == e4[q]);
                    assert(ne[l1 + 1 + l3 + q].from == new.blocks@[i].id);
                },
                _ => {
                    let ct = term_targets(cb.term)[j];
                    assert(t == (ct + off) as usize);
                    assert(has_block(callee.blocks@, ct));
                    assert(has_edge(callee.edges@, cb.id, ct));
                    let q = choose|q: int|
                        0 <= q < callee.edges@.len() && #[trigger] callee.edges@[q].from == cb.id
                            && callee.edges@[q].to == ct;
                    assert(ne[l1 + 1 + q] == e3[q]);
                    assert(ne[l1 + 1 + q].from == new.blocks@[i].id && ne[l1 + 1 + q].to == t);
                },
            }
        } else {
            assert(i == m + n);
            assert(new.blocks@[i].term == ob.term);
            assert(term_targets(ob.term)[j] == t);
            assert(has_block(old.blocks@, t));
            assert(has_edge(old.edges@, ob.id, t));
            let q = choose|q: int|
                0 <= q < old.edges@.len() && #[trigger] old.edges@[q].from == ob.id
                    && old.edges@[q].to == t;
            assert(ne[q].from == join && ne[q].to == t);
            assert(ne[q].from == new.blocks@[i].id);
        }
    }
}

// ── Substitution of reads ───────────────────────────────────────────────────

/// A substitution `variable → expression`, as a list of pairs in which no
/// variable occurs twice.
pub type SubstMap = Vec<(Var, Expr)>;

/// The expression `sub` maps `v` to, if any.
pub open spec fn subst_of(sub: Seq<(Var, Expr)>, v: Seq<char>) -> Option<Expr>
    decreases sub.len(),
{
    if sub.len() == 0 {
        None
    } else if sub[0].0@ == v {
        Some(sub[0].1)
    } else {
        subst_of(sub.drop_first(), v)
    }
}

/// What a read of `v` is replaced by where the names in `shadow` are bound
/// by enclosing function literals: nothing when shadowed.
pub open spec fn visible_subst(sub: Seq<(Var, Expr)>, shadow: Seq<Seq<char>>, v: Seq<char>) -> Option<Expr> {
    if shadow.contains(v) {
        None
    } else {
        subst_of(sub, v)
    }
}

/// `r` is `e` with every variable *read* that `sub` maps replaced by a copy
/// of its expression, capture-aware: inside a function literal the literal's
/// own params shadow the map, as do the
/// params of every literal around it (`shadow`). Binding sites are never touched.
pub open spec fn substs_expr(e: Expr, r: Expr, sub: Seq<(Var, Expr)>, shadow: Seq<Seq<char>>) -> bool
    decreases e,
{
    match e {
        Expr::Var(v) => match visible_subst(sub, shadow, v@) {
            Some(x) => renames_expr(x, r, Seq::empty()),
            None => r == e,
        },
        Expr::ObjectLit { id, fields } => match r {
            Expr::ObjectLit { id: rid, fields: rf } => {
                &&& rid == id
                &&& rf.len() == fields.len()
                &&& forall|i: int|
                    0 <= i < fields.len() ==> substs_field(#[trigger] fields@[i], rf@[i], sub, shadow)
            },
            _ => false,
        },
        Expr::ArrayLit { id, elems, arity, spread_at } => match r {
            Expr::ArrayLit { id: rid, elems: re, arity: ra, spread_at: rs } => {
                &&& rid == id
                &&& ra == arity
                &&& rs@ == spread_at@
                &&& re.len() == elems.len()
                &&& forall|i: int|
                    0 <= i < elems.len() ==> substs_expr(#[trigger] elems@[i], re@[i], sub, shadow)
            },
            _ => false,
        },
        Expr::FnLit { id, params, body_cfg } => match r {
            Expr::FnLit { id: rid, params: rp, body_cfg: rb } => {
                &&& rid == id
                &&& rp@ == params@
                &&& substs_cfg(*body_cfg, *rb, sub, shadow + names(params@))
            },
            _ => false,
        },
        Expr::FieldAccess { obj, field } => match r {
            Expr::FieldAccess { obj: ro, field: rf } => rf == field && substs_expr(*obj, *ro, sub, shadow),
            _ => false,
        },
        Expr::IndexAccess { arr, idx } => match r {
            Expr::IndexAccess { arr: ra, idx: ri } => substs_expr(*arr, *ra, sub, shadow) && substs_expr(
                *idx,
                *ri,
                sub,
                shadow,
            ),
            _ => false,
        },
        Expr::BinOp { op, lhs, rhs } => match r {
            Expr::BinOp { op: rop, lhs: rl, rhs: rr } => {
                &&& rop == op
                &&& substs_expr(*lhs, *rl, sub, shadow)
                &&& substs_expr(*rhs, *rr, sub, shadow)
            },
            _ => false,
        },
        Expr::UnaryOp { op, arg } => match r {
            Expr::UnaryOp { op: rop, arg: ra } => rop == op && substs_expr(*arg, *ra, sub, shadow),
            _ => false,
        },
        Expr::Call { fn_, args } => match r {
            Expr::Call { fn_: rfn, args: ra } => {
                &&& substs_expr(*fn_, *rfn, sub, shadow)
                &&& ra.len() == args.len()
                &&& forall|i: int|
                    0 <= i < args.len() ==> substs_expr(#[trigger] args@[i], ra@[i], sub, shadow)
            },
            _ => false,
        },
        Expr::CompApp { name, props, span } => match r {
            Expr::CompApp { name: rn, props: rp, span: rs } => {
                &&& rn == name
                &&& rs == span
                &&& substs_expr(*props, *rp, sub, shadow)
            },
            _ => false,
        },
        Expr::NativeElem { tag, props, children, span, prop_spans } => match r {
            Expr::NativeElem {
                tag: rt,
                props: rp,
                children: rc,
                span: rs,
                prop_spans: rps,
            } => {
                &&& rt == tag
                &&& rs == span
                &&& rps@ == prop_spans@
                &&& substs_expr(*props, *rp, sub, shadow)
                &&& rc.len() == children.len()
                &&& forall|i: int|
                    0 <= i < children.len() ==> substs_expr(#[trigger] children@[i], rc@[i], sub, shadow)
            },
            _ => false,
        },
        Expr::TSAnnotated(inner) => match r {
            Expr::TSAnnotated(ri) => substs_expr(*inner, *ri, sub, shadow),
            _ => false,
        },
        _ => r == e,
    }
}

/// `g` is the object member `f` with its value substituted; the key is equal.
pub open spec fn substs_field(f: (Symbol, Expr), g: (Symbol, Expr), sub: Seq<(Var, Expr)>, shadow: Seq<Seq<char>>) -> bool
    decreases f,
{
    g.0 == f.0 && substs_expr(f.1, g.1, sub, shadow)
}

/// `r` is `s` with the reads in its expressions substituted; binding
/// targets are kept.
pub open spec fn substs_stmt(s: Stmt, r: Stmt, sub: Seq<(Var, Expr)>, shadow: Seq<Seq<char>>) -> bool
    decreases s,
{
    match s {
        Stmt::Let { var, rhs, span } => match r {
            Stmt::Let { var: rv, rhs: rr, span: rs } => {
                &&& rv == var
                &&& rs == span
                &&& substs_expr(rhs, rr, sub, shadow)
            },
            _ => false,
        },
        Stmt::Assign { var, rhs, span } => match r {
            Stmt::Assign { var: rv, rhs: rr, span: rs } => {
                &&& rv == var
                &&& rs == span
                &&& substs_expr(rhs, rr, sub, shadow)
            },
            _ => false,
        },
        Stmt::MemberWrite { obj, key, rhs, span } => match r {
            Stmt::MemberWrite { obj: ro, key: rk, rhs: rr, span: rs } => {
                &&& rs == span
                &&& substs_expr(obj, ro, sub, shadow)
                &&& substs_expr(rhs, rr, sub, shadow)
                &&& match key {
                    MemberKey::Field(f) => rk == MemberKey::Field(f),
                    MemberKey::Index(i) => match rk {
                        MemberKey::Index(ri) => substs_expr(i, ri, sub, shadow),
                        _ => false,
                    },
                }
            },
            _ => false,
        },
        Stmt::ExprStmt(e, span) => match r {
            Stmt::ExprStmt(re, rs) => rs == span && substs_expr(e, re, sub, shadow),
            _ => false,
        },
    }
}

/// `r` is `t` with its expression substituted; targets and spans equal.
pub open spec fn substs_term(t: Terminator, r: Terminator, sub: Seq<(Var, Expr)>, shadow: Seq<Seq<char>>) -> bool
    decreases t,
{
    match t {
        Terminator::Branch { cond, then_, else_, span } => match r {
            Terminator::Branch { cond: rc, then_: rt, else_: re, span: rs } => {
                &&& rt == then_
                &&& re == else_
                &&& rs == span
                &&& substs_expr(cond, rc, sub, shadow)
            },
            _ => false,
        },
        Terminator::Return(e) => match r {
            Terminator::Return(re) => substs_expr(e, re, sub, shadow),
            _ => false,
        },
        _ => r == t,
    }
}

/// `r` is block `b` substituted.
pub open spec fn substs_block(b: BasicBlock, r: BasicBlock, sub: Seq<(Var, Expr)>, shadow: Seq<Seq<char>>) -> bool
    decreases b,
{
    &&& r.id == b.id
    &&& r.stmts.len() == b.stmts.len()
    &&& forall|j: int|
        0 <= j < b.stmts.len() ==> substs_stmt(#[trigger] b.stmts@[j], r.stmts@[j], sub, shadow)
    &&& substs_term(b.term, r.term, sub, shadow)
}

/// `r` is `c` substituted block by block; entry, block ids and edges equal.
pub open spec fn substs_cfg(c: CFG, r: CFG, sub: Seq<(Var, Expr)>, shadow: Seq<Seq<char>>) -> bool
    decreases c,
{
    &&& r.entry == c.entry
    &&& r.edges@ == c.edges@
    &&& r.blocks.len() == c.blocks.len()
    &&& forall|i: int|
        0 <= i < c.blocks.len() ==> substs_block(#[trigger] c.blocks@[i], r.blocks@[i], sub, shadow)
}

// ── Renaming, computed ─────────────────────────────────────────────────────

/// The renamed copy of an expression.
fn renamed_expr(e: &Expr, ren: &RenameMap) -> (r: Expr)
    ensures
        renames_expr(*e, r, ren@),
    decreases e,
{
    match e {
        Expr::Var(v) => Expr::Var(rename_one(ren, v)),
        Expr::ObjectLit { id, fields } => Expr::ObjectLit {
            id: *id,
            fields: renamed_fields(fields, ren),
        },
        Expr::ArrayLit { id, elems, arity, spread_at } => Expr::ArrayLit {
            id: *id,
            elems: renamed_exprs(elems, ren),
            arity: *arity,
            spread_at: copy_vec(spread_at),
        },
        Expr::FnLit { id, params, body_cfg } => {
            // The closure's own params shadow same-named callee locals.
            let inner = without(ren, params.as_slice());
            let body = renamed_cfg(&**body_cfg, &inner);
            Expr::FnLit { id: *id, params: copy_strings(params), body_cfg: Arc::new(body) }
        },
        Expr::FieldAccess { obj, field } => Expr::FieldAccess {
            obj: Box::new(renamed_expr(&**obj, ren)),
            field: field.clone(),
        },
        Expr::IndexAccess { arr, idx } => Expr::IndexAccess {
            arr: Box::new(renamed_expr(&**arr, ren)),
            idx: Box::new(renamed_expr(&**idx, ren)),
        },
        Expr::BinOp { op, lhs, rhs } => Expr::BinOp {
            op: *op,
            lhs: Box::new(renamed_expr(&**lhs, ren)),
            rhs: Box::new(renamed_expr(&**rhs, ren)),
        },
        Expr::UnaryOp { op, arg } => Expr::UnaryOp {
            op: *op,
            arg: Box::new(renamed_expr(&**arg, ren)),
        },
        Expr::Call { fn_, args } => Expr::Call {
            fn_: Box::new(renamed_expr(&**fn_, ren)),
            args: renamed_exprs(args, ren),
        },
        Expr::CompApp { name, props, span } => Expr::CompApp {
            name: name.clone(),
            props: Box::new(renamed_expr(&**props, ren)),
            span: *span,
        },
        Expr::NativeElem { tag, props, children, span, prop_spans } => Expr::NativeElem {
            tag: tag.clone(),
            props: Box::new(renamed_expr(&**props, ren)),
            children: renamed_exprs(children, ren),
            span: *span,
            prop_spans: copy_prop_spans(prop_spans),
        },
        Expr::TSAnnotated(inner) => Expr::TSAnnotated(Box::new(renamed_expr(&**inner, ren))),
        Expr::Lit(p) => Expr::Lit(p.duplicate()),
        Expr::StateVal(l) => Expr::StateVal(*l),
        Expr::StateSetter(l) => Expr::StateSetter(*l),
        Expr::MemoVal(l) => Expr::MemoVal(*l),
        Expr::CallbackVal(l) => Expr::CallbackVal(*l),
        Expr::HookMarker(l, v) => Expr::HookMarker(*l, *v),
        Expr::SummaryVal(v) => Expr::SummaryVal(*v),
    }
}

/// The renamed copies of an object literal's members, in order.
#[verifier::loop_isolation(false)]
fn renamed_fields(fields: &Vec<(Symbol, Expr)>, ren: &RenameMap) -> (r: Vec<(Symbol, Expr)>)
    ensures
        r.len() == fields.len(),
        forall|i: int| 0 <= i < fields.len() ==> renames_field(#[trigger] fields@[i], r@[i], ren@),
    decreases fields,
{
    let mut out: Vec<(Symbol, Expr)> = Vec::new();
    let mut i: usize = 0;
    while i < fields.len()
        invariant
            i <= fields.len(),
            out.len() == i,
            forall|k: int| 0 <= k < i ==> renames_field(#[trigger] fields@[k], out@[k], ren@),
        decreases fields.len() - i,
    {
        proof {
            assert(decreases_to!(*fields => fields@));
            assert(decreases_to!(fields@ => fields@[i as int]));
            assert(decreases_to!(fields@[i as int] => fields@[i as int].1));
        }
        let name = fields[i].0.clone();
        let value = renamed_expr(&fields[i].1, ren);
        out.push((name, value));
        i = i + 1;
    }
    out
}

/// The renamed copies of a list of expressions, in order.
#[verifier::loop_isolation(false)]
fn renamed_exprs(es: &Vec<Expr>, ren: &RenameMap) -> (r: Vec<Expr>)
    ensures
        r.len() == es.len(),
        forall|i: int| 0 <= i < es.len() ==> renames_expr(#[trigger] es@[i], r@[i], ren@),
    decreases es,
{
    let mut out: Vec<Expr> = Vec::new();
    let mut i: usize = 0;
    while i < es.len()
        invariant
            i <= es.len(),
            out.len() == i,
            forall|k: int| 0 <= k < i ==> renames_expr(#[trigger] es@[k], out@[k], ren@),
        decreases es.len() - i,
    {
        proof {
            assert(decreases_to!(*es => es@));
            assert(decreases_to!(es@ => es@[i as int]));
        }
        out.push(renamed_expr(&es[i], ren));
        i = i + 1;
    }
    out
}

/// The renamed copy of a statement.
fn renamed_stmt(s: &Stmt, ren: &RenameMap) -> (r: Stmt)
    ensures
        renames_stmt(*s, r, ren@),
    decreases s,
{
    match s {
        Stmt::Let { var, rhs, span } => Stmt::Let {
            var: rename_one(ren, var),
            rhs: renamed_expr(rhs, ren),
            span: *span,
        },
        Stmt::Assign { var, rhs, span } => Stmt::Assign {
            var: rename_one(ren, var),
            rhs: renamed_expr(rhs, ren),
            span: *span,
        },
        Stmt::MemberWrite { obj, key, rhs, span } => {
            let key2 = match key {
                MemberKey::Field(f) => MemberKey::Field(f.clone()),
                MemberKey::Index(i) => MemberKey::Index(renamed_expr(i, ren)),
            };
            Stmt::MemberWrite {
                obj: renamed_expr(obj, ren),
                key: key2,
                rhs: renamed_expr(rhs, ren),
                span: *span,
            }
        },
        Stmt::ExprStmt(e, span) => Stmt::ExprStmt(renamed_expr(e, ren), *span),
    }
}

/// The renamed copy of a terminator.
fn renamed_term(t: &Terminator, ren: &RenameMap) -> (r: Terminator)
    ensures
        renames_term(*t, r, ren@),
    decreases t,
{
    match t {
        Terminator::Branch { cond, then_, else_, span } => Terminator::Branch {
            cond: renamed_expr(cond, ren),
            then_: *then_,
            else_: *else_,
            span: *span,
        },
        Terminator::Return(e) => Terminator::Return(renamed_expr(e, ren)),
        Terminator::Jump(b) => Terminator::Jump(*b),
        Terminator::Unreachable => Terminator::Unreachable,
    }
}

/// The renamed copy of a block.
#[verifier::loop_isolation(false)]
fn renamed_block(b: &BasicBlock, ren: &RenameMap) -> (r: BasicBlock)
    ensures
        renames_block(*b, r, ren@),
    decreases b,
{
    let mut stmts: Vec<Stmt> = Vec::new();
    let mut j: usize = 0;
    while j < b.stmts.len()
        invariant
            j <= b.stmts.len(),
            stmts.len() == j,
            forall|k: int| 0 <= k < j ==> renames_stmt(#[trigger] b.stmts@[k], stmts@[k], ren@),
        decreases b.stmts.len() - j,
    {
        proof {
            assert(decreases_to!(*b => b.stmts));
            assert(decreases_to!(b.stmts => b.stmts@));
            assert(decreases_to!(b.stmts@ => b.stmts@[j as int]));
        }
        stmts.push(renamed_stmt(&b.stmts[j], ren));
        j = j + 1;
    }
    let term = renamed_term(&b.term, ren);
    BasicBlock { id: b.id, stmts, term }
}

/// The renamed copy of a CFG.
#[verifier::loop_isolation(false)]
fn renamed_cfg(c: &CFG, ren: &RenameMap) -> (r: CFG)
    ensures
        renames_cfg(*c, r, ren@),
    decreases c,
{
    let mut blocks: Vec<BasicBlock> = Vec::new();
    let mut i: usize = 0;
    while i < c.blocks.len()
        invariant
            i <= c.blocks.len(),
            blocks.len() == i,
            forall|k: int| 0 <= k < i ==> renames_block(#[trigger] c.blocks@[k], blocks@[k], ren@),
        decreases c.blocks.len() - i,
    {
        proof {
            assert(decreases_to!(*c => c.blocks));
            assert(decreases_to!(c.blocks => c.blocks@));
            assert(decreases_to!(c.blocks@ => c.blocks@[i as int]));
        }
        blocks.push(renamed_block(&c.blocks[i], ren));
        i = i + 1;
    }
    CFG { entry: c.entry, blocks, edges: copy_vec(&c.edges) }
}

/// The expression a read of `v` is replaced by, unless a param in `shadow`
/// hides it.
fn visible_get<'a>(sub: &'a SubstMap, shadow: &Vec<Var>, v: &Var) -> (r: Option<&'a Expr>)
    ensures
        match r {
            Some(x) => visible_subst(sub@, names(shadow@), v@) == Some(*x),
            None => visible_subst(sub@, names(shadow@), v@) is None,
        },
{
    if is_param(shadow.as_slice(), v) {
        return None;
    }
    let mut i: usize = 0;
    assert(sub@.subrange(0, sub@.len() as int) =~= sub@);
    while i < sub.len()
        invariant
            i <= sub.len(),
            subst_of(sub@, v@) == subst_of(sub@.subrange(i as int, sub@.len() as int), v@),
            !names(shadow@).contains(v@),
        decreases sub.len() - i,
    {
        let ghost rest = sub@.subrange(i as int, sub@.len() as int);
        assert(rest[0] == sub@[i as int]);
        assert(rest.drop_first() =~= sub@.subrange(i + 1, sub@.len() as int));
        if str_eq(sub[i].0.as_str(), v.as_str()) {
            assert(subst_of(rest, v@) == Some(sub@[i as int].1));
            assert(!names(shadow@).contains(v@));
            return Some(&sub[i].1);
        }
        i = i + 1;
    }
    None
}

/// The substituted copy of an expression.
fn substituted_expr(e: &Expr, sub: &SubstMap, shadow: &Vec<Var>) -> (r: Expr)
    ensures
        substs_expr(*e, r, sub@, names(shadow@)),
    decreases e,
{
    match e {
        Expr::Var(v) => match visible_get(sub, shadow, v) {
            Some(x) => renamed_expr(x, &Vec::new()),
            None => Expr::Var(v.clone()),
        },
        Expr::ObjectLit { id, fields } => Expr::ObjectLit {
            id: *id,
            fields: substituted_fields(fields, sub, shadow),
        },
        Expr::ArrayLit { id, elems, arity, spread_at } => Expr::ArrayLit {
            id: *id,
            elems: substituted_exprs(elems, sub, shadow),
            arity: *arity,
            spread_at: copy_vec(spread_at),
        },
        Expr::FnLit { id, params, body_cfg } => {
            // The closure's own params shadow same-named outer variables.
            let mut inner = copy_strings(shadow);
            let mut k: usize = 0;
            while k < params.len()
                invariant
                    k <= params.len(),
                    names(inner@) == names(shadow@) + names(params@.subrange(0, k as int)),
                decreases params.len() - k,
            {
                let ghost before = inner@;
                inner.push(params[k].clone());
                assert(names(inner@) =~= names(before).push(params@[k as int]@));
                assert(names(params@.subrange(0, k + 1)) =~= names(params@.subrange(0, k as int)).push(params@[k as int]@));
                k = k + 1;
            }
            assert(params@.subrange(0, params@.len() as int) =~= params@);
            let body = substituted_cfg(&**body_cfg, sub, &inner);
            Expr::FnLit { id: *id, params: copy_strings(params), body_cfg: Arc::new(body) }
        },
        Expr::FieldAccess { obj, field } => Expr::FieldAccess {
            obj: Box::new(substituted_expr(&**obj, sub, shadow)),
            field: field.clone(),
        },
        Expr::IndexAccess { arr, idx } => Expr::IndexAccess {
            arr: Box::new(substituted_expr(&**arr, sub, shadow)),
            idx: Box::new(substituted_expr(&**idx, sub, shadow)),
        },
        Expr::BinOp { op, lhs, rhs } => Expr::BinOp {
            op: *op,
            lhs: Box::new(substituted_expr(&**lhs, sub, shadow)),
            rhs: Box::new(substituted_expr(&**rhs, sub, shadow)),
        },
        Expr::UnaryOp { op, arg } => Expr::UnaryOp {
            op: *op,
            arg: Box::new(substituted_expr(&**arg, sub, shadow)),
        },
        Expr::Call { fn_, args } => Expr::Call {
            fn_: Box::new(substituted_expr(&**fn_, sub, shadow)),
            args: substituted_exprs(args, sub, shadow),
        },
        Expr::CompApp { name, props, span } => Expr::CompApp {
            name: name.clone(),
            props: Box::new(substituted_expr(&**props, sub, shadow)),
            span: *span,
        },
        Expr::NativeElem { tag, props, children, span, prop_spans } => Expr::NativeElem {
            tag: tag.clone(),
            props: Box::new(substituted_expr(&**props, sub, shadow)),
            children: substituted_exprs(children, sub, shadow),
            span: *span,
            prop_spans: copy_prop_spans(prop_spans),
        },
        Expr::TSAnnotated(inner) => Expr::TSAnnotated(Box::new(substituted_expr(&**inner, sub, shadow))),
        Expr::Lit(p) => Expr::Lit(p.duplicate()),
        Expr::StateVal(l) => Expr::StateVal(*l),
        Expr::StateSetter(l) => Expr::StateSetter(*l),
        Expr::MemoVal(l) => Expr::MemoVal(*l),
        Expr::CallbackVal(l) => Expr::CallbackVal(*l),
        Expr::HookMarker(l, v) => Expr::HookMarker(*l, *v),
        Expr::SummaryVal(v) => Expr::SummaryVal(*v),
    }
}

/// The substituted copies of an object literal's members, in order.
#[verifier::loop_isolation(false)]
fn substituted_fields(fields: &Vec<(Symbol, Expr)>, sub: &SubstMap, shadow: &Vec<Var>) -> (r: Vec<(Symbol, Expr)>)
    ensures
        r.len() == fields.len(),
        forall|i: int| 0 <= i < fields.len() ==> substs_field(#[trigger] fields@[i], r@[i], sub@, names(shadow@)),
    decreases fields,
{
    let mut out: Vec<(Symbol, Expr)> = Vec::new();
    let mut i: usize = 0;
    while i < fields.len()
        invariant
            i <= fields.len(),
            out.len() == i,
            forall|k: int| 0 <= k < i ==> substs_field(#[trigger] fields@[k], out@[k], sub@, names(shadow@)),
        decreases fields.len() - i,
    {
        proof {
            assert(decreases_to!(*fields => fields@));
            assert(decreases_to!(fields@ => fields@[i as int]));
            assert(decreases_to!(fields@[i as int] => fields@[i as int].1));
        }
        let name = fields[i].0.clone();
        let value = substituted_expr(&fields[i].1, sub, shadow);
        out.push((name, value));
        i = i + 1;
    }
    out
}

/// The substituted copies of a list of expressions, in order.
#[verifier::loop_isolation(false)]
fn substituted_exprs(es: &Vec<Expr>, sub: &SubstMap, shadow: &Vec<Var>) -> (r: Vec<Expr>)
    ensures
        r.len() == es.len(),
        forall|i: int| 0 <= i < es.len() ==> substs_expr(#[trigger] es@[i], r@[i], sub@, names(shadow@)),
    decreases es,
{
    let mut out: Vec<Expr> = Vec::new();
    let mut i: usize = 0;
    while i < es.len()
        invariant
            i <= es.len(),
            out.len() == i,
            forall|k: int| 0 <= k < i ==> substs_expr(#[trigger] es@[k], out@[k], sub@, names(shadow@)),
        decreases es.len() - i,
    {
        proof {
            assert(decreases_to!(*es => es@));
            assert(decreases_to!(es@ => es@[i as int]));
        }
        out.push(substituted_expr(&es[i], sub, shadow));
        i = i + 1;
    }
    out
}

/// The substituted copy of a statement.
fn substituted_stmt(s: &Stmt, sub: &SubstMap, shadow: &Vec<Var>) -> (r: Stmt)
    ensures
        substs_stmt(*s, r, sub@, names(shadow@)),
    decreases s,
{
    match s {
        Stmt::Let { var, rhs, span } => Stmt::Let {
            var: var.clone(),
            rhs: substituted_expr(rhs, sub, shadow),
            span: *span,
        },
        Stmt::Assign { var, rhs, span } => Stmt::Assign {
            var: var.clone(),
            rhs: substituted_expr(rhs, sub, shadow),
            span: *span,
        },
        Stmt::MemberWrite { obj, key, rhs, span } => {
            let key2 = match key {
                MemberKey::Field(f) => MemberKey::Field(f.clone()),
                MemberKey::Index(i) => MemberKey::Index(substituted_expr(i, sub, shadow)),
            };
            Stmt::MemberWrite {
                obj: substituted_expr(obj, sub, shadow),
                key: key2,
                rhs: substituted_expr(rhs, sub, shadow),
                span: *span,
            }
        },
        Stmt::ExprStmt(e, span) => Stmt::ExprStmt(substituted_expr(e, sub, shadow), *span),
    }
}

/// The substituted copy of a terminator.
fn substituted_term(t: &Terminator, sub: &SubstMap, shadow: &Vec<Var>) -> (r: Terminator)
    ensures
        substs_term(*t, r, sub@, names(shadow@)),
    decreases t,
{
    match t {
        Terminator::Branch { cond, then_, else_, span } => Terminator::Branch {
            cond: substituted_expr(cond, sub, shadow),
            then_: *then_,
            else_: *else_,
            span: *span,
        },
        Terminator::Return(e) => Terminator::Return(substituted_expr(e, sub, shadow)),
        Terminator::Jump(b) => Terminator::Jump(*b),
        Terminator::Unreachable => Terminator::Unreachable,
    }
}

/// The substituted copy of a block.
#[verifier::loop_isolation(false)]
fn substituted_block(b: &BasicBlock, sub: &SubstMap, shadow: &Vec<Var>) -> (r: BasicBlock)
    ensures
        substs_block(*b, r, sub@, names(shadow@)),
    decreases b,
{
    let mut stmts: Vec<Stmt> = Vec::new();
    let mut j: usize = 0;
    while j < b.stmts.len()
        invariant
            j <= b.stmts.len(),
            stmts.len() == j,
            forall|k: int| 0 <= k < j ==> substs_stmt(#[trigger] b.stmts@[k], stmts@[k], sub@, names(shadow@)),
        decreases b.stmts.len() - j,
    {
        proof {
            assert(decreases_to!(*b => b.stmts));
            assert(decreases_to!(b.stmts => b.stmts@));
            assert(decreases_to!(b.stmts@ => b.stmts@[j as int]));
        }
        stmts.push(substituted_stmt(&b.stmts[j], sub, shadow));
        j = j + 1;
    }
    let term = substituted_term(&b.term, sub, shadow);
    BasicBlock { id: b.id, stmts, term }
}

/// The substituted copy of a CFG.
#[verifier::loop_isolation(false)]
fn substituted_cfg(c: &CFG, sub: &SubstMap, shadow: &Vec<Var>) -> (r: CFG)
    ensures
        substs_cfg(*c, r, sub@, names(shadow@)),
    decreases c,
{
    let mut blocks: Vec<BasicBlock> = Vec::new();
    let mut i: usize = 0;
    while i < c.blocks.len()
        invariant
            i <= c.blocks.len(),
            blocks.len() == i,
            forall|k: int| 0 <= k < i ==> substs_block(#[trigger] c.blocks@[k], blocks@[k], sub@, names(shadow@)),
        decreases c.blocks.len() - i,
    {
        proof {
            assert(decreases_to!(*c => c.blocks));
            assert(decreases_to!(c.blocks => c.blocks@));
            assert(decreases_to!(c.blocks@ => c.blocks@[i as int]));
        }
        blocks.push(substituted_block(&c.blocks[i], sub, shadow));
        i = i + 1;
    }
    CFG { entry: c.entry, blocks, edges: copy_vec(&c.edges) }
}

/// Substitute variable *reads* with copies of expressions, capture-aware:
/// binding sites are never touched, and a function literal's own params
/// shadow the map inside its body.
pub fn subst_vars_expr(expr: Expr, subst: &SubstMap) -> (r: Expr)
    ensures
        substs_expr(expr, r, subst@, Seq::empty()),
{
    let shadow: Vec<Var> = Vec::new();
    assert(names(shadow@) =~= Seq::<Seq<char>>::empty());
    substituted_expr(&expr, subst, &shadow)
}

/// [`subst_vars_expr`] over every statement and terminator of a CFG.
pub fn subst_vars_cfg(cfg: CFG, subst: &SubstMap) -> (r: CFG)
    ensures
        substs_cfg(cfg, r, subst@, Seq::empty()),
{
    let shadow: Vec<Var> = Vec::new();
    assert(names(shadow@) =~= Seq::<Seq<char>>::empty());
    substituted_cfg(&cfg, subst, &shadow)
}

/// The renamed copy of a deps argument.
fn renamed_deps(d: &DepsArg, ren: &RenameMap) -> (r: DepsArg)
    ensures
        renames_deps(*d, r, ren@),
{
    match d {
        DepsArg::Absent => DepsArg::Absent,
        DepsArg::Opaque => DepsArg::Opaque,
        DepsArg::List(l) => DepsArg::List(
            DepsList {
                elems: renamed_exprs(&l.elems, ren),
                arity: l.arity,
                spread_at: copy_vec(&l.spread_at),
            },
        ),
    }
}

/// Apply an alpha-rename map to an expression; a function literal's own
/// parameters shadow inside its body.
pub fn rename_vars_expr(expr: Expr, ren: &RenameMap) -> (r: Expr)
    ensures
        renames_expr(expr, r, ren@),
{
    renamed_expr(&expr, ren)
}

/// Rename every occurrence, binding site and read alike, of a bound variable
/// in `cfg`.
pub fn rename_vars_cfg(cfg: CFG, ren: &RenameMap) -> (r: CFG)
    ensures
        renames_cfg(cfg, r, ren@),
{
    renamed_cfg(&cfg, ren)
}

/// Apply an alpha-rename map to every expression a hook entry captures from
/// the enclosing scope, so that a spliced custom hook's effect, memo and
/// callback bodies stay linked to its renamed render locals. A callback's own
/// params shadow inside its body.
pub fn rename_hook_entry(entry: HookEntry, ren: &RenameMap) -> (r: HookEntry)
    ensures
        renames_hook(entry, r, ren@),
{
    match &entry {
        HookEntry::State { label, init, span } => HookEntry::State {
            label: *label,
            init: renamed_expr(init, ren),
            span: *span,
        },
        HookEntry::Ref { label, init, span } => HookEntry::Ref {
            label: *label,
            init: renamed_expr(init, ren),
            span: *span,
        },
        HookEntry::Effect { label, body_cfg, deps, span } => HookEntry::Effect {
            label: *label,
            body_cfg: renamed_cfg(body_cfg, ren),
            deps: renamed_deps(deps, ren),
            span: *span,
        },
        HookEntry::Memo { label, body_cfg, deps, span } => HookEntry::Memo {
            label: *label,
            body_cfg: renamed_cfg(body_cfg, ren),
            deps: renamed_deps(deps, ren),
            span: *span,
        },
        HookEntry::Callback { label, body_cfg, params, deps, span } => {
            // Deps are evaluated in the render scope (full map); the body
            // scope shadows its own params.
            let inner = without(ren, params.as_slice());
            HookEntry::Callback {
                label: *label,
                body_cfg: renamed_cfg(body_cfg, &inner),
                params: copy_strings(params),
                deps: renamed_deps(deps, ren),
                span: *span,
            }
        },
        HookEntry::Custom {
            label,
            name,
            args,
            deps,
            binding,
            import_source,
            resolved_file,
            span,
        } => HookEntry::Custom {
            label: *label,
            name: name.clone(),
            args: renamed_exprs(args, ren),
            deps: renamed_deps(deps, ren),
            binding: binding.clone(),
            import_source: import_source.clone(),
            resolved_file: resolved_file.clone(),
            span: *span,
        },
        HookEntry::Handler { label, event, body_cfg, span } => HookEntry::Handler {
            label: *label,
            event: event.clone(),
            body_cfg: renamed_cfg(body_cfg, ren),
            span: *span,
        },
    }
}

} // verus!
