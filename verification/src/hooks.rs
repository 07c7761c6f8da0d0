//! Hook calls as the IR records them.
use vstd::prelude::*;

use crate::cfg::CFG;
use crate::expr::Expr;
use crate::source_range::SourceRange;
use crate::types::{HookLabel, Symbol, Var};

verus! {

/// Provenance of one hook call: `label → (origin hook, source, direct|inlined)`.
#[derive(Debug, Clone, PartialEq, Eq)]
pub struct HookProvenance {
    pub label: HookLabel,
    /// Name the origin defines the hook under, never a local alias.
    pub origin_hook: Symbol,
    /// `true` iff the call was classified as React's own hook.
    pub react: bool,
    /// Raw import specifier at the call's import site.
    pub specifier: Option<String>,
    /// File the hook's definition resolved to.
    pub file: Option<String>,
    /// `true` iff reached through an inlined custom hook.
    pub inlined: bool,
    /// Call-site span.
    pub span: Option<SourceRange>,
}

/// How many entries a written deps array has.
#[derive(Debug, Clone, Copy, PartialEq, Eq, Structural)]
pub enum Arity {
    /// The source array holds exactly this many entries.
    Exact(usize),
    /// The source array holds at least this many; a spread supplies the rest.
    AtLeast(usize),
}

impl Arity {
    /// The count when it is known, `None` when a spread left it open.
    pub fn exact(self) -> (r: Option<usize>)
        ensures
            r == match self {
                Arity::Exact(n) => Some(n),
                Arity::AtLeast(_) => None::<usize>,
            },
    {
        match self {
            Arity::Exact(n) => Some(n),
            Arity::AtLeast(_) => None,
        }
    }

    /// The guaranteed lower bound, always available.
    pub fn at_least(self) -> (r: usize)
        ensures
            r == match self {
                Arity::Exact(n) => n,
                Arity::AtLeast(n) => n,
            },
    {
        match self {
            Arity::Exact(n) => n,
            Arity::AtLeast(n) => n,
        }
    }

    /// Could the source array hold exactly `n` entries? `false` only when
    /// the bound refutes it.
    pub fn may_be(self, n: usize) -> (r: bool)
        ensures
            r == match self {
                Arity::Exact(m) => m == n,
                Arity::AtLeast(m) => m <= n,
            },
    {
        match self {
            Arity::Exact(m) => m == n,
            Arity::AtLeast(m) => m <= n,
        }
    }
}

/// A written dependency array, with whatever lowering could keep of it.
#[derive(Debug)]
pub struct DepsList {
    pub elems: Vec<Expr>,
    pub arity: Arity,
    /// Positions in `elems` that came from a spread.
    pub spread_at: Vec<usize>,
}

/// The deps argument of a hook call, as the IR could read it.
#[derive(Debug)]
pub enum DepsArg {
    /// No argument at all: the hook re-runs on every render.
    Absent,
    /// An argument the IR cannot read.
    Opaque,
    /// A written array literal.
    List(DepsList),
}

/// One hook call of a component or custom hook body.
#[derive(Debug)]
pub enum HookEntry {
    State { label: HookLabel, init: Expr, span: Option<SourceRange> },
    Effect { label: HookLabel, body_cfg: CFG, deps: DepsArg, span: Option<SourceRange> },
    Memo { label: HookLabel, body_cfg: CFG, deps: DepsArg, span: Option<SourceRange> },
    Callback {
        label: HookLabel,
        body_cfg: CFG,
        params: Vec<Var>,
        deps: DepsArg,
        span: Option<SourceRange>,
    },
    Ref { label: HookLabel, init: Expr, span: Option<SourceRange> },
    Custom {
        label: HookLabel,
        name: Symbol,
        args: Vec<Expr>,
        deps: DepsArg,
        binding: Option<Var>,
        import_source: Option<String>,
        resolved_file: Option<String>,
        span: Option<SourceRange>,
    },
    Handler { label: HookLabel, event: String, body_cfg: CFG, span: Option<SourceRange> },
}

impl HookEntry {
    /// The label of a hook call, whichever kind it is.
    pub open spec fn spec_label(&self) -> HookLabel {
        match self {
            HookEntry::State { label, .. } => *label,
            HookEntry::Effect { label, .. } => *label,
            HookEntry::Memo { label, .. } => *label,
            HookEntry::Callback { label, .. } => *label,
            HookEntry::Ref { label, .. } => *label,
            HookEntry::Custom { label, .. } => *label,
            HookEntry::Handler { label, .. } => *label,
        }
    }

    /// The call-site span, whichever kind it is.
    pub open spec fn spec_span(&self) -> Option<SourceRange> {
        match self {
            HookEntry::State { span, .. } => *span,
            HookEntry::Effect { span, .. } => *span,
            HookEntry::Memo { span, .. } => *span,
            HookEntry::Callback { span, .. } => *span,
            HookEntry::Ref { span, .. } => *span,
            HookEntry::Custom { span, .. } => *span,
            HookEntry::Handler { span, .. } => *span,
        }
    }

    pub fn label(&self) -> (r: HookLabel)
        ensures
            r == self.spec_label(),
    {
        match self {
            HookEntry::State { label, .. } => *label,
            HookEntry::Effect { label, .. } => *label,
            HookEntry::Memo { label, .. } => *label,
            HookEntry::Callback { label, .. } => *label,
            HookEntry::Ref { label, .. } => *label,
            HookEntry::Custom { label, .. } => *label,
            HookEntry::Handler { label, .. } => *label,
        }
    }

    /// Source range of the hook call site, when lowering recorded one.
    pub fn span(&self) -> (r: Option<SourceRange>)
        ensures
            r == self.spec_span(),
    {
        match self {
            HookEntry::State { span, .. } => *span,
            HookEntry::Effect { span, .. } => *span,
            HookEntry::Memo { span, .. } => *span,
            HookEntry::Callback { span, .. } => *span,
            HookEntry::Ref { span, .. } => *span,
            HookEntry::Custom { span, .. } => *span,
            HookEntry::Handler { span, .. } => *span,
        }
    }

    /// The body CFG of the kinds that have one (`Effect`, `Memo`,
    /// `Callback`, `Handler`); `None` for `State`/`Ref`/`Custom`.
    pub fn body_cfg(&self) -> (r: Option<&CFG>)
        ensures
            match self {
                HookEntry::Effect { body_cfg, .. } => r == Some(body_cfg),
                HookEntry::Memo { body_cfg, .. } => r == Some(body_cfg),
                HookEntry::Callback { body_cfg, .. } => r == Some(body_cfg),
                HookEntry::Handler { body_cfg, .. } => r == Some(body_cfg),
                _ => r is None,
            },
    {
        match self {
            HookEntry::Effect { body_cfg, .. } => Some(body_cfg),
            HookEntry::Memo { body_cfg, .. } => Some(body_cfg),
            HookEntry::Callback { body_cfg, .. } => Some(body_cfg),
            HookEntry::Handler { body_cfg, .. } => Some(body_cfg),
            HookEntry::State { .. } => None,
            HookEntry::Ref { .. } => None,
            HookEntry::Custom { .. } => None,
        }
    }
}

/// The entries of `elems` whose position is not in `spread_at`, in order.
pub open spec fn covering_spec(elems: Seq<Expr>, spread_at: Seq<usize>) -> Seq<Expr>
    decreases elems.len(),
{
    if elems.len() == 0 {
        Seq::empty()
    } else {
        let prev = covering_spec(elems.drop_last(), spread_at);
        if spread_at.contains((elems.len() - 1) as usize) {
            prev
        } else {
            prev.push(elems.last())
        }
    }
}

impl DepsList {
    /// A list whose elements are known one for one.
    pub fn exact(elems: Vec<Expr>) -> (r: DepsList)
        ensures
            r.elems@ == elems@,
            r.arity == Arity::Exact(elems.len()),
            r.spread_at@ == Seq::<usize>::empty(),
    {
        let n = elems.len();
        DepsList { elems, arity: Arity::Exact(n), spread_at: Vec::new() }
    }

    /// The entries that actually cover a read: every visible element except
    /// a spread's source (React compares `rows[0], rows[1], …`, never `rows`).
    pub fn covering(&self) -> (r: Vec<&Expr>)
        ensures
            r@.map_values(|x: &Expr| *x) == covering_spec(self.elems@, self.spread_at@),
    {
        let mut r: Vec<&Expr> = Vec::new();
        let mut i: usize = 0;
        while i < self.elems.len()
            invariant
                i <= self.elems.len(),
                r@.map_values(|x: &Expr| *x) == covering_spec(self.elems@.subrange(0, i as int), self.spread_at@),
            decreases self.elems.len() - i,
        {
            let mut spread = false;
            let mut k: usize = 0;
            while k < self.spread_at.len()
                invariant
                    k <= self.spread_at.len(),
                    spread <==> self.spread_at@.subrange(0, k as int).contains(i),
                decreases self.spread_at.len() - k,
            {
                if self.spread_at[k] == i {
                    spread = true;
                }
                proof {
                    let a = self.spread_at@.subrange(0, k as int);
                    let b = self.spread_at@.subrange(0, k + 1);
                    assert(b =~= a.push(self.spread_at@[k as int]));
                    if a.contains(i) {
                        let j = choose|j: int| 0 <= j < a.len() && a[j] == i;
                        assert(b[j] == i);
                    }
                    if self.spread_at@[k as int] == i {
                        assert(b[k as int] == i);
                    }
                    if b.contains(i) && !a.contains(i) {
                        let j = choose|j: int| 0 <= j < b.len() && b[j] == i;
                        assert(j == k);
                    }
                }
                k = k + 1;
            }
            assert(self.spread_at@.subrange(0, self.spread_at@.len() as int) =~= self.spread_at@);
            let ghost before = r@;
            let ghost pre = self.elems@.subrange(0, i + 1);
            assert(pre.drop_last() =~= self.elems@.subrange(0, i as int));
            if !spread {
                r.push(&self.elems[i]);
                assert(r@.map_values(|x: &Expr| *x) =~= before.map_values(|x: &Expr| *x).push(self.elems@[i as int]));
            }
            i = i + 1;
        }
        assert(self.elems@.subrange(0, self.elems@.len() as int) =~= self.elems@);
        r
    }

    /// Every source entry is an element the IR can see: no spread
    /// flattened, no elision dropped.
    pub fn is_whole(&self) -> (r: bool)
        ensures
            r <==> self.arity == Arity::Exact(self.elems.len()),
    {
        match self.arity {
            Arity::Exact(n) => n == self.elems.len(),
            Arity::AtLeast(_) => false,
        }
    }

    /// The visible elements.
    pub fn as_slice(&self) -> (r: &[Expr])
        ensures
            r@ == self.elems@,
    {
        self.elems.as_slice()
    }

    /// How many elements are visible.
    pub fn len(&self) -> (r: usize)
        ensures
            r == self.elems.len(),
    {
        self.elems.len()
    }

    /// `true` iff no element is visible.
    pub fn is_empty(&self) -> (r: bool)
        ensures
            r <==> self.elems.len() == 0,
    {
        self.elems.len() == 0
    }
}

impl DepsArg {
    /// The deps argument written as `expr`: an array literal (type
    /// annotations peeled) becomes a list, anything else is opaque.
    pub fn from_expr(expr: Expr) -> (r: DepsArg)
        ensures
            match crate::expr::peeled(expr) {
                Expr::ArrayLit { elems, arity, spread_at, .. } => r matches DepsArg::List(l) && l.elems@
                    == elems@ && l.arity == arity && l.spread_at@ == spread_at@,
                _ => r is Opaque,
            },
        decreases expr,
    {
        match expr {
            Expr::TSAnnotated(inner) => DepsArg::from_expr(*inner),
            Expr::ArrayLit { elems, arity, spread_at, .. } => DepsArg::List(
                DepsList { elems, arity, spread_at },
            ),
            _ => DepsArg::Opaque,
        }
    }

    /// The written list, when there is one to read.
    pub fn list(&self) -> (r: Option<&DepsList>)
        ensures
            match self {
                DepsArg::List(l) => r == Some(l),
                _ => r is None,
            },
    {
        match self {
            DepsArg::List(l) => Some(l),
            DepsArg::Absent => None,
            DepsArg::Opaque => None,
        }
    }

    /// The entries that cover a read; none when no list was written.
    pub fn covering(&self) -> (r: Vec<&Expr>)
        ensures
            r@.map_values(|x: &Expr| *x) == match self {
                DepsArg::List(l) => covering_spec(l.elems@, l.spread_at@),
                _ => Seq::empty(),
            },
    {
        match self {
            DepsArg::List(l) => l.covering(),
            _ => {
                let r: Vec<&Expr> = Vec::new();
                assert(r@.map_values(|x: &Expr| *x) =~= Seq::<Expr>::empty());
                r
            },
        }
    }

    /// `true` unless the caller passed no deps argument at all: an
    /// unreadable argument still declares a deps array.
    pub fn is_declared(&self) -> (r: bool)
        ensures
            r <==> !(self is Absent),
    {
        match self {
            DepsArg::Absent => false,
            _ => true,
        }
    }
}

} // verus!
