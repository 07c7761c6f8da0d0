//! The per-component facts the analysis records beside its abstract values.
use vstd::prelude::*;

use crate::free_vars::AccessPath;
use crate::hooks::{Arity, DepsArg};
use crate::source_range::SourceRange;
use crate::types::{BlockId, HookLabel, Var};

verus! {

/// Provenance of a forced widening: which fixpoint iteration gave up on a
/// slot, and which effects were writing it then.
#[derive(Debug, Clone, PartialEq, Eq)]
pub struct WidenEvent {
    /// Outer fixpoint iteration at which the slot was first widened.
    pub iteration: usize,
    /// Effects whose pass wrote this slot during that iteration.
    pub writers: Vec<HookLabel>,
}

/// What kind of symbol was inlined into a component's CFG.
#[derive(Debug, Clone, Copy, PartialEq, Eq, Structural)]
pub enum InlineKind {
    /// A custom hook.
    Hook,
    /// A utility function.
    Utility,
}

/// One symbol inlined into the component during analysis.
#[derive(Debug, Clone, PartialEq, Eq)]
pub struct InlineOrigin {
    pub name: String,
    /// File the inlined body came from.
    pub from: String,
    pub kind: InlineKind,
}

/// The kind of a hook call.
#[derive(Debug, Clone, Copy, PartialEq, Eq, Structural)]
pub enum HookKind {
    State,
    Effect,
    Memo,
    Callback,
    Ref,
    Custom,
    Handler,
}

/// Where a hook was called in the render CFG.
#[derive(Debug, Clone, Copy, PartialEq, Eq, Structural)]
pub struct HookCallInfo {
    pub label: HookLabel,
    pub kind: HookKind,
    /// The block holding the hook's binding statement (the entry for an
    /// effect).
    pub block_id: BlockId,
    pub span: Option<SourceRange>,
    /// The engine has no information about this hook's internals.
    pub opaque: bool,
}

/// A JSX event handler entry point.
#[derive(Debug, Clone)]
pub struct HandlerInfo {
    pub label: HookLabel,
    /// DOM event name without the "on" prefix, lowercased.
    pub event: String,
    /// Variables used in the handler body but not defined within it.
    pub free_vars: Vec<Var>,
    pub span: Option<SourceRange>,
}

/// The deps facts of one effect/memo/callback hook, as the dep rules read
/// them.
#[derive(Debug)]
pub struct EffectInfo {
    pub label: HookLabel,
    pub kind: HookKind,
    /// The access paths the body captures from the enclosing scope.
    pub free_paths: Vec<AccessPath>,
    pub deps: DepsArg,
    pub span: Option<SourceRange>,
}

impl EffectInfo {
    /// `true` when the caller passed a deps argument at all, readable or not.
    pub fn has_deps_array(&self) -> (r: bool)
        ensures
            r <==> !(self.deps is Absent),
    {
        match &self.deps {
            DepsArg::Absent => false,
            _ => true,
        }
    }

    /// `true` when the hook is gated by a deps list the engine cannot read.
    pub fn deps_are_opaque(&self) -> (r: bool)
        ensures
            r <==> self.deps is Opaque,
    {
        match &self.deps {
            DepsArg::Opaque => true,
            _ => false,
        }
    }

    /// How many dependencies the source array declares, when known.
    pub fn deps_arity(&self) -> (r: Option<usize>)
        ensures
            r == match self.deps {
                DepsArg::List(l) => match l.arity {
                    Arity::Exact(n) => Some(n),
                    Arity::AtLeast(_) => None::<usize>,
                },
                _ => None::<usize>,
            },
    {
        match &self.deps {
            DepsArg::List(l) => l.arity.exact(),
            _ => None,
        }
    }

    /// The guaranteed lower bound on the declared arity, when a list was
    /// written.
    pub fn deps_at_least(&self) -> (r: Option<usize>)
        ensures
            r == match self.deps {
                DepsArg::List(l) => match l.arity {
                    Arity::Exact(n) => Some(n),
                    Arity::AtLeast(n) => Some(n),
                },
                _ => None::<usize>,
            },
    {
        match &self.deps {
            DepsArg::List(l) => Some(l.arity.at_least()),
            _ => None,
        }
    }
}

} // verus!
