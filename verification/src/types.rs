//! Scalar names shared by the whole IR.
use vstd::prelude::*;

verus! {

/// A symbol: a component, hook, function or field name.
pub type Symbol = String;

/// Index of a hook call within one component's hook table.
pub type HookLabel = usize;

/// Identity of a basic block within one CFG.
pub type BlockId = usize;

/// A variable name.
pub type Var = String;

/// Allocation-site key: every allocating expression carries one, and two
/// allocations share a heap entry exactly when they share an id.
#[derive(Debug, Clone, Copy, PartialEq, Eq, Structural, Hash, PartialOrd, Ord)]
pub struct ExprId(pub usize);

} // verus!
