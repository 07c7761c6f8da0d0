//! Lowered components and custom hooks, as the graph and the analysis read
//! them.
use vstd::prelude::*;

use crate::cfg::CFG;
use crate::expr::Prim;
use crate::hooks::{HookEntry, HookProvenance};
use crate::types::{Symbol, Var};

verus! {

/// What is known about a module-level `const` initializer whose kind is
/// syntactically certain.
#[derive(Debug, Clone)]
pub enum ModuleConstInit {
    /// Primitive literal: the exact value.
    Prim(Prim),
    /// Object, array, `new` or JSX literal: a reference allocated once per
    /// module lifetime.
    Ref,
    /// `createContext(…)`, proven to be React's, with the cell it creates.
    Context(ContextId),
}

/// Canonical identity of a React context cell: the file that called
/// `createContext` and the name it bound the result to.
#[derive(Debug, Clone, PartialEq, Eq, Hash, PartialOrd, Ord)]
pub struct ContextId {
    /// The file whose module scope holds the `createContext` call.
    pub origin_file: String,
    /// The name bound there.
    pub origin_name: String,
}

/// A lowered component.
#[derive(Debug)]
pub struct ComponentIR {
    /// Source file this component was lowered from.
    pub file: String,
    pub name: Symbol,
    pub param: Var,
    /// Names of props whose TypeScript type is a DOM interface.
    pub dom_props: Vec<Var>,
    pub render_cfg: CFG,
    pub hooks: Vec<HookEntry>,
    /// Provenance row per hook call in `hooks`.
    pub hook_provenance: Vec<HookProvenance>,
    /// Module-level `const` bindings of the source file with known kinds.
    pub module_consts: Vec<(Var, ModuleConstInit)>,
}

/// A lowered custom hook function.
#[derive(Debug)]
pub struct HookIR {
    /// Source file this hook was lowered from.
    pub file: String,
    pub name: Symbol,
    pub params: Vec<Var>,
    pub body_cfg: CFG,
    /// Hook calls declared inside this hook's body.
    pub hooks: Vec<HookEntry>,
    /// Provenance row per hook call in `hooks`.
    pub hook_provenance: Vec<HookProvenance>,
}

/// A lowered plain utility function: no hook calls, so it can be inlined at
/// a call site whose body would otherwise be opaque.
#[derive(Debug)]
pub struct FunctionIR {
    /// Source file this function was lowered from.
    pub file: String,
    pub name: Symbol,
    pub params: Vec<Var>,
    pub body_cfg: CFG,
}

} // verus!
