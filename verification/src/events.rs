//! The vocabulary of the per-file event stream the rules consume.
use vstd::prelude::*;

verus! {

/// A `(file, line, column)` position in an event.
#[derive(Debug, Clone)]
pub struct SourceLocation {
    pub file: String,
    pub line: u32,
    pub column: u32,
}

/// Which body an event happened in.
#[derive(Debug, Clone, Copy, PartialEq, Eq, Structural)]
pub enum AnalysisContext {
    Render,
    Effect,
    Memo,
    EventHandler,
    Unknown,
}

/// How a setter's argument relates to the state it writes.
#[derive(Debug, Clone, Copy, PartialEq, Eq, Structural)]
pub enum SetterArgClassif {
    Identity,
    Constant,
    Functional,
    Unknown,
}

/// The syntactic kind of a branch.
#[derive(Debug, Clone, Copy, PartialEq, Eq, Structural)]
pub enum BranchKind {
    If,
    Ternary,
    Logical,
    Switch,
    Loop,
}

} // verus!
