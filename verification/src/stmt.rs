//! Statements of a basic block.
use vstd::prelude::*;

use crate::expr::Expr;
use crate::source_range::SourceRange;
use crate::types::{Symbol, Var};

verus! {

/// Which member of an object a [`Stmt::MemberWrite`] targets.
#[derive(Debug)]
pub enum MemberKey {
    Field(Symbol),
    Index(Expr),
}

/// One IR statement.
#[derive(Debug)]
pub enum Stmt {
    Let { var: Var, rhs: Expr, span: Option<SourceRange> },
    Assign { var: Var, rhs: Expr, span: Option<SourceRange> },
    /// An in-place write through a member expression: a mutation, not a
    /// rebinding.
    MemberWrite { obj: Expr, key: MemberKey, rhs: Expr, span: Option<SourceRange> },
    ExprStmt(Expr, Option<SourceRange>),
}

/// The expressions a statement evaluates: a binding's value; a member
/// write's object, value and (for a computed member) index; an expression
/// statement's expression.
pub open spec fn stmt_exprs(s: Stmt) -> Seq<Expr> {
    match s {
        Stmt::Let { rhs, .. } => seq![rhs],
        Stmt::Assign { rhs, .. } => seq![rhs],
        Stmt::MemberWrite { obj, key, rhs, .. } => match key {
            MemberKey::Index(i) => seq![obj, rhs, i],
            MemberKey::Field(_) => seq![obj, rhs],
        },
        Stmt::ExprStmt(e, _) => seq![e],
    }
}

impl Stmt {
    /// The span a statement carries, whichever variant it is.
    pub open spec fn spec_span(&self) -> Option<SourceRange> {
        match self {
            Stmt::Let { span, .. } => *span,
            Stmt::Assign { span, .. } => *span,
            Stmt::MemberWrite { span, .. } => *span,
            Stmt::ExprStmt(_, span) => *span,
        }
    }

    /// Where the statement is in the source, whichever variant it is.
    pub fn span(&self) -> (r: Option<SourceRange>)
        ensures
            r == self.spec_span(),
    {
        match self {
            Stmt::Let { span, .. } => *span,
            Stmt::Assign { span, .. } => *span,
            Stmt::MemberWrite { span, .. } => *span,
            Stmt::ExprStmt(_, span) => *span,
        }
    }
}

} // verus!
