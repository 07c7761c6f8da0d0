//! The expression language of the IR.
use std::sync::Arc;

use vstd::prelude::*;
use vstd::string::StrSliceExecFns;

use crate::cfg::CFG;
use crate::hooks::Arity;
use crate::source_range::SourceRange;
use crate::text::str_eq;
use crate::types::{ExprId, HookLabel, Symbol, Var};

verus! {

/// Primitive literal. A JS number that is not an `i32` is kept as the raw
/// IEEE-754 bit pattern of its `f64` value: the analyses compare literals,
/// they never compute with them.
#[derive(Debug, Clone)]
pub enum Prim {
    String(String),
    Int(i32),
    Float(u64),
    Bool(bool),
    Null,
    Unit,
}

impl Prim {
    /// A copy of the literal, equal to it.
    pub fn duplicate(&self) -> (r: Prim)
        ensures
            r == *self,
    {
        match self {
            Prim::String(s) => Prim::String(s.clone()),
            Prim::Int(i) => Prim::Int(*i),
            Prim::Float(b) => Prim::Float(*b),
            Prim::Bool(b) => Prim::Bool(*b),
            Prim::Null => Prim::Null,
            Prim::Unit => Prim::Unit,
        }
    }
}

/// A copy of a list of names, element for element.
pub fn copy_strings(v: &Vec<String>) -> (r: Vec<String>)
    ensures
        r@ == v@,
{
    let mut r: Vec<String> = Vec::new();
    let mut i: usize = 0;
    while i < v.len()
        invariant
            i <= v.len(),
            r@ == v@.subrange(0, i as int),
        decreases v.len() - i,
    {
        r.push(v[i].clone());
        i = i + 1;
    }
    assert(v@.subrange(0, v@.len() as int) =~= v@);
    r
}

/// A copy of a list of plain values, element for element.
pub fn copy_vec<T: Copy>(v: &Vec<T>) -> (r: Vec<T>)
    ensures
        r@ == v@,
{
    let mut r: Vec<T> = Vec::new();
    let mut i: usize = 0;
    while i < v.len()
        invariant
            i <= v.len(),
            r@ == v@.subrange(0, i as int),
        decreases v.len() - i,
    {
        r.push(v[i]);
        i = i + 1;
    }
    assert(v@.subrange(0, v@.len() as int) =~= v@);
    r
}

/// A copy of the per-prop span list of a native element.
pub fn copy_prop_spans(v: &Vec<(String, Option<SourceRange>)>) -> (r: Vec<(String, Option<SourceRange>)>)
    ensures
        r@ == v@,
{
    let mut r: Vec<(String, Option<SourceRange>)> = Vec::new();
    let mut i: usize = 0;
    while i < v.len()
        invariant
            i <= v.len(),
            r@ == v@.subrange(0, i as int),
        decreases v.len() - i,
    {
        let name = v[i].0.clone();
        let span = v[i].1;
        r.push((name, span));
        assert(r@.last() == v@[i as int]);
        i = i + 1;
    }
    assert(v@.subrange(0, v@.len() as int) =~= v@);
    r
}

/// Binary operators. Bitwise and shift operators are real variants: JS
/// coerces both operands to int32 (uint32 for `>>>`), so the result is
/// always a number in a known range.
#[derive(Debug, Clone, Copy, PartialEq, Eq, Structural)]
pub enum BinOp {
    Add,
    Sub,
    Mul,
    Div,
    And,
    Or,
    Eq,
    Neq,
    Lt,
    Gt,
    Leq,
    Geq,
    BitAnd,
    BitOr,
    BitXor,
    Shl,
    Shr,
    /// `>>>`: unsigned, the result is a uint32.
    UShr,
    /// An operator whose concrete semantics are not modeled.
    Unknown,
}

/// Unary operators.
#[derive(Debug, Clone, Copy, PartialEq, Eq, Structural)]
pub enum UnaryOp {
    Neg,
    Not,
    /// `~x`: int32 bitwise NOT.
    BitNot,
    /// `typeof x`: always a string.
    TypeOf,
    /// Unary `+x`: numeric coercion.
    Plus,
    /// Not modeled: evaluated as ⊤, never as the identity.
    Unknown,
}

/// A component's identity: the file that defines it and the name it is
/// defined under there.
#[derive(Debug, Clone, PartialEq, Eq, Hash, PartialOrd, Ord)]
pub struct CompOrigin {
    pub file: String,
    pub name: Symbol,
}

impl CompOrigin {
    /// The origin as plain values: `(file, name)`.
    pub open spec fn view(&self) -> (Seq<char>, Seq<char>) {
        (self.file@, self.name@)
    }
}

/// Coarse abstract return-value hint for library hooks.
#[derive(Debug, Clone, Copy, PartialEq, Eq, Structural)]
pub enum SummaryValue {
    /// ⊤: completely unknown.
    Top,
    /// A reference-stable value.
    StableRef,
    /// A reference-unstable value (new object every render).
    UnstableRef,
}

/// What a [`Expr::HookMarker`] binding reads as.
#[derive(Debug, Clone, Copy, PartialEq, Eq, Structural)]
pub enum MarkerVal {
    /// React's own value-less hooks.
    Undefined,
    /// `useRef`: a reference whose identity is constant across renders.
    StableRef,
    /// A custom hook the engine could neither inline nor summarize.
    Unknown,
    /// The library hook's summary.
    Summary(SummaryValue),
}

/// Key prefix of the synthetic object member that holds an object spread.
pub const SPREAD_KEY_PREFIX: &'static str = "...";

/// `k` names the synthetic member that holds an object spread.
pub open spec fn spread_key(k: Seq<char>) -> bool {
    k.len() >= 3 && k[0] == '.' && k[1] == '.' && k[2] == '.'
}

/// `true` iff `k` is the key of an object spread.
pub fn is_spread_key(k: &str) -> (r: bool)
    ensures
        r == spread_key(k@),
{
    k.unicode_len() >= 3 && k.get_char(0) == '.' && k.get_char(1) == '.' && k.get_char(2) == '.'
}

/// What `{ ...fields }.k` certainly is: the last member written `k`, unless
/// an object spread written after it may carry its own `k`. Read from the
/// end: a member named `k` answers, a spread met first answers nothing.
pub open spec fn member_of(fields: Seq<(Symbol, Expr)>, k: Seq<char>) -> Option<Expr>
    decreases fields.len(),
{
    if fields.len() == 0 {
        None
    } else if fields.last().0@ == k {
        Some(fields.last().1)
    } else if spread_key(fields.last().0@) {
        None
    } else {
        member_of(fields.drop_last(), k)
    }
}

/// The member `key` of an object literal's `fields`, when no spread after it
/// may have replaced it.
pub fn object_member<'a>(fields: &'a Vec<(Symbol, Expr)>, key: &str) -> (r: Option<&'a Expr>)
    ensures
        r is Some <==> member_of(fields@, key@) is Some,
        r matches Some(e) ==> member_of(fields@, key@) == Some(*e),
{
    let mut i: usize = fields.len();
    assert(fields@.subrange(0, i as int) =~= fields@);
    while i > 0
        invariant
            i <= fields.len(),
            member_of(fields@, key@) == member_of(fields@.subrange(0, i as int), key@),
        decreases i,
    {
        i = i - 1;
        assert(fields@.subrange(0, i + 1).drop_last() =~= fields@.subrange(0, i as int));
        if str_eq(fields[i].0.as_str(), key) {
            return Some(&fields[i].1);
        }
        if is_spread_key(fields[i].0.as_str()) {
            return None;
        }
    }
    None
}

/// An IR expression.
#[derive(Debug)]
pub enum Expr {
    Lit(Prim),
    ObjectLit { id: ExprId, fields: Vec<(Symbol, Expr)> },
    /// `arity` is the source array's length, `spread_at` the positions in
    /// `elems` that came from a spread.
    ArrayLit { id: ExprId, elems: Vec<Expr>, arity: Arity, spread_at: Vec<usize> },
    FnLit { id: ExprId, params: Vec<Var>, body_cfg: Arc<CFG> },
    Var(Symbol),
    FieldAccess { obj: Box<Expr>, field: Symbol },
    IndexAccess { arr: Box<Expr>, idx: Box<Expr> },
    BinOp { op: BinOp, lhs: Box<Expr>, rhs: Box<Expr> },
    UnaryOp { op: UnaryOp, arg: Box<Expr> },
    Call { fn_: Box<Expr>, args: Vec<Expr> },
    CompApp { name: Symbol, props: Box<Expr>, span: Option<SourceRange> },
    /// `prop_spans`: spans of the JSX event-handler props, by prop name.
    NativeElem {
        tag: Symbol,
        props: Box<Expr>,
        children: Vec<Expr>,
        span: Option<SourceRange>,
        prop_spans: Vec<(String, Option<SourceRange>)>,
    },
    /// A TypeScript annotation marker (`x as T`); the type itself is erased.
    TSAnnotated(Box<Expr>),
    StateVal(HookLabel),
    StateSetter(HookLabel),
    MemoVal(HookLabel),
    CallbackVal(HookLabel),
    /// The call site of a hook whose result carries no tracked value.
    HookMarker(HookLabel, MarkerVal),
    /// The encoded abstract value of a summarized library hook.
    SummaryVal(SummaryValue),
}

/// `e` with its TypeScript annotation wrappers stripped.
pub open spec fn peeled(e: Expr) -> Expr
    decreases e,
{
    match e {
        Expr::TSAnnotated(inner) => peeled(*inner),
        _ => e,
    }
}

/// The expressions directly inside `e`, in source order, short of a
/// function literal's body: a call's callee then its arguments, an
/// element's props then its children, a literal's members or elements, an
/// access's object (and index), an operator's operands, an annotation's
/// inner expression. Leaves have none.
pub open spec fn children_of(e: Expr) -> Seq<Expr> {
    match e {
        Expr::Call { fn_, args } => seq![*fn_] + args@,
        Expr::CompApp { props, .. } => seq![*props],
        Expr::NativeElem { props, children, .. } => seq![*props] + children@,
        Expr::ObjectLit { fields, .. } => fields@.map_values(|f: (Symbol, Expr)| f.1),
        Expr::ArrayLit { elems, .. } => elems@,
        Expr::FieldAccess { obj, .. } => seq![*obj],
        Expr::IndexAccess { arr, idx } => seq![*arr, *idx],
        Expr::BinOp { lhs, rhs, .. } => seq![*lhs, *rhs],
        Expr::UnaryOp { arg, .. } => seq![*arg],
        Expr::TSAnnotated(inner) => seq![*inner],
        _ => Seq::empty(),
    }
}

/// No `Call`, `CompApp` or `NativeElem` node anywhere in `e`; function
/// literal bodies are not crossed.
pub open spec fn call_free(e: Expr) -> bool
    decreases e,
{
    match e {
        Expr::Call { .. } => false,
        Expr::CompApp { .. } => false,
        Expr::NativeElem { .. } => false,
        Expr::ObjectLit { fields, .. } => forall|i: int| 0 <= i < fields.len() ==> call_free(#[trigger] fields@[i].1),
        Expr::ArrayLit { elems, .. } => forall|i: int| 0 <= i < elems.len() ==> call_free(#[trigger] elems@[i]),
        Expr::FieldAccess { obj, .. } => call_free(*obj),
        Expr::IndexAccess { arr, idx } => call_free(*arr) && call_free(*idx),
        Expr::BinOp { lhs, rhs, .. } => call_free(*lhs) && call_free(*rhs),
        Expr::UnaryOp { arg, .. } => call_free(*arg),
        Expr::TSAnnotated(inner) => call_free(*inner),
        _ => true,
    }
}

/// An expression is free of calls and elements exactly when it is not
/// itself a call, a component element or a native element and every
/// expression directly inside it is free of them.
pub proof fn lemma_call_free_structure(e: Expr)
    ensures
        (e is Call || e is CompApp || e is NativeElem) ==> !call_free(e),
        !(e is Call || e is CompApp || e is NativeElem) ==> (call_free(e) <==> forall|k: int|
            0 <= k < children_of(e).len() ==> call_free(#[trigger] children_of(e)[k])),
{
    let c = children_of(e);
    match e {
        Expr::Call { fn_, args } => {
            assert(c[0] == *fn_);
            assert forall|i: int| 0 <= i < args.len() implies c[i + 1] == args@[i] by {}
            assert forall|k: int| 0 <= k < c.len() implies (k == 0 && c[k] == *fn_) || (k >= 1 && c[k] == args@[k - 1]) by {}
        },
        Expr::NativeElem { props, children, .. } => {
            assert(c[0] == *props);
            assert forall|i: int| 0 <= i < children.len() implies c[i + 1] == children@[i] by {}
            assert forall|k: int| 0 <= k < c.len() implies (k == 0 && c[k] == *props) || (k >= 1 && c[k] == children@[k - 1]) by {}
        },
        Expr::CompApp { props, .. } => {
            assert(c[0] == *props);
            assert forall|k: int| 0 <= k < c.len() implies c[k] == *props by {}
        },
        Expr::ObjectLit { fields, .. } => {
            assert(c.len() == fields.len());
            assert forall|k: int| 0 <= k < c.len() implies #[trigger] c[k] == fields@[k].1 by {}
            assert forall|i: int| 0 <= i < fields.len() implies #[trigger] fields@[i].1 == c[i] by {}
        },
        Expr::FieldAccess { obj, .. } => {
            assert(c[0] == *obj);
            assert forall|k: int| 0 <= k < c.len() implies c[k] == *obj by {}
        },
        Expr::IndexAccess { arr, idx } => {
            assert(c[0] == *arr && c[1] == *idx);
            assert forall|k: int| 0 <= k < c.len() implies (k == 0 && c[k] == *arr) || (k == 1 && c[k] == *idx) by {}
        },
        Expr::BinOp { lhs, rhs, .. } => {
            assert(c[0] == *lhs && c[1] == *rhs);
            assert forall|k: int| 0 <= k < c.len() implies (k == 0 && c[k] == *lhs) || (k == 1 && c[k] == *rhs) by {}
        },
        Expr::UnaryOp { arg, .. } => {
            assert(c[0] == *arg);
            assert forall|k: int| 0 <= k < c.len() implies c[k] == *arg by {}
        },
        Expr::TSAnnotated(inner) => {
            assert(c[0] == *inner);
            assert forall|k: int| 0 <= k < c.len() implies c[k] == *inner by {}
        },
        _ => {},
    }
}

/// The name of the DOM registration method a subscription is made with.
pub open spec fn add_event_listener() -> Seq<char> {
    seq!['a', 'd', 'd', 'E', 'v', 'e', 'n', 't', 'L', 'i', 's', 't', 'e', 'n', 'e', 'r']
}

/// The event name and listener body of an
/// `x.addEventListener("event", <function literal>, ...)` call.
pub open spec fn listener_shape(e: Expr) -> Option<(Seq<char>, CFG)> {
    match e {
        Expr::Call { fn_, args } => match *fn_ {
            Expr::FieldAccess { field, .. } => if field@ == add_event_listener() && args.len() >= 2 {
                match args@[0] {
                    Expr::Lit(Prim::String(ev)) => match args@[1] {
                        Expr::FnLit { body_cfg, .. } => Some((ev@, *body_cfg)),
                        _ => None,
                    },
                    _ => None,
                }
            } else {
                None
            },
            _ => None,
        },
        _ => None,
    }
}

impl Expr {
    /// Strip any `TSAnnotated` wrappers, returning the underlying expression.
    pub fn peel_ts(&self) -> (r: &Expr)
        ensures
            *r == peeled(*self),
        decreases self,
    {
        match self {
            Expr::TSAnnotated(inner) => inner.peel_ts(),
            _ => self,
        }
    }

    /// `true` iff the expression tree holds no `Call`, `CompApp` or
    /// `NativeElem` node; function literal bodies are not crossed.
    #[verifier::loop_isolation(false)]
    pub fn is_call_free(&self) -> (r: bool)
        ensures
            r == call_free(*self),
        decreases self,
    {
        match self {
            Expr::Call { .. } => false,
            Expr::CompApp { .. } => false,
            Expr::NativeElem { .. } => false,
            Expr::ObjectLit { fields, .. } => {
                let mut i: usize = 0;
                while i < fields.len()
                    invariant
                        i <= fields.len(),
                        forall|k: int| 0 <= k < i ==> call_free(#[trigger] fields@[k].1),
                    decreases fields.len() - i,
                {
                    proof {
                        assert(decreases_to!(*self => *fields));
                        assert(decreases_to!(*fields => fields@));
                        assert(decreases_to!(fields@ => fields@[i as int]));
                        assert(decreases_to!(fields@[i as int] => fields@[i as int].1));
                    }
                    if !fields[i].1.is_call_free() {
                        return false;
                    }
                    i = i + 1;
                }
                true
            },
            Expr::ArrayLit { elems, .. } => {
                let mut i: usize = 0;
                while i < elems.len()
                    invariant
                        i <= elems.len(),
                        forall|k: int| 0 <= k < i ==> call_free(#[trigger] elems@[k]),
                    decreases elems.len() - i,
                {
                    proof {
                        assert(decreases_to!(*self => *elems));
                        assert(decreases_to!(*elems => elems@));
                        assert(decreases_to!(elems@ => elems@[i as int]));
                    }
                    if !elems[i].is_call_free() {
                        return false;
                    }
                    i = i + 1;
                }
                true
            },
            Expr::FieldAccess { obj, .. } => obj.is_call_free(),
            Expr::IndexAccess { arr, idx } => arr.is_call_free() && idx.is_call_free(),
            Expr::BinOp { lhs, rhs, .. } => lhs.is_call_free() && rhs.is_call_free(),
            Expr::UnaryOp { arg, .. } => arg.is_call_free(),
            Expr::TSAnnotated(inner) => inner.is_call_free(),
            _ => true,
        }
    }

    /// The `target.addEventListener("event", <function literal>)` shape: the
    /// event name and the listener body.
    pub fn subscription_listener(&self) -> (r: Option<(&str, &Arc<CFG>)>)
        ensures
            match r {
                Some((ev, body)) => listener_shape(*self) == Some((ev@, **body)),
                None => listener_shape(*self) is None,
            },
    {
        proof {
            reveal_strlit("addEventListener");
            assert("addEventListener"@ =~= add_event_listener());
        }
        if let Expr::Call { fn_, args } = self {
            if let Expr::FieldAccess { field, .. } = &**fn_ {
                if str_eq(field.as_str(), "addEventListener") && args.len() >= 2 {
                    if let Expr::Lit(Prim::String(event)) = &args[0] {
                        if let Expr::FnLit { body_cfg, .. } = &args[1] {
                            return Some((event.as_str(), body_cfg));
                        }
                    }
                }
            }
        }
        None
    }
}

} // verus!
