//! The callback-registration vocabulary: how a registered callback re-fires,
//! when it can run, and whether the effect's cleanup takes it back.
use vstd::prelude::*;
use vstd::string::StringExecFns;

use crate::expr::{peeled, Expr};
use crate::splice::names;
use crate::text::str_eq;

verus! {

/// How a registered callback re-fires after the registering call returns.
#[derive(Debug, Clone, Copy, PartialEq, Eq, Structural)]
pub enum Firing {
    /// An unbounded number of times (timer tick, event, subscription).
    Repeating,
    /// Once, shortly after registration (timeout, promise, animation frame).
    Once,
}

/// When a registered callback can run, relative to the React phases.
#[derive(Debug, Clone, Copy, PartialEq, Eq, Structural)]
pub enum Timing {
    /// A later turn of the event loop, outside every React phase.
    Deferred,
    /// An external event; never during the registering call.
    Handler,
    /// The registrar may invoke the callback synchronously.
    Unknown,
}

/// Which value a teardown call identifies its registration by.
#[derive(Debug, Clone, Copy, PartialEq, Eq, Structural)]
pub enum TeardownArg {
    /// The callback itself: `removeEventListener(type, h)`.
    Listener,
    /// The value the registration returned: `clearInterval(id)`.
    Handle,
}

/// A callee that registers a callback surviving the call.
#[derive(Debug, Clone)]
pub struct Registrar {
    pub name: String,
    /// Index of the callback argument.
    pub cb_arg: usize,
    pub firing: Firing,
    /// Must be called as `recv.name(…)`.
    pub method_only: bool,
    pub timing: Timing,
    /// Calls that undo this registration; empty when none can.
    pub teardown: Vec<String>,
    /// What those calls are handed.
    pub teardown_takes: TeardownArg,
}

/// Whether the effect's cleanup takes a registration back.
#[derive(Debug, Clone, Copy, PartialEq, Eq, Structural)]
pub enum Pairing {
    /// A readable cleanup calls one of the registrar's teardown names holding
    /// the same listener binding.
    Paired,
    /// A readable cleanup with no such call, or no cleanup at all.
    Unpaired,
    /// A cleanup the walk cannot read, or a listener that is not a binding.
    Unknown,
}

impl Pairing {
    /// `true` unless the teardown is proven: `Unknown` is a may-fact on the
    /// firing side.
    pub fn may_be_unpaired(self) -> (r: bool)
        ensures
            r <==> self != Pairing::Paired,
    {
        self != Pairing::Paired
    }
}

/// A registrar as plain values: name, callback position, firing,
/// method-only, timing, teardown names, what a teardown is handed.
pub type RegistrarView = (Seq<char>, usize, Firing, bool, Timing, Seq<Seq<char>>, TeardownArg);

impl Registrar {
    /// The registrar as plain values.
    pub open spec fn view(&self) -> RegistrarView {
        (self.name@, self.cb_arg, self.firing, self.method_only, self.timing, names(self.teardown@), self.teardown_takes)
    }
}

/// The one registrar table: every callee known to hand a callback to
/// something that outlives the call, one row each.
pub open spec fn registrar_table() -> Seq<RegistrarView> {
    seq![
        ("setInterval"@, 0usize, Firing::Repeating, false, Timing::Deferred, seq!["clearInterval"@], TeardownArg::Handle),
        ("addEventListener"@, 1usize, Firing::Repeating, false, Timing::Handler, seq!["removeEventListener"@], TeardownArg::Listener),
        ("subscribe"@, 0usize, Firing::Repeating, true, Timing::Unknown, seq!["unsubscribe"@], TeardownArg::Listener),
        ("on"@, 1usize, Firing::Repeating, true, Timing::Unknown, seq!["off"@, "removeListener"@], TeardownArg::Listener),
        ("addListener"@, 1usize, Firing::Repeating, true, Timing::Unknown, seq!["removeListener"@], TeardownArg::Listener),
        ("setTimeout"@, 0usize, Firing::Once, false, Timing::Deferred, seq!["clearTimeout"@], TeardownArg::Handle),
        ("setImmediate"@, 0usize, Firing::Once, false, Timing::Deferred, seq!["clearImmediate"@], TeardownArg::Handle),
        ("requestAnimationFrame"@, 0usize, Firing::Once, false, Timing::Deferred, seq!["cancelAnimationFrame"@], TeardownArg::Handle),
        ("requestIdleCallback"@, 0usize, Firing::Once, false, Timing::Deferred, seq!["cancelIdleCallback"@], TeardownArg::Handle),
        ("queueMicrotask"@, 0usize, Firing::Once, false, Timing::Deferred, Seq::<Seq<char>>::empty(), TeardownArg::Handle),
        ("then"@, 0usize, Firing::Once, true, Timing::Deferred, Seq::<Seq<char>>::empty(), TeardownArg::Handle),
        ("catch"@, 0usize, Firing::Once, true, Timing::Deferred, Seq::<Seq<char>>::empty(), TeardownArg::Handle),
        ("finally"@, 0usize, Firing::Once, true, Timing::Deferred, Seq::<Seq<char>>::empty(), TeardownArg::Handle),
    ]
}

fn row(
    name: &str,
    cb_arg: usize,
    firing: Firing,
    method_only: bool,
    timing: Timing,
    teardown: Vec<String>,
    teardown_takes: TeardownArg,
) -> (r: Registrar)
    ensures
        r@ == (name@, cb_arg, firing, method_only, timing, names(teardown@), teardown_takes),
{
    Registrar { name: String::from_str(name), cb_arg, firing, method_only, timing, teardown, teardown_takes }
}

fn one(a: &str) -> (r: Vec<String>)
    ensures
        names(r@) == seq![a@],
{
    let mut r: Vec<String> = Vec::new();
    r.push(String::from_str(a));
    assert(names(r@) =~= seq![a@]);
    r
}

fn none() -> (r: Vec<String>)
    ensures
        names(r@) == Seq::<Seq<char>>::empty(),
{
    let r: Vec<String> = Vec::new();
    assert(names(r@) =~= Seq::<Seq<char>>::empty());
    r
}

/// A copy of a registrar, equal to it as plain values.
fn copy_registrar(g: &Registrar) -> (r: Registrar)
    ensures
        r@ == g@,
{
    Registrar {
        name: g.name.clone(),
        cb_arg: g.cb_arg,
        firing: g.firing,
        method_only: g.method_only,
        timing: g.timing,
        teardown: crate::expr::copy_strings(&g.teardown),
        teardown_takes: g.teardown_takes,
    }
}

/// The registrar table, row by row.
pub fn registrars() -> (r: Vec<Registrar>)
    ensures
        r@.map_values(|g: Registrar| g@) == registrar_table(),
{
    let mut two: Vec<String> = Vec::new();
    two.push(String::from_str("off"));
    two.push(String::from_str("removeListener"));
    assert(names(two@) =~= seq!["off"@, "removeListener"@]);
    let mut r: Vec<Registrar> = Vec::new();
    r.push(row("setInterval", 0, Firing::Repeating, false, Timing::Deferred, one("clearInterval"), TeardownArg::Handle));
    r.push(row("addEventListener", 1, Firing::Repeating, false, Timing::Handler, one("removeEventListener"), TeardownArg::Listener));
    r.push(row("subscribe", 0, Firing::Repeating, true, Timing::Unknown, one("unsubscribe"), TeardownArg::Listener));
    r.push(row("on", 1, Firing::Repeating, true, Timing::Unknown, two, TeardownArg::Listener));
    r.push(row("addListener", 1, Firing::Repeating, true, Timing::Unknown, one("removeListener"), TeardownArg::Listener));
    r.push(row("setTimeout", 0, Firing::Once, false, Timing::Deferred, one("clearTimeout"), TeardownArg::Handle));
    r.push(row("setImmediate", 0, Firing::Once, false, Timing::Deferred, one("clearImmediate"), TeardownArg::Handle));
    r.push(row("requestAnimationFrame", 0, Firing::Once, false, Timing::Deferred, one("cancelAnimationFrame"), TeardownArg::Handle));
    r.push(row("requestIdleCallback", 0, Firing::Once, false, Timing::Deferred, one("cancelIdleCallback"), TeardownArg::Handle));
    r.push(row("queueMicrotask", 0, Firing::Once, false, Timing::Deferred, none(), TeardownArg::Handle));
    r.push(row("then", 0, Firing::Once, true, Timing::Deferred, none(), TeardownArg::Handle));
    r.push(row("catch", 0, Firing::Once, true, Timing::Deferred, none(), TeardownArg::Handle));
    r.push(row("finally", 0, Firing::Once, true, Timing::Deferred, none(), TeardownArg::Handle));
    assert(r@.map_values(|g: Registrar| g@) =~= registrar_table());
    r
}

/// The name a callee is called by: a bare name, or the method name of a
/// member call (with the receiver's name when the receiver is a variable).
pub open spec fn callee_parts(fn_: Expr) -> Option<(Seq<char>, Option<Seq<char>>, bool)> {
    match peeled(fn_) {
        Expr::Var(n) => Some((n@, None, false)),
        Expr::FieldAccess { obj, field } => Some(
            (
                field@,
                match peeled(*obj) {
                    Expr::Var(v) => Some(v@),
                    _ => None,
                },
                true,
            ),
        ),
        _ => None,
    }
}

/// The first row of `table` named `method` that may be called this way.
pub open spec fn row_for(table: Seq<RegistrarView>, method: Seq<char>, is_method: bool) -> Option<int>
    decreases table.len(),
{
    if table.len() == 0 {
        None
    } else if table[0].0 == method && (!table[0].3 || is_method) {
        Some(0)
    } else {
        match row_for(table.drop_first(), method, is_method) {
            Some(i) => Some(i + 1),
            None => None,
        }
    }
}

/// The registrar row a callee matches, if any.
pub open spec fn registrar_of(fn_: Expr) -> Option<RegistrarView> {
    match callee_parts(fn_) {
        Some((method, _, is_method)) => match row_for(registrar_table(), method, is_method) {
            Some(i) => Some(registrar_table()[i]),
            None => None,
        },
        None => None,
    }
}

/// What the registrar table says of the common registrations, whatever
/// receiver they are called on: `setTimeout`, `setInterval`,
/// `requestAnimationFrame` and `queueMicrotask` (bare or as a method) run
/// their callback (argument 0) on a later turn; `addEventListener` (bare or
/// as a method) runs its callback (argument 1) on an external event,
/// repeatedly; a promise's `then` runs its callback later but only as a
/// method, so a bare `then(…)` registers nothing; `subscribe` is a method
/// whose callback may run at once.
pub proof fn lemma_common_registrars(n: String, obj: Box<Expr>)
    ensures
        n@ == "setTimeout"@ ==> registrar_of(Expr::Var(n)) == Some(
            ("setTimeout"@, 0usize, Firing::Once, false, Timing::Deferred, seq!["clearTimeout"@], TeardownArg::Handle),
        ),
        n@ == "setInterval"@ ==> registrar_of(Expr::Var(n)) == Some(
            ("setInterval"@, 0usize, Firing::Repeating, false, Timing::Deferred, seq!["clearInterval"@], TeardownArg::Handle),
        ),
        n@ == "requestAnimationFrame"@ ==> registrar_of(Expr::Var(n)) == Some(
            (
                "requestAnimationFrame"@,
                0usize,
                Firing::Once,
                false,
                Timing::Deferred,
                seq!["cancelAnimationFrame"@],
                TeardownArg::Handle,
            ),
        ),
        n@ == "queueMicrotask"@ ==> registrar_of(Expr::Var(n)) == Some(
            ("queueMicrotask"@, 0usize, Firing::Once, false, Timing::Deferred, Seq::<Seq<char>>::empty(), TeardownArg::Handle),
        ),
        n@ == "addEventListener"@ ==> registrar_of(Expr::Var(n)) == Some(
            (
                "addEventListener"@,
                1usize,
                Firing::Repeating,
                false,
                Timing::Handler,
                seq!["removeEventListener"@],
                TeardownArg::Listener,
            ),
        ),
        (n@ == "setTimeout"@ || n@ == "setInterval"@ || n@ == "requestAnimationFrame"@ || n@ == "queueMicrotask"@
            || n@ == "addEventListener"@) ==> registrar_of(Expr::FieldAccess { obj, field: n }) == registrar_of(Expr::Var(n)),
        n@ == "then"@ ==> registrar_of(Expr::Var(n)) is None && registrar_of(Expr::FieldAccess { obj, field: n }) == Some(
            ("then"@, 0usize, Firing::Once, true, Timing::Deferred, Seq::<Seq<char>>::empty(), TeardownArg::Handle),
        ),
        n@ == "subscribe"@ ==> registrar_of(Expr::Var(n)) is None && registrar_of(Expr::FieldAccess { obj, field: n }) == Some(
            ("subscribe"@, 0usize, Firing::Repeating, true, Timing::Unknown, seq!["unsubscribe"@], TeardownArg::Listener),
        ),
{
    reveal_strlit("setInterval");
    reveal_strlit("addEventListener");
    reveal_strlit("subscribe");
    reveal_strlit("on");
    reveal_strlit("addListener");
    reveal_strlit("setTimeout");
    reveal_strlit("setImmediate");
    reveal_strlit("requestAnimationFrame");
    reveal_strlit("requestIdleCallback");
    reveal_strlit("queueMicrotask");
    reveal_strlit("then");
    reveal_strlit("catch");
    reveal_strlit("finally");
    let t = registrar_table();
    assert(t[0].0 == "setInterval"@ && t[1].0 == "addEventListener"@ && t[2].0 == "subscribe"@ && t[3].0 == "on"@);
    assert(t[4].0 == "addListener"@ && t[5].0 == "setTimeout"@ && t[6].0 == "setImmediate"@);
    assert(t[7].0 == "requestAnimationFrame"@ && t[8].0 == "requestIdleCallback"@ && t[9].0 == "queueMicrotask"@);
    assert(t[10].0 == "then"@ && t[11].0 == "catch"@ && t[12].0 == "finally"@);
    lemma_row_for(t, n@, false);
    lemma_row_for(t, n@, true);
}

/// No array method that runs its callback synchronously is a registrar:
/// `xs.map(f)` and its kin register nothing.
pub proof fn lemma_array_methods_register_nothing(n: String, obj: Box<Expr>)
    ensures
        (n@ == "map"@ || n@ == "forEach"@ || n@ == "filter"@ || n@ == "reduce"@ || n@ == "reduceRight"@ || n@ == "find"@ || n@ == "findIndex"@ || n@ == "findLast"@ || n@ == "findLastIndex"@ || n@ == "some"@ || n@ == "every"@ || n@ == "flatMap"@ || n@ == "sort"@) ==> registrar_of(Expr::FieldAccess { obj, field: n }) is None && registrar_of(Expr::Var(n)) is None,
{
    reveal_strlit("setInterval");
    reveal_strlit("addEventListener");
    reveal_strlit("subscribe");
    reveal_strlit("on");
    reveal_strlit("addListener");
    reveal_strlit("setTimeout");
    reveal_strlit("setImmediate");
    reveal_strlit("requestAnimationFrame");
    reveal_strlit("requestIdleCallback");
    reveal_strlit("queueMicrotask");
    reveal_strlit("then");
    reveal_strlit("catch");
    reveal_strlit("finally");
    reveal_strlit("map");
    reveal_strlit("forEach");
    reveal_strlit("filter");
    reveal_strlit("reduce");
    reveal_strlit("reduceRight");
    reveal_strlit("find");
    reveal_strlit("findIndex");
    reveal_strlit("findLast");
    reveal_strlit("findLastIndex");
    reveal_strlit("some");
    reveal_strlit("every");
    reveal_strlit("flatMap");
    reveal_strlit("sort");
    let t = registrar_table();
    if n@ == "map"@ || n@ == "forEach"@ || n@ == "filter"@ || n@ == "reduce"@ || n@ == "reduceRight"@ || n@ == "find"@ || n@ == "findIndex"@ || n@ == "findLast"@ || n@ == "findLastIndex"@ || n@ == "some"@ || n@ == "every"@ || n@ == "flatMap"@ || n@ == "sort"@ {
        assert forall|k: int| 0 <= k < t.len() implies t[k].0 != n@ by {
            if k == 0 {
                assert(t[k].0 == "setInterval"@);
                assert(n@.len() != "setInterval"@.len() || n@[0] != "setInterval"@[0]);
            } else if k == 1 {
                assert(t[k].0 == "addEventListener"@);
                assert(n@.len() != "addEventListener"@.len() || n@[0] != "addEventListener"@[0]);
            } else if k == 2 {
                assert(t[k].0 == "subscribe"@);
                assert(n@.len() != "subscribe"@.len() || n@[0] != "subscribe"@[0]);
            } else if k == 3 {
                assert(t[k].0 == "on"@);
                assert(n@.len() != "on"@.len() || n@[0] != "on"@[0]);
            } else if k == 4 {
                assert(t[k].0 == "addListener"@);
                assert(n@.len() != "addListener"@.len() || n@[0] != "addListener"@[0]);
            } else if k == 5 {
                assert(t[k].0 == "setTimeout"@);
                assert(n@.len() != "setTimeout"@.len() || n@[0] != "setTimeout"@[0]);
            } else if k == 6 {
                assert(t[k].0 == "setImmediate"@);
                assert(n@.len() != "setImmediate"@.len() || n@[0] != "setImmediate"@[0]);
            } else if k == 7 {
                assert(t[k].0 == "requestAnimationFrame"@);
                assert(n@.len() != "requestAnimationFrame"@.len() || n@[0] != "requestAnimationFrame"@[0]);
            } else if k == 8 {
                assert(t[k].0 == "requestIdleCallback"@);
                assert(n@.len() != "requestIdleCallback"@.len() || n@[0] != "requestIdleCallback"@[0]);
            } else if k == 9 {
                assert(t[k].0 == "queueMicrotask"@);
                assert(n@.len() != "queueMicrotask"@.len() || n@[0] != "queueMicrotask"@[0]);
            } else if k == 10 {
                assert(t[k].0 == "then"@);
                assert(n@.len() != "then"@.len() || n@[0] != "then"@[0]);
            } else if k == 11 {
                assert(t[k].0 == "catch"@);
                assert(n@.len() != "catch"@.len() || n@[0] != "catch"@[0]);
            } else if k == 12 {
                assert(t[k].0 == "finally"@);
                assert(n@.len() != "finally"@.len() || n@[0] != "finally"@[0] || n@[1] != "finally"@[1]);
            }
        }
        lemma_row_for(t, n@, false);
        lemma_row_for(t, n@, true);
    }
}

/// The calls that undo a registration: `clearInterval`, `clearTimeout`,
/// `clearImmediate`, `cancelAnimationFrame`, `cancelIdleCallback`,
/// `removeEventListener`, `removeListener`, `unsubscribe` and `off` each
/// take a callback or handle back.
pub proof fn lemma_teardown_names(n: Seq<char>)
    ensures
        (n == "clearInterval"@ || n == "clearTimeout"@ || n == "clearImmediate"@ || n == "cancelAnimationFrame"@
            || n == "cancelIdleCallback"@ || n == "removeEventListener"@ || n == "removeListener"@ || n == "unsubscribe"@
            || n == "off"@) ==> teardown_name(n),
{
    let t = registrar_table();
    assert(t[0].5[0] == "clearInterval"@);
    assert(t[1].5[0] == "removeEventListener"@);
    assert(t[2].5[0] == "unsubscribe"@);
    assert(t[3].5[0] == "off"@ && t[3].5[1] == "removeListener"@);
    assert(t[5].5[0] == "clearTimeout"@);
    assert(t[6].5[0] == "clearImmediate"@);
    assert(t[7].5[0] == "cancelAnimationFrame"@);
    assert(t[8].5[0] == "cancelIdleCallback"@);
}

/// How a matched registration is displayed: `recv.name`, `.name` for a
/// receiver that is not a variable, or the bare name.
pub open spec fn registrar_display(fn_: Expr) -> Seq<char> {
    match callee_parts(fn_) {
        Some((method, Some(root), _)) => root + seq!['.'] + method,
        Some((method, None, true)) => seq!['.'] + method,
        Some((method, None, false)) => method,
        None => Seq::empty(),
    }
}

proof fn lemma_row_for(table: Seq<RegistrarView>, method: Seq<char>, is_method: bool)
    ensures
        row_for(table, method, is_method) matches Some(i) ==> 0 <= i < table.len() && table[i].0 == method && (!table[i].3 || is_method)
            && forall|k: int| 0 <= k < i ==> !(table[k].0 == method && (!table[k].3 || is_method)),
        row_for(table, method, is_method) is None ==> forall|k: int| 0 <= k < table.len() ==> !(table[k].0 == method && (!table[k].3 || is_method)),
    decreases table.len(),
{
    if table.len() > 0 {
        lemma_row_for(table.drop_first(), method, is_method);
        assert forall|k: int| 1 <= k < table.len() implies table[k] == table.drop_first()[k - 1] by {}
    }
}

/// Match a callee against the registrar table: the row and the name the
/// registration is displayed by.
#[verifier::loop_isolation(false)]
pub fn match_registrar(fn_: &Expr) -> (r: Option<(Registrar, String)>)
    ensures
        r is Some <==> registrar_of(*fn_) is Some,
        r matches Some((g, d)) ==> registrar_of(*fn_) == Some(g@) && d@ == registrar_display(*fn_),
{
    let (method, root, is_method): (&str, Option<&str>, bool) = match fn_.peel_ts() {
        Expr::Var(name) => (name.as_str(), None, false),
        Expr::FieldAccess { obj, field } => {
            let root = match (**obj).peel_ts() {
                Expr::Var(v) => Some(v.as_str()),
                _ => None,
            };
            (field.as_str(), root, true)
        },
        _ => return None,
    };
    let table = registrars();
    let ghost t = registrar_table();
    proof {
        lemma_row_for(t, method@, is_method);
    }
    let mut i: usize = 0;
    while i < table.len()
        invariant
            i <= table.len(),
            table@.map_values(|g: Registrar| g@) == t,
            forall|k: int| 0 <= k < i ==> !(t[k].0 == method@ && (!t[k].3 || is_method)),
        decreases table.len() - i,
    {
        assert(t[i as int] == table@[i as int]@);
        if str_eq(table[i].name.as_str(), method) && (!table[i].method_only || is_method) {
            proof {
                if row_for(t, method@, is_method) != Some(i as int) {
                    let j = row_for(t, method@, is_method).unwrap();
                    assert(j < i);
                }
            }
            proof {
                reveal_strlit(".");
            }
            let display = match root {
                Some(rt) => {
                    let mut d = String::from_str(rt);
                    d.append(".");
                    d.append(method);
                    d
                },
                None => {
                    if is_method {
                        let mut d = String::from_str(".");
                        d.append(method);
                        d
                    } else {
                        String::from_str(method)
                    }
                },
            };
            let g = copy_registrar(&table[i]);
            return Some((g, display));
        }
        i = i + 1;
    }
    None
}

/// `n` is the teardown partner of some registrar in the table.
pub open spec fn teardown_name(n: Seq<char>) -> bool {
    exists|i: int, j: int| 0 <= i < registrar_table().len() && 0 <= j < registrar_table()[i].5.len() && #[trigger] registrar_table()[i].5[j] == n
}

/// The name a callee is called by, bare or as a method.
pub open spec fn called_name(fn_: Expr) -> Option<Seq<char>> {
    match peeled(fn_) {
        Expr::Var(n) => Some(n@),
        Expr::FieldAccess { field, .. } => Some(field@),
        _ => None,
    }
}

/// Does this callee unregister: `removeEventListener`, `unsubscribe`,
/// `clearInterval` and the rest of the table's teardown column? A teardown
/// takes a callback back; it never calls it.
#[verifier::loop_isolation(false)]
pub fn is_teardown(fn_: &Expr) -> (r: bool)
    ensures
        r == match called_name(*fn_) {
            Some(n) => teardown_name(n),
            None => false,
        },
{
    let name: &str = match fn_.peel_ts() {
        Expr::Var(n) => n.as_str(),
        Expr::FieldAccess { field, .. } => field.as_str(),
        _ => return false,
    };
    let table = registrars();
    let ghost t = registrar_table();
    let mut i: usize = 0;
    while i < table.len()
        invariant
            i <= table.len(),
            table@.map_values(|g: Registrar| g@) == t,
            forall|a: int, b: int| 0 <= a < i && 0 <= b < t[a].5.len() ==> #[trigger] t[a].5[b] != name@,
        decreases table.len() - i,
    {
        assert(t[i as int] == table@[i as int]@);
        let mut j: usize = 0;
        while j < table[i].teardown.len()
            invariant
                j <= table@[i as int].teardown.len(),
                forall|a: int, b: int| 0 <= a < i && 0 <= b < t[a].5.len() ==> #[trigger] t[a].5[b] != name@,
                forall|b: int| 0 <= b < j ==> #[trigger] t[i as int].5[b] != name@,
            decreases table@[i as int].teardown.len() - j,
        {
            assert(t[i as int].5[j as int] == table@[i as int].teardown@[j as int]@);
            if str_eq(table[i].teardown[j].as_str(), name) {
                return true;
            }
            j = j + 1;
        }
        i = i + 1;
    }
    false
}

} // verus!
