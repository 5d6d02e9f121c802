//! Logic-circuit signal resolver.
//!
//! A circuit is a set of named 16-bit wires. Each wire is defined by a gate:
//! a passthrough, a bitwise complement, an AND, an OR, or a shift, whose
//! operands are either literal values or references to other wires. The
//! resolver computes the settled signal of every wire by memoized recursion
//! over the definition graph: each wire is evaluated at most once per
//! resolution pass, and `reset` clears the memo so a pass can be re-run after
//! overriding a definition.
//!
//! The mathematical model is the fuel-bounded evaluator [`eval_wire`]: a wire
//! resolves to a value exactly when some finite evaluation depth produces it.
//! Evaluation is deterministic — [`lemma_signal_order_independent`] — so the
//! memoized signals are a function of the definitions alone, never of the
//! order in which wires were queried.

use vstd::prelude::*;

use crate::util::{all_digits, is_word, is_word_str, num_val, parse_decimal, split_bounds, split_char, str_eq};

verus! {

/// Spec-level endpoint: a literal value or a reference to a named wire.
pub ghost enum EndpointModel {
    Lit(u16),
    Ref(Seq<char>),
}

/// Spec-level gate definition.
pub ghost enum GateModel {
    NoOpG(EndpointModel),
    NotG(EndpointModel),
    AndG(EndpointModel, EndpointModel),
    OrG(EndpointModel, EndpointModel),
    LeftShiftG(EndpointModel, EndpointModel),
    RightShiftG(EndpointModel, EndpointModel),
}

/// One gate operand: a literal 16-bit constant or the name of another wire.
pub enum Endpoint {
    Source(u16),
    Wire(String),
}

impl View for Endpoint {
    type V = EndpointModel;

    open spec fn view(&self) -> EndpointModel {
        match self {
            Endpoint::Source(v) => EndpointModel::Lit(*v),
            Endpoint::Wire(s) => EndpointModel::Ref(s@),
        }
    }
}

impl Endpoint {
    /// A structural copy with the same model.
    pub fn duplicate(&self) -> (r: Endpoint)
        ensures
            r@ == self@,
    {
        match self {
            Endpoint::Source(v) => Endpoint::Source(*v),
            Endpoint::Wire(s) => Endpoint::Wire(s.clone()),
        }
    }
}

/// A wire's definition as a function of its operand endpoints.
pub enum Gate {
    NoOp(Endpoint),
    Not(Endpoint),
    And(Endpoint, Endpoint),
    Or(Endpoint, Endpoint),
    LeftShift(Endpoint, Endpoint),
    RightShift(Endpoint, Endpoint),
}

impl View for Gate {
    type V = GateModel;

    open spec fn view(&self) -> GateModel {
        match self {
            Gate::NoOp(e) => GateModel::NoOpG(e@),
            Gate::Not(e) => GateModel::NotG(e@),
            Gate::And(a, b) => GateModel::AndG(a@, b@),
            Gate::Or(a, b) => GateModel::OrG(a@, b@),
            Gate::LeftShift(a, b) => GateModel::LeftShiftG(a@, b@),
            Gate::RightShift(a, b) => GateModel::RightShiftG(a@, b@),
        }
    }
}

impl Gate {
    /// A structural copy with the same model.
    pub fn duplicate(&self) -> (r: Gate)
        ensures
            r@ == self@,
    {
        match self {
            Gate::NoOp(e) => Gate::NoOp(e.duplicate()),
            Gate::Not(e) => Gate::Not(e.duplicate()),
            Gate::And(a, b) => Gate::And(a.duplicate(), b.duplicate()),
            Gate::Or(a, b) => Gate::Or(a.duplicate(), b.duplicate()),
            Gate::LeftShift(a, b) => Gate::LeftShift(a.duplicate(), b.duplicate()),
            Gate::RightShift(a, b) => Gate::RightShift(a.duplicate(), b.duplicate()),
        }
    }
}

/// 16-bit left shift: bits shifted past the width are lost, and a shift
/// amount of 16 or more clears the value entirely.
pub open spec fn shl16(x: u16, s: u16) -> u16 {
    if s >= 16 {
        0
    } else {
        x << s
    }
}

/// 16-bit right shift, with the same convention for large shift amounts.
pub open spec fn shr16(x: u16, s: u16) -> u16 {
    if s >= 16 {
        0
    } else {
        x >> s
    }
}

/// Evaluates an endpoint against the wire definitions `w`, allowing at most
/// `fuel` wire lookups along any dependency chain. `None` means the endpoint
/// does not settle within that depth: a reference to an undefined wire, or a
/// chain longer than `fuel` (in particular, any cyclic definition).
pub open spec fn eval_endpoint(w: Map<Seq<char>, GateModel>, e: EndpointModel, fuel: nat) -> Option<
    u16,
>
    decreases fuel, 0int,
{
    match e {
        EndpointModel::Lit(v) => Some(v),
        EndpointModel::Ref(name) => {
            if fuel == 0 {
                None
            } else if !w.dom().contains(name) {
                None
            } else {
                eval_gate(w, w[name], (fuel - 1) as nat)
            }
        },
    }
}

/// Evaluates a gate by evaluating its operands and applying its operator with
/// standard unsigned 16-bit semantics.
pub open spec fn eval_gate(w: Map<Seq<char>, GateModel>, g: GateModel, fuel: nat) -> Option<u16>
    decreases fuel, 1int,
{
    match g {
        GateModel::NoOpG(e) => eval_endpoint(w, e, fuel),
        GateModel::NotG(e) => match eval_endpoint(w, e, fuel) {
            Some(v) => Some(!v),
            None => None,
        },
        GateModel::AndG(a, b) => match (eval_endpoint(w, a, fuel), eval_endpoint(w, b, fuel)) {
            (Some(x), Some(y)) => Some(x & y),
            _ => None,
        },
        GateModel::OrG(a, b) => match (eval_endpoint(w, a, fuel), eval_endpoint(w, b, fuel)) {
            (Some(x), Some(y)) => Some(x | y),
            _ => None,
        },
        GateModel::LeftShiftG(a, b) => match (
            eval_endpoint(w, a, fuel),
            eval_endpoint(w, b, fuel),
        ) {
            (Some(x), Some(y)) => Some(shl16(x, y)),
            _ => None,
        },
        GateModel::RightShiftG(a, b) => match (
            eval_endpoint(w, a, fuel),
            eval_endpoint(w, b, fuel),
        ) {
            (Some(x), Some(y)) => Some(shr16(x, y)),
            _ => None,
        },
    }
}

/// Evaluates the named wire with at most `fuel` lookups.
pub open spec fn eval_wire(w: Map<Seq<char>, GateModel>, name: Seq<char>, fuel: nat) -> Option<
    u16,
> {
    eval_endpoint(w, EndpointModel::Ref(name), fuel)
}

/// The named wire settles to `v`: some finite evaluation depth produces it.
pub open spec fn wire_resolves(w: Map<Seq<char>, GateModel>, name: Seq<char>, v: u16) -> bool {
    exists|fuel: nat| eval_wire(w, name, fuel) == Some(v)
}

/// An endpoint settles to `v` at some finite depth.
pub open spec fn endpoint_resolves(w: Map<Seq<char>, GateModel>, e: EndpointModel, v: u16) -> bool {
    exists|fuel: nat| eval_endpoint(w, e, fuel) == Some(v)
}

/// Once an endpoint settles, more fuel cannot change its value.
pub proof fn lemma_eval_endpoint_mono(
    w: Map<Seq<char>, GateModel>,
    e: EndpointModel,
    f1: nat,
    f2: nat,
)
    requires
        f1 <= f2,
        eval_endpoint(w, e, f1) is Some,
    ensures
        eval_endpoint(w, e, f2) == eval_endpoint(w, e, f1),
    decreases f1, 0int,
{
    match e {
        EndpointModel::Lit(_) => {},
        EndpointModel::Ref(name) => {
            lemma_eval_gate_mono(w, w[name], (f1 - 1) as nat, (f2 - 1) as nat);
        },
    }
}

/// Once a gate settles, more fuel cannot change its value.
pub proof fn lemma_eval_gate_mono(w: Map<Seq<char>, GateModel>, g: GateModel, f1: nat, f2: nat)
    requires
        f1 <= f2,
        eval_gate(w, g, f1) is Some,
    ensures
        eval_gate(w, g, f2) == eval_gate(w, g, f1),
    decreases f1, 1int,
{
    match g {
        GateModel::NoOpG(e) => {
            lemma_eval_endpoint_mono(w, e, f1, f2);
        },
        GateModel::NotG(e) => {
            lemma_eval_endpoint_mono(w, e, f1, f2);
        },
        GateModel::AndG(a, b) => {
            lemma_eval_endpoint_mono(w, a, f1, f2);
            lemma_eval_endpoint_mono(w, b, f1, f2);
        },
        GateModel::OrG(a, b) => {
            lemma_eval_endpoint_mono(w, a, f1, f2);
            lemma_eval_endpoint_mono(w, b, f1, f2);
        },
        GateModel::LeftShiftG(a, b) => {
            lemma_eval_endpoint_mono(w, a, f1, f2);
            lemma_eval_endpoint_mono(w, b, f1, f2);
        },
        GateModel::RightShiftG(a, b) => {
            lemma_eval_endpoint_mono(w, a, f1, f2);
            lemma_eval_endpoint_mono(w, b, f1, f2);
        },
    }
}

/// An endpoint settles to at most one value.
pub proof fn lemma_endpoint_value_unique(
    w: Map<Seq<char>, GateModel>,
    e: EndpointModel,
    v1: u16,
    v2: u16,
)
    requires
        endpoint_resolves(w, e, v1),
        endpoint_resolves(w, e, v2),
    ensures
        v1 == v2,
{
    let f1 = choose|f: nat| eval_endpoint(w, e, f) == Some(v1);
    let f2 = choose|f: nat| eval_endpoint(w, e, f) == Some(v2);
    let fm = if f1 >= f2 {
        f1
    } else {
        f2
    };
    lemma_eval_endpoint_mono(w, e, f1, fm);
    lemma_eval_endpoint_mono(w, e, f2, fm);
}

/// A wire settles to at most one value: resolution is deterministic, whatever
/// order the wires are evaluated in.
pub proof fn lemma_wire_value_unique(w: Map<Seq<char>, GateModel>, name: Seq<char>, v1: u16, v2: u16)
    requires
        wire_resolves(w, name, v1),
        wire_resolves(w, name, v2),
    ensures
        v1 == v2,
{
    lemma_endpoint_value_unique(w, EndpointModel::Ref(name), v1, v2);
}

/// Resolution is order independent: two circuits with the same definitions
/// agree on every wire both have memoized, no matter which resolution calls,
/// in which order, produced the memos. Repeating a pass without an
/// intervening `reset` therefore returns identical values.
pub proof fn lemma_signal_order_independent(a: Circuit, b: Circuit, name: Seq<char>)
    requires
        a.wf(),
        b.wf(),
        a.wire_map() == b.wire_map(),
        a.signal_map().dom().contains(name),
        b.signal_map().dom().contains(name),
    ensures
        a.signal_map()[name] == b.signal_map()[name],
{
    lemma_wire_value_unique(a.wire_map(), name, a.signal_map()[name], b.signal_map()[name]);
}

/// A passthrough of a literal settles to that literal.
pub proof fn lemma_passthrough_literal(w: Map<Seq<char>, GateModel>, name: Seq<char>, v: u16)
    requires
        w.dom().contains(name),
        w[name] == GateModel::NoOpG(EndpointModel::Lit(v)),
    ensures
        wire_resolves(w, name, v),
{
    assert(eval_endpoint(w, EndpointModel::Lit(v), 0) == Some(v));
    assert(eval_gate(w, w[name], 0) == Some(v));
    assert(eval_wire(w, name, 1) == Some(v));
}

/// A passthrough of another wire settles to that wire's settled signal.
pub proof fn lemma_passthrough_wire(
    w: Map<Seq<char>, GateModel>,
    name: Seq<char>,
    source: Seq<char>,
    v: u16,
)
    requires
        w.dom().contains(name),
        w[name] == GateModel::NoOpG(EndpointModel::Ref(source)),
        wire_resolves(w, source, v),
    ensures
        wire_resolves(w, name, v),
{
    let f = choose|f: nat| eval_wire(w, source, f) == Some(v);
    assert(eval_gate(w, w[name], f) == Some(v));
    assert(eval_wire(w, name, f + 1) == Some(v));
}

/// Whether the definition reads the named wire as one of its operands.
pub open spec fn gate_mentions(g: GateModel, m: Seq<char>) -> bool {
    match g {
        GateModel::NoOpG(e) => e == EndpointModel::Ref(m),
        GateModel::NotG(e) => e == EndpointModel::Ref(m),
        GateModel::AndG(a, b) => a == EndpointModel::Ref(m) || b == EndpointModel::Ref(m),
        GateModel::OrG(a, b) => a == EndpointModel::Ref(m) || b == EndpointModel::Ref(m),
        GateModel::LeftShiftG(a, b) => a == EndpointModel::Ref(m) || b == EndpointModel::Ref(m),
        GateModel::RightShiftG(a, b) => a == EndpointModel::Ref(m) || b == EndpointModel::Ref(m),
    }
}

/// A wire whose gate references an undefined name settles to no value at
/// all: resolution surfaces a failure rather than a default.
pub proof fn lemma_undefined_reference(
    w: Map<Seq<char>, GateModel>,
    name: Seq<char>,
    m: Seq<char>,
)
    requires
        w.dom().contains(name),
        gate_mentions(w[name], m),
        !w.dom().contains(m),
    ensures
        forall|v: u16| !wire_resolves(w, name, v),
{
    assert forall|v: u16| !wire_resolves(w, name, v) by {
        if wire_resolves(w, name, v) {
            let f = choose|f: nat| eval_wire(w, name, f) == Some(v);
            let g = (f - 1) as nat;
            assert(eval_endpoint(w, EndpointModel::Ref(m), g) is None);
            assert(eval_gate(w, w[name], g) == Some(v));
            match w[name] {
                GateModel::NoOpG(e) => {},
                GateModel::NotG(e) => {},
                GateModel::AndG(a, b) => {},
                GateModel::OrG(a, b) => {},
                GateModel::LeftShiftG(a, b) => {},
                GateModel::RightShiftG(a, b) => {},
            }
        }
    };
}

/// The value a gate produces from its settled operand values. Unary gates
/// read only `v1`.
pub open spec fn gate_out(g: GateModel, v1: u16, v2: u16) -> u16 {
    match g {
        GateModel::NoOpG(_) => v1,
        GateModel::NotG(_) => !v1,
        GateModel::AndG(_, _) => v1 & v2,
        GateModel::OrG(_, _) => v1 | v2,
        GateModel::LeftShiftG(_, _) => shl16(v1, v2),
        GateModel::RightShiftG(_, _) => shr16(v1, v2),
    }
}

/// The operands a gate reads, in order.
pub open spec fn gate_operands_resolve(
    w: Map<Seq<char>, GateModel>,
    g: GateModel,
    v1: u16,
    v2: u16,
) -> bool {
    match g {
        GateModel::NoOpG(e) => endpoint_resolves(w, e, v1),
        GateModel::NotG(e) => endpoint_resolves(w, e, v1),
        GateModel::AndG(a, b) => endpoint_resolves(w, a, v1) && endpoint_resolves(w, b, v2),
        GateModel::OrG(a, b) => endpoint_resolves(w, a, v1) && endpoint_resolves(w, b, v2),
        GateModel::LeftShiftG(a, b) => endpoint_resolves(w, a, v1) && endpoint_resolves(w, b, v2),
        GateModel::RightShiftG(a, b) => endpoint_resolves(w, a, v1) && endpoint_resolves(w, b, v2),
    }
}

/// A definition whose operands settle produces the operator applied to
/// their settled values.
proof fn lemma_gate_witness(w: Map<Seq<char>, GateModel>, g: GateModel, v1: u16, v2: u16) -> (f: nat)
    requires
        gate_operands_resolve(w, g, v1, v2),
    ensures
        eval_gate(w, g, f) == Some(gate_out(g, v1, v2)),
{
    match g {
        GateModel::NoOpG(e) => {
            let f1 = choose|f1: nat| eval_endpoint(w, e, f1) == Some(v1);
            f1
        },
        GateModel::NotG(e) => {
            let f1 = choose|f1: nat| eval_endpoint(w, e, f1) == Some(v1);
            f1
        },
        GateModel::AndG(a, b) => lemma_binary_witness(w, a, b, v1, v2),
        GateModel::OrG(a, b) => lemma_binary_witness(w, a, b, v1, v2),
        GateModel::LeftShiftG(a, b) => lemma_binary_witness(w, a, b, v1, v2),
        GateModel::RightShiftG(a, b) => lemma_binary_witness(w, a, b, v1, v2),
    }
}

/// A common fuel at which both operands of a binary gate settle.
proof fn lemma_binary_witness(
    w: Map<Seq<char>, GateModel>,
    a: EndpointModel,
    b: EndpointModel,
    v1: u16,
    v2: u16,
) -> (f: nat)
    requires
        endpoint_resolves(w, a, v1),
        endpoint_resolves(w, b, v2),
    ensures
        eval_endpoint(w, a, f) == Some(v1),
        eval_endpoint(w, b, f) == Some(v2),
{
    let f1 = choose|f1: nat| eval_endpoint(w, a, f1) == Some(v1);
    let f2 = choose|f2: nat| eval_endpoint(w, b, f2) == Some(v2);
    let fm = if f1 >= f2 {
        f1
    } else {
        f2
    };
    lemma_eval_endpoint_mono(w, a, f1, fm);
    lemma_eval_endpoint_mono(w, b, f2, fm);
    fm
}

/// A defined wire whose gate settles is itself a settling wire.
proof fn lemma_wire_witness(w: Map<Seq<char>, GateModel>, name: Seq<char>, v: u16, f: nat)
    requires
        w.dom().contains(name),
        eval_gate(w, w[name], f) == Some(v),
    ensures
        wire_resolves(w, name, v),
{
    assert(eval_wire(w, name, f + 1) == Some(v));
}

/// The wires whose definitions settle within `k` evaluation steps.
pub open spec fn settled(w: Map<Seq<char>, GateModel>, k: nat) -> Set<Seq<char>> {
    Set::new(|n: Seq<char>| w.dom().contains(n) && eval_gate(w, w[n], k) is Some)
}

proof fn lemma_settled_mono(w: Map<Seq<char>, GateModel>, k1: nat, k2: nat)
    requires
        k1 <= k2,
    ensures
        settled(w, k1).subset_of(settled(w, k2)),
{
    assert forall|n: Seq<char>| settled(w, k1).contains(n) implies settled(w, k2).contains(n) by {
        lemma_eval_gate_mono(w, w[n], k1, k2);
    };
}

proof fn lemma_settled_finite(w: Map<Seq<char>, GateModel>, k: nat)
    requires
        w.dom().finite(),
    ensures
        settled(w, k).finite(),
        settled(w, k).len() <= w.dom().len(),
        settled(w, k).subset_of(w.dom()),
{
    assert(settled(w, k).subset_of(w.dom()));
    vstd::set_lib::lemma_len_subset(settled(w, k), w.dom());
}

/// An operand that settles at step `k + 2` under a stable step either is a
/// literal, whose value never changes, or reads a wire that already settled
/// a step earlier with the same value.
proof fn lemma_endpoint_stable(w: Map<Seq<char>, GateModel>, e: EndpointModel, k: nat)
    requires
        settled(w, k) == settled(w, (k + 1) as nat),
        eval_endpoint(w, e, (k + 2) as nat) is Some,
    ensures
        eval_endpoint(w, e, (k + 1) as nat) == eval_endpoint(w, e, (k + 2) as nat),
{
    match e {
        EndpointModel::Lit(_) => {},
        EndpointModel::Ref(m) => {
            assert(eval_gate(w, w[m], (k + 1) as nat) is Some);
            assert(settled(w, (k + 1) as nat).contains(m));
            assert(settled(w, k).contains(m));
            lemma_eval_gate_mono(w, w[m], k, (k + 1) as nat);
        },
    }
}

/// Once no new wire settles from one step to the next, none ever will.
proof fn lemma_stable_step(w: Map<Seq<char>, GateModel>, k: nat)
    requires
        settled(w, k) == settled(w, (k + 1) as nat),
    ensures
        settled(w, (k + 1) as nat) == settled(w, (k + 2) as nat),
{
    lemma_settled_mono(w, (k + 1) as nat, (k + 2) as nat);
    assert forall|n: Seq<char>| #[trigger] settled(w, (k + 2) as nat).contains(n) implies settled(
        w,
        (k + 1) as nat,
    ).contains(n) by {
        match w[n] {
            GateModel::NoOpG(e) => {
                lemma_endpoint_stable(w, e, k);
            },
            GateModel::NotG(e) => {
                lemma_endpoint_stable(w, e, k);
            },
            GateModel::AndG(a, b) => {
                lemma_endpoint_stable(w, a, k);
                lemma_endpoint_stable(w, b, k);
            },
            GateModel::OrG(a, b) => {
                lemma_endpoint_stable(w, a, k);
                lemma_endpoint_stable(w, b, k);
            },
            GateModel::LeftShiftG(a, b) => {
                lemma_endpoint_stable(w, a, k);
                lemma_endpoint_stable(w, b, k);
            },
            GateModel::RightShiftG(a, b) => {
                lemma_endpoint_stable(w, a, k);
                lemma_endpoint_stable(w, b, k);
            },
        }
    };
    assert(settled(w, (k + 1) as nat) =~= settled(w, (k + 2) as nat));
}

proof fn lemma_stable_forward(w: Map<Seq<char>, GateModel>, j: nat, m: nat)
    requires
        j <= m,
        settled(w, j) == settled(w, (j + 1) as nat),
    ensures
        settled(w, m) == settled(w, j),
        settled(w, (m + 1) as nat) == settled(w, j),
    decreases m - j,
{
    if m == j {
    } else {
        lemma_stable_forward(w, j, (m - 1) as nat);
        lemma_stable_step(w, (m - 1) as nat);
    }
}

/// If the very first step settles a new wire, something already settled at
/// step zero: a wire reading only literals.
proof fn lemma_first_step_support(w: Map<Seq<char>, GateModel>)
    requires
        w.dom().finite(),
        settled(w, 0) != settled(w, 1),
    ensures
        settled(w, 0).len() >= 1,
{
    lemma_settled_mono(w, 0, 1);
    lemma_settled_finite(w, 0);
    lemma_settled_finite(w, 1);
    assert(!(forall|x: Seq<char>|
        settled(w, 0).contains(x) == settled(w, 1).contains(x))) by {
        if forall|x: Seq<char>| settled(w, 0).contains(x) == settled(w, 1).contains(x) {
            assert(settled(w, 0) =~= settled(w, 1));
        }
    }
    let n = choose|x: Seq<char>| settled(w, 0).contains(x) != settled(w, 1).contains(x);
    assert(settled(w, 1).contains(n) && !settled(w, 0).contains(n));
    let witness = lemma_gate_zero_support(w, n);
    assert(settled(w, 0).contains(witness));
    vstd::set_lib::lemma_len_subset(settled(w, 0).remove(witness), settled(w, 0));
    assert(settled(w, 0).remove(witness).len() == settled(w, 0).len() - 1);
}

/// A wire that settles at step one but not at step zero must read some wire
/// that settled at step zero.
proof fn lemma_gate_zero_support(w: Map<Seq<char>, GateModel>, n: Seq<char>) -> (m: Seq<char>)
    requires
        settled(w, 1).contains(n),
        !settled(w, 0).contains(n),
    ensures
        settled(w, 0).contains(m),
{
    match w[n] {
        GateModel::NoOpG(e) => lemma_endpoint_zero_support(w, n, e),
        GateModel::NotG(e) => lemma_endpoint_zero_support(w, n, e),
        GateModel::AndG(a, b) => {
            if !(eval_endpoint(w, a, 0) == eval_endpoint(w, a, 1)) {
                lemma_endpoint_zero_support(w, n, a)
            } else {
                lemma_endpoint_zero_support(w, n, b)
            }
        },
        GateModel::OrG(a, b) => {
            if !(eval_endpoint(w, a, 0) == eval_endpoint(w, a, 1)) {
                lemma_endpoint_zero_support(w, n, a)
            } else {
                lemma_endpoint_zero_support(w, n, b)
            }
        },
        GateModel::LeftShiftG(a, b) => {
            if !(eval_endpoint(w, a, 0) == eval_endpoint(w, a, 1)) {
                lemma_endpoint_zero_support(w, n, a)
            } else {
                lemma_endpoint_zero_support(w, n, b)
            }
        },
        GateModel::RightShiftG(a, b) => {
            if !(eval_endpoint(w, a, 0) == eval_endpoint(w, a, 1)) {
                lemma_endpoint_zero_support(w, n, a)
            } else {
                lemma_endpoint_zero_support(w, n, b)
            }
        },
    }
}

/// One operand of a wire that newly settles at step one: either its value is
/// the same at step zero, or it reads a wire settled at step zero.
proof fn lemma_endpoint_zero_support(
    w: Map<Seq<char>, GateModel>,
    n: Seq<char>,
    e: EndpointModel,
) -> (m: Seq<char>)
    requires
        settled(w, 1).contains(n),
        !settled(w, 0).contains(n),
        eval_endpoint(w, e, 1) is Some,
    ensures
        eval_endpoint(w, e, 0) == eval_endpoint(w, e, 1) || settled(w, 0).contains(m),
{
    match e {
        EndpointModel::Lit(_) => Seq::empty(),
        EndpointModel::Ref(mm) => {
            assert(eval_gate(w, w[mm], 0) is Some);
            assert(settled(w, 0).contains(mm));
            mm
        },
    }
}

/// Each evaluation step settles a strictly growing set of wires until a
/// step settles nothing new, after which the set never changes.
proof fn lemma_settled_growth(w: Map<Seq<char>, GateModel>, k: nat)
    requires
        w.dom().finite(),
    ensures
        (exists|j: nat| j <= k && #[trigger] settled(w, j) == settled(w, (j + 1) as nat))
            || settled(w, k).len() >= k + 1,
    decreases k,
{
    lemma_settled_finite(w, k);
    if k == 0 {
        if settled(w, 0) != settled(w, 1) {
            lemma_first_step_support(w);
        } else {
            assert(settled(w, 0nat) == settled(w, (0nat + 1) as nat));
        }
    } else {
        lemma_settled_growth(w, (k - 1) as nat);
        if settled(w, (k - 1) as nat) == settled(w, k) {
            assert(settled(w, (k - 1) as nat) == settled(w, ((k - 1) as nat + 1) as nat));
        } else {
            lemma_settled_mono(w, (k - 1) as nat, k);
            lemma_settled_finite(w, (k - 1) as nat);
            assert(!(forall|x: Seq<char>|
                settled(w, (k - 1) as nat).contains(x) == settled(w, k).contains(x))) by {
                if forall|x: Seq<char>|
                    settled(w, (k - 1) as nat).contains(x) == settled(w, k).contains(x) {
                    assert(settled(w, (k - 1) as nat) =~= settled(w, k));
                }
            }
            let x = choose|x: Seq<char>|
                settled(w, (k - 1) as nat).contains(x) != settled(w, k).contains(x);
            assert(settled(w, k).contains(x) && !settled(w, (k - 1) as nat).contains(x));
            assert(settled(w, (k - 1) as nat).subset_of(settled(w, k).remove(x)));
            vstd::set_lib::lemma_len_subset(settled(w, (k - 1) as nat), settled(w, k).remove(x));
            assert(settled(w, k).remove(x).len() == settled(w, k).len() - 1);
        }
    }
}

/// A wire that settles at all settles within as many steps as there are
/// defined wires: resolution depth is bounded by the circuit's size.
pub proof fn lemma_resolution_depth(w: Map<Seq<char>, GateModel>, name: Seq<char>, v: u16)
    requires
        w.dom().finite(),
        w.dom().contains(name),
        wire_resolves(w, name, v),
    ensures
        eval_wire(w, name, w.dom().len() as nat) == Some(v),
{
    let count = w.dom().len();
    assert(count >= 1) by {
        vstd::set_lib::lemma_len_subset(w.dom().remove(name), w.dom());
        assert(w.dom().remove(name).len() == w.dom().len() - 1);
    }
    let f = choose|f: nat| eval_wire(w, name, f) == Some(v);
    assert(f >= 1);
    assert(settled(w, (f - 1) as nat).contains(name));
    lemma_settled_growth(w, (count - 1) as nat);
    if exists|j: nat| j <= (count - 1) as nat && #[trigger] settled(w, j) == settled(
        w,
        (j + 1) as nat,
    ) {
        let j = choose|j: nat|
            j <= (count - 1) as nat && #[trigger] settled(w, j) == settled(w, (j + 1) as nat);
        if (f - 1) as nat <= j {
            lemma_settled_mono(w, (f - 1) as nat, j);
            lemma_stable_forward(w, j, (count - 1) as nat);
        } else {
            lemma_stable_forward(w, j, (f - 1) as nat);
            lemma_stable_forward(w, j, (count - 1) as nat);
        }
        assert(settled(w, (count - 1) as nat).contains(name));
    } else {
        lemma_settled_finite(w, (count - 1) as nat);
        assert(settled(w, (count - 1) as nat).len() >= count);
        assert(settled(w, (count - 1) as nat) =~= w.dom()) by {
            if settled(w, (count - 1) as nat) != w.dom() {
                assert(!(forall|x: Seq<char>|
                    settled(w, (count - 1) as nat).contains(x) == w.dom().contains(x))) by {
                    if forall|x: Seq<char>|
                        settled(w, (count - 1) as nat).contains(x) == w.dom().contains(x) {
                        assert(settled(w, (count - 1) as nat) =~= w.dom());
                    }
                }
                let x = choose|x: Seq<char>|
                    settled(w, (count - 1) as nat).contains(x) != w.dom().contains(x);
                assert(w.dom().contains(x) && !settled(w, (count - 1) as nat).contains(x));
                assert(settled(w, (count - 1) as nat).subset_of(w.dom().remove(x)));
                vstd::set_lib::lemma_len_subset(
                    settled(w, (count - 1) as nat),
                    w.dom().remove(x),
                );
                assert(w.dom().remove(x).len() == w.dom().len() - 1);
            }
        }
        assert(settled(w, (count - 1) as nat).contains(name));
    }
    let vv = eval_gate(w, w[name], (count - 1) as nat).unwrap();
    assert(eval_wire(w, name, count as nat) == Some(vv));
    lemma_wire_value_unique(w, name, v, vv);
}

/// Memo cache of settled signals, keyed by wire name.
///
/// Relies on `hashbrown::HashMap` with `String` keys: two keys collide
/// exactly when they are equal strings, so the cache behaves as a map from
/// the name's character sequence to the stored value.
#[verifier::external_body]
pub struct SignalCache {
    map: hashbrown::HashMap<String, u16>,
}

/// The entries the cache holds, as a map from wire name to stored signal.
pub uninterp spec fn cache_view(c: SignalCache) -> Map<Seq<char>, u16>;

impl SignalCache {
    /// The cache holds no entries at all.
    pub open spec fn is_clear(&self) -> bool {
        cache_view(*self) =~= Map::<Seq<char>, u16>::empty()
    }

    /// Relies on `hashbrown::HashMap::new`: the new map is empty.
    #[verifier::external_body]
    pub fn new() -> (r: SignalCache)
        ensures
            r.is_clear(),
    {
        SignalCache { map: hashbrown::HashMap::new() }
    }

    /// Relies on `hashbrown::HashMap::get`: returns the value stored under an
    /// equal key, if any.
    #[verifier::external_body]
    pub fn get(&self, name: &str) -> (r: Option<u16>)
        ensures
            r == if cache_view(*self).dom().contains(name@) {
                Some(cache_view(*self)[name@])
            } else {
                None::<u16>
            },
    {
        self.map.get(name).copied()
    }

}

/// Relies on `hashbrown::HashMap::insert`: stores `value` under `name`,
/// replacing any previous entry with an equal key.
#[verifier::external_body]
fn cache_insert(cache: &mut SignalCache, name: String, value: u16)
    ensures
        cache_view(*final(cache)) == cache_view(*old(cache)).insert(name@, value),
{
    cache.map.insert(name, value);
}

/// The wire definitions a sequence of (name, gate) entries stands for, later
/// entries overriding earlier ones.
pub open spec fn assoc_map(s: Seq<(String, Gate)>) -> Map<Seq<char>, GateModel>
    decreases s.len(),
{
    if s.len() == 0 {
        Map::empty()
    } else {
        assoc_map(s.drop_last()).insert(s.last().0@, s.last().1@)
    }
}

/// Entry names are pairwise distinct.
pub open spec fn names_unique(s: Seq<(String, Gate)>) -> bool {
    forall|i: int, j: int| 0 <= i < j < s.len() ==> s[i].0@ != s[j].0@
}

proof fn lemma_assoc_map_index(s: Seq<(String, Gate)>, i: int)
    requires
        names_unique(s),
        0 <= i < s.len(),
    ensures
        assoc_map(s).dom().contains(s[i].0@),
        assoc_map(s)[s[i].0@] == s[i].1@,
    decreases s.len(),
{
    if i < s.len() - 1 {
        lemma_assoc_map_index(s.drop_last(), i);
    }
}

proof fn lemma_assoc_map_absent(s: Seq<(String, Gate)>, n: Seq<char>)
    requires
        forall|j: int| 0 <= j < s.len() ==> s[j].0@ != n,
    ensures
        !assoc_map(s).dom().contains(n),
    decreases s.len(),
{
    if s.len() > 0 {
        lemma_assoc_map_absent(s.drop_last(), n);
    }
}

proof fn lemma_assoc_map_update(s: Seq<(String, Gate)>, i: int, p: (String, Gate))
    requires
        names_unique(s),
        0 <= i < s.len(),
        s[i].0@ == p.0@,
    ensures
        assoc_map(s.update(i, p)) =~= assoc_map(s).insert(p.0@, p.1@),
    decreases s.len(),
{
    if i == s.len() - 1 {
        assert(s.update(i, p).drop_last() =~= s.drop_last());
        assert(s.update(i, p).last() == p);
    } else {
        assert(s.update(i, p).drop_last() =~= s.drop_last().update(i, p));
        assert(s.update(i, p).last() == s.last());
        lemma_assoc_map_update(s.drop_last(), i, p);
        assert(s.last().0@ != p.0@);
    }
}

proof fn lemma_assoc_map_dom(s: Seq<(String, Gate)>, n: Seq<char>)
    requires
        assoc_map(s).dom().contains(n),
    ensures
        exists|j: int| 0 <= j < s.len() && #[trigger] s[j].0@ == n,
    decreases s.len(),
{
    if s.len() > 0 {
        if s.last().0@ == n {
            assert(s[s.len() - 1].0@ == n);
        } else {
            lemma_assoc_map_dom(s.drop_last(), n);
            let j = choose|j: int| 0 <= j < s.drop_last().len() && #[trigger] s.drop_last()[j].0@
                == n;
            assert(s[j].0@ == n);
        }
    }
}

proof fn lemma_assoc_map_dom_len(s: Seq<(String, Gate)>)
    requires
        names_unique(s),
    ensures
        assoc_map(s).dom().finite(),
        assoc_map(s).dom().len() == s.len(),
    decreases s.len(),
{
    if s.len() > 0 {
        lemma_assoc_map_dom_len(s.drop_last());
        lemma_assoc_map_absent(s.drop_last(), s.last().0@);
    }
}

/// Error surfaced by a resolution pass.
#[derive(Clone, Copy, Debug, PartialEq, Eq, Structural)]
pub enum ResolveError {
    /// A gate references a wire name that has no definition.
    UndefinedWire,
    /// The dependency chain exceeded the number of defined wires, which only
    /// a cyclic definition can cause.
    RecursionLimit,
}

/// A circuit: wire definitions plus the memo cache of settled signals.
pub struct Circuit {
    wires: Vec<(String, Gate)>,
    signals: SignalCache,
}

impl Circuit {
    /// The wire definitions, as a map from wire name to gate.
    pub closed spec fn wire_map(&self) -> Map<Seq<char>, GateModel> {
        assoc_map(self.wires@)
    }

    /// The memoized signals, as a map from wire name to settled value.
    pub closed spec fn signal_map(&self) -> Map<Seq<char>, u16> {
        cache_view(self.signals)
    }

    /// The definition entries are well formed: one entry per wire name.
    /// `new` establishes this and every method preserves it.
    pub closed spec fn defs_ok(&self) -> bool {
        names_unique(self.wires@)
    }

    /// Every memoized signal is a value its wire actually settles to under
    /// the current definitions. `resolve` keeps this; overriding a definition
    /// while stale signals are memoized may break it until the next `reset`.
    pub open spec fn wf(&self) -> bool {
        forall|n: Seq<char>| #[trigger]
            self.signal_map().dom().contains(n) ==> wire_resolves(
                self.wire_map(),
                n,
                self.signal_map()[n],
            )
    }

    /// An empty circuit: no definitions, nothing memoized.
    pub fn new() -> (c: Circuit)
        ensures
            c.wire_map() == Map::<Seq<char>, GateModel>::empty(),
            c.signal_map() == Map::<Seq<char>, u16>::empty(),
            c.defs_ok(),
            c.wf(),
    {
        Circuit { wires: Vec::new(), signals: SignalCache::new() }
    }

    /// The memoized signal of `wire`, if a resolution pass has settled it.
    /// Never triggers resolution itself.
    pub fn signal(&self, wire: &str) -> (r: Option<u16>)
        ensures
            r == if self.signal_map().dom().contains(wire@) {
                Some(self.signal_map()[wire@])
            } else {
                None::<u16>
            },
    {
        self.signals.get(wire)
    }

    /// Index of the definition entry for `name`, if there is one.
    fn find_wire(&self, name: &str) -> (r: Option<usize>)
        requires
            self.defs_ok(),
        ensures
            match r {
                Some(i) => 0 <= i < self.wires@.len() && self.wires@[i as int].0@ == name@
                    && self.wire_map().dom().contains(name@) && self.wire_map()[name@]
                    == self.wires@[i as int].1@,
                None => !self.wire_map().dom().contains(name@),
            },
    {
        let n = self.wires.len();
        let mut i: usize = 0;
        while i < n
            invariant
                n == self.wires@.len(),
                i <= n,
                names_unique(self.wires@),
                forall|j: int| 0 <= j < i ==> self.wires@[j].0@ != name@,
            decreases n - i,
        {
            if str_eq(self.wires[i].0.as_str(), name) {
                proof {
                    lemma_assoc_map_index(self.wires@, i as int);
                }
                return Some(i);
            }
            i = i + 1;
        }
        proof {
            lemma_assoc_map_absent(self.wires@, name@);
        }
        None
    }

    /// Resolves one endpoint: a literal is its own value, a named wire is
    /// resolved recursively.
    fn resolve_endpoint(&mut self, endpoint: &Endpoint, fuel: usize) -> (r: Result<
        u16,
        ResolveError,
    >)
        requires
            old(self).defs_ok(),
            old(self).wf(),
        ensures
            final(self).defs_ok(),
            final(self).wf(),
            final(self).wires == old(self).wires,
            forall|n: Seq<char>| #[trigger]
                old(self).signal_map().dom().contains(n) ==> final(self).signal_map().dom().contains(n) && final(self).signal_map()[n] == old(self).signal_map()[n],
            match r {
                Ok(v) => endpoint_resolves(final(self).wire_map(), endpoint@, v),
                Err(_) => eval_endpoint(final(self).wire_map(), endpoint@, fuel as nat) is None,
            },
        decreases fuel, 1int,
    {
        match endpoint {
            Endpoint::Source(v) => {
                proof {
                    assert(eval_endpoint(self.wire_map(), endpoint@, 0) == Some(*v));
                }
                Ok(*v)
            },
            Endpoint::Wire(name) => self.resolve_wire(name.as_str(), fuel),
        }
    }

    /// Resolves a gate by resolving its operands and applying its operator.
    fn resolve_gate(&mut self, gate: &Gate, fuel: usize) -> (r: Result<u16, ResolveError>)
        requires
            old(self).defs_ok(),
            old(self).wf(),
        ensures
            final(self).defs_ok(),
            final(self).wf(),
            final(self).wires == old(self).wires,
            forall|n: Seq<char>| #[trigger]
                old(self).signal_map().dom().contains(n) ==> final(self).signal_map().dom().contains(n) && final(self).signal_map()[n] == old(self).signal_map()[n],
            match r {
                Ok(v) => exists|f: nat| eval_gate(final(self).wire_map(), gate@, f) == Some(v),
                Err(_) => eval_gate(final(self).wire_map(), gate@, fuel as nat) is None,
            },
        decreases fuel, 2int,
    {
        let ghost w = self.wire_map();
        match gate {
            Gate::NoOp(e) => {
                let v1 = match self.resolve_endpoint(e, fuel) {
                    Ok(v) => v,
                    Err(er) => {
                        return Err(er);
                    },
                };
                proof {
                    let f = lemma_gate_witness(w, gate@, v1, v1);
                }
                Ok(v1)
            },
            Gate::Not(e) => {
                let v1 = match self.resolve_endpoint(e, fuel) {
                    Ok(v) => v,
                    Err(er) => {
                        return Err(er);
                    },
                };
                proof {
                    let f = lemma_gate_witness(w, gate@, v1, v1);
                }
                Ok(!v1)
            },
            Gate::And(a, b) => {
                let v1 = match self.resolve_endpoint(a, fuel) {
                    Ok(v) => v,
                    Err(er) => {
                        return Err(er);
                    },
                };
                let v2 = match self.resolve_endpoint(b, fuel) {
                    Ok(v) => v,
                    Err(er) => {
                        return Err(er);
                    },
                };
                proof {
                    let f = lemma_gate_witness(w, gate@, v1, v2);
                }
                Ok(v1 & v2)
            },
            Gate::Or(a, b) => {
                let v1 = match self.resolve_endpoint(a, fuel) {
                    Ok(v) => v,
                    Err(er) => {
                        return Err(er);
                    },
                };
                let v2 = match self.resolve_endpoint(b, fuel) {
                    Ok(v) => v,
                    Err(er) => {
                        return Err(er);
                    },
                };
                proof {
                    let f = lemma_gate_witness(w, gate@, v1, v2);
                }
                Ok(v1 | v2)
            },
            Gate::LeftShift(a, b) => {
                let v1 = match self.resolve_endpoint(a, fuel) {
                    Ok(v) => v,
                    Err(er) => {
                        return Err(er);
                    },
                };
                let v2 = match self.resolve_endpoint(b, fuel) {
                    Ok(v) => v,
                    Err(er) => {
                        return Err(er);
                    },
                };
                proof {
                    let f = lemma_gate_witness(w, gate@, v1, v2);
                }
                if v2 >= 16 {
                    Ok(0)
                } else {
                    Ok(v1 << v2)
                }
            },
            Gate::RightShift(a, b) => {
                let v1 = match self.resolve_endpoint(a, fuel) {
                    Ok(v) => v,
                    Err(er) => {
                        return Err(er);
                    },
                };
                let v2 = match self.resolve_endpoint(b, fuel) {
                    Ok(v) => v,
                    Err(er) => {
                        return Err(er);
                    },
                };
                proof {
                    let f = lemma_gate_witness(w, gate@, v1, v2);
                }
                if v2 >= 16 {
                    Ok(0)
                } else {
                    Ok(v1 >> v2)
                }
            },
        }
    }

    /// Resolves the named wire and memoizes its settled signal. `fuel` bounds
    /// the length of the dependency chain that may be explored; memoized
    /// wires are returned without spending any.
    fn resolve_wire(&mut self, name: &str, fuel: usize) -> (r: Result<u16, ResolveError>)
        requires
            old(self).defs_ok(),
            old(self).wf(),
        ensures
            final(self).defs_ok(),
            final(self).wf(),
            final(self).wires == old(self).wires,
            forall|n: Seq<char>| #[trigger]
                old(self).signal_map().dom().contains(n) ==> final(self).signal_map().dom().contains(n) && final(self).signal_map()[n] == old(self).signal_map()[n],
            match r {
                Ok(v) => final(self).signal_map().dom().contains(name@) && final(self).signal_map()[name@] == v && wire_resolves(final(self).wire_map(), name@, v),
                Err(_) => eval_wire(final(self).wire_map(), name@, fuel as nat) is None,
            },
        decreases fuel, 0int,
    {
        if let Some(v) = self.signals.get(name) {
            proof {
                assert(self.signal_map().dom().contains(name@));
            }
            return Ok(v);
        }
        let i = match self.find_wire(name) {
            Some(i) => i,
            None => {
                return Err(ResolveError::UndefinedWire);
            },
        };
        if fuel == 0 {
            return Err(ResolveError::RecursionLimit);
        }
        let gate = self.wires[i].1.duplicate();
        let ghost gm = gate@;
        let ghost w = self.wire_map();
        proof {
            assert(w.dom().contains(name@) && w[name@] == gm);
        }
        let value = match self.resolve_gate(&gate, fuel - 1) {
            Ok(v) => v,
            Err(er) => {
                proof {
                    assert(eval_gate(w, gm, (fuel - 1) as nat) is None);
                    assert(eval_wire(w, name@, fuel as nat) is None);
                }
                return Err(er);
            },
        };
        proof {
            let f = choose|f: nat| eval_gate(w, gm, f) == Some(value);
            lemma_wire_witness(w, name@, value, f);
        }
        let ghost sm_prev = self.signal_map();
        cache_insert(&mut self.signals, name.to_owned(), value);
        proof {
            assert(self.signal_map() == sm_prev.insert(name@, value));
            assert forall|n: Seq<char>| #[trigger]
                self.signal_map().dom().contains(n) implies wire_resolves(
                w,
                n,
                self.signal_map()[n],
            ) by {
                if n != name@ {
                    assert(sm_prev.dom().contains(n));
                }
            };
        }
        Ok(value)
    }

    /// The number of defined wires; also the dependency-chain depth allowed
    /// in one resolution pass.
    pub closed spec fn wire_count(&self) -> nat {
        self.wires@.len() as nat
    }

    /// With well-formed definitions, the wire count is exactly the number of
    /// distinct defined wire names.
    pub proof fn lemma_wire_count_is_size(&self)
        requires
            self.defs_ok(),
        ensures
            self.wire_map().dom().finite(),
            self.wire_count() == self.wire_map().dom().len(),
    {
        lemma_assoc_map_dom_len(self.wires@);
    }

    /// Triggers resolution of every defined wire, in definition order,
    /// stopping at the first failure. After an `Ok` pass every defined wire
    /// is memoized; the memoized values are pinned by `wf` together with
    /// [`lemma_wire_value_unique`].
    pub fn resolve(&mut self) -> (r: Result<(), ResolveError>)
        requires
            old(self).defs_ok(),
            old(self).wf(),
        ensures
            final(self).defs_ok(),
            final(self).wf(),
            final(self).wire_map() == old(self).wire_map(),
            final(self).wire_count() == old(self).wire_count(),
            forall|n: Seq<char>| #[trigger]
                old(self).signal_map().dom().contains(n) ==> final(self).signal_map().dom().contains(
                    n,
                ) && final(self).signal_map()[n] == old(self).signal_map()[n],
            r is Ok ==> forall|n: Seq<char>| #[trigger]
                final(self).wire_map().dom().contains(n) ==> final(self).signal_map().dom().contains(
                    n,
                ),
            r is Err ==> exists|n: Seq<char>| #[trigger]
                final(self).wire_map().dom().contains(n) && eval_wire(
                    final(self).wire_map(),
                    n,
                    final(self).wire_count(),
                ) is None,
            (forall|n: Seq<char>| #[trigger]
                old(self).wire_map().dom().contains(n) ==> eval_wire(
                    old(self).wire_map(),
                    n,
                    old(self).wire_count(),
                ) is Some) ==> r is Ok,
            (forall|n: Seq<char>| #[trigger]
                old(self).wire_map().dom().contains(n) ==> exists|v: u16|
                    wire_resolves(old(self).wire_map(), n, v)) ==> r is Ok,
    {
        let fuel = self.wires.len();
        let n = self.wires.len();
        let mut i: usize = 0;
        while i < n
            invariant
                self.defs_ok(),
                self.wf(),
                n == self.wires@.len(),
                fuel == n,
                i <= n,
                self.wires == old(self).wires,
                forall|k: Seq<char>| #[trigger]
                    old(self).signal_map().dom().contains(k) ==> self.signal_map().dom().contains(k)
                        && self.signal_map()[k] == old(self).signal_map()[k],
                forall|j: int|
                    0 <= j < i ==> self.signal_map().dom().contains(
                        #[trigger] self.wires@[j].0@,
                    ),
            decreases n - i,
        {
            let name = self.wires[i].0.clone();
            match self.resolve_wire(name.as_str(), fuel) {
                Ok(_) => {},
                Err(e) => {
                    proof {
                        lemma_assoc_map_index(self.wires@, i as int);
                        assert(self.wire_map() == old(self).wire_map());
                        assert(old(self).wire_map().dom().contains(name@));
                        assert(eval_wire(old(self).wire_map(), name@, old(self).wire_count())
                            is None);
                        if forall|n: Seq<char>| #[trigger]
                            old(self).wire_map().dom().contains(n) ==> exists|v: u16|
                                wire_resolves(old(self).wire_map(), n, v) {
                            let v = choose|v: u16|
                                wire_resolves(old(self).wire_map(), name@, v);
                            old(self).lemma_wire_count_is_size();
                            lemma_resolution_depth(old(self).wire_map(), name@, v);
                        }
                    }
                    return Err(e);
                },
            }
            i = i + 1;
        }
        proof {
            assert forall|k: Seq<char>| #[trigger]
                self.wire_map().dom().contains(k) implies self.signal_map().dom().contains(k) by {
                lemma_assoc_map_dom(self.wires@, k);
            };
        }
        Ok(())
    }

    /// Inserts or replaces the definition of `instruction`'s wire. Referenced
    /// names are not validated here; that is deferred to resolution. The memo
    /// cache is left untouched, so after overriding a definition on a
    /// resolved circuit, call `reset` before resolving again.
    pub fn add_instruction(&mut self, instruction: CircuitInstruction)
        requires
            old(self).defs_ok(),
        ensures
            final(self).defs_ok(),
            final(self).wire_map() == old(self).wire_map().insert(
                instruction.wire@,
                instruction.output@,
            ),
            final(self).signal_map() == old(self).signal_map(),
            old(self).signal_map() == Map::<Seq<char>, u16>::empty() ==> final(self).wf(),
    {
        let CircuitInstruction { wire, output } = instruction;
        let ghost p: (String, Gate) = (wire, output);
        match self.find_wire(wire.as_str()) {
            Some(i) => {
                proof {
                    lemma_assoc_map_update(self.wires@, i as int, p);
                }
                self.wires.set(i, (wire, output));
                proof {
                    assert forall|a: int, b: int|
                        0 <= a < b < self.wires@.len() implies self.wires@[a].0@
                        != self.wires@[b].0@ by {
                        assert(old(self).wires@[a].0@ != old(self).wires@[b].0@);
                    };
                }
            },
            None => {
                proof {
                    assert forall|j: int|
                        0 <= j < self.wires@.len() implies self.wires@[j].0@ != p.0@ by {
                        lemma_assoc_map_index(self.wires@, j);
                    };
                }
                self.wires.push((wire, output));
                proof {
                    assert(self.wires@.drop_last() =~= old(self).wires@);
                    assert(self.wires@.last() == p);
                }
            },
        }
    }

    /// Clears every memoized signal; the definitions stay as they are.
    pub fn reset(&mut self)
        requires
            old(self).defs_ok(),
        ensures
            final(self).defs_ok(),
            final(self).wire_map() == old(self).wire_map(),
            final(self).signal_map() == Map::<Seq<char>, u16>::empty(),
            final(self).wf(),
    {
        self.signals = SignalCache::new();
    }
}

impl Default for Circuit {
    /// The same empty circuit as `new`.
    fn default() -> (c: Self)
        ensures
            c.wire_map() == Map::<Seq<char>, GateModel>::empty(),
            c.signal_map() == Map::<Seq<char>, u16>::empty(),
            c.defs_ok(),
            c.wf(),
    {
        Circuit::new()
    }
}

/// One parsed instruction line: a wire name and the definition bound to it.
pub struct CircuitInstruction {
    pub wire: String,
    pub output: Gate,
}

/// How a token is read as an operand: a string of digits whose value fits in
/// 16 bits is a literal, anything else is a wire name.
pub open spec fn endpoint_of(t: Seq<char>) -> EndpointModel {
    if t.len() > 0 && all_digits(t) && num_val(t) < 65536 {
        EndpointModel::Lit(num_val(t) as u16)
    } else {
        EndpointModel::Ref(t)
    }
}

pub open spec fn not_name() -> Seq<char> {
    seq!['N', 'O', 'T']
}

pub open spec fn arrow_name() -> Seq<char> {
    seq!['-', '>']
}

pub open spec fn and_name() -> Seq<char> {
    seq!['A', 'N', 'D']
}

pub open spec fn or_name() -> Seq<char> {
    seq!['O', 'R']
}

pub open spec fn lshift_name() -> Seq<char> {
    seq!['L', 'S', 'H', 'I', 'F', 'T']
}

pub open spec fn rshift_name() -> Seq<char> {
    seq!['R', 'S', 'H', 'I', 'F', 'T']
}

pub open spec fn is_op_name(t: Seq<char>) -> bool {
    t == and_name() || t == or_name() || t == lshift_name() || t == rshift_name()
}

/// What a binary operator token builds from its two operands.
pub open spec fn binary_gate(op: Seq<char>, l: EndpointModel, r: EndpointModel) -> GateModel {
    if op == and_name() {
        GateModel::AndG(l, r)
    } else if op == or_name() {
        GateModel::OrG(l, r)
    } else if op == lshift_name() {
        GateModel::LeftShiftG(l, r)
    } else {
        GateModel::RightShiftG(l, r)
    }
}

/// The instruction a token list stands for, if it fits one of the two line
/// grammars: `<lhs> <OP> <rhs> -> <wire>` with `OP` one of `AND`, `OR`,
/// `LSHIFT`, `RSHIFT`, or `[NOT ]<operand> -> <wire>`.
pub open spec fn parse_tokens(toks: Seq<Seq<char>>) -> Option<(Seq<char>, GateModel)> {
    if toks.len() == 5 && is_word(toks[0]) && is_op_name(toks[1]) && is_word(toks[2]) && toks[3]
        == arrow_name() && is_word(toks[4]) {
        Some((toks[4], binary_gate(toks[1], endpoint_of(toks[0]), endpoint_of(toks[2]))))
    } else if toks.len() == 4 && toks[0] == not_name() && is_word(toks[1]) && toks[2]
        == arrow_name() && is_word(toks[3]) {
        Some((toks[3], GateModel::NotG(endpoint_of(toks[1]))))
    } else if toks.len() == 3 && is_word(toks[0]) && toks[1] == arrow_name() && is_word(toks[2]) {
        Some((toks[2], GateModel::NoOpG(endpoint_of(toks[0]))))
    } else {
        None
    }
}

/// The instruction a whole line stands for, if it is well formed: the line
/// split at single spaces must fit one of the token grammars.
pub open spec fn parse_line(s: Seq<char>) -> Option<(Seq<char>, GateModel)> {
    parse_tokens(split_char(s, ' '))
}

/// Reads a token as an operand: a 16-bit decimal literal where it is one,
/// the named wire otherwise.
fn parse_endpoint(t: &str) -> (e: Endpoint)
    ensures
        e@ == endpoint_of(t@),
{
    match parse_decimal(t) {
        Some(v) => {
            if v <= 65535 {
                Endpoint::Source(v as u16)
            } else {
                Endpoint::Wire(t.to_owned())
            }
        },
        None => Endpoint::Wire(t.to_owned()),
    }
}

impl CircuitInstruction {
    /// Parses one instruction line. `Ok` exactly when the line fits one of
    /// the two grammars that [`parse_tokens`] describes, with the parsed
    /// wire name and gate.
    pub fn from_str(s: &str) -> (r: Result<CircuitInstruction, ()>)
        ensures
            match r {
                Ok(inst) => parse_line(s@) == Some((inst.wire@, inst.output@)),
                Err(_) => parse_line(s@) is None,
            },
    {
        proof {
            reveal_strlit("->");
            reveal_strlit("NOT");
            reveal_strlit("AND");
            reveal_strlit("OR");
            reveal_strlit("LSHIFT");
            reveal_strlit("RSHIFT");
            assert("->"@ =~= arrow_name());
            assert("NOT"@ =~= not_name());
            assert("AND"@ =~= and_name());
            assert("OR"@ =~= or_name());
            assert("LSHIFT"@ =~= lshift_name());
            assert("RSHIFT"@ =~= rshift_name());
        }
        let bounds = split_bounds(s, ' ');
        let ghost toks = split_char(s@, ' ');
        if bounds.len() == 5 {
            let lhs = s.substring_char(bounds[0].0, bounds[0].1);
            let op = s.substring_char(bounds[1].0, bounds[1].1);
            let rhs = s.substring_char(bounds[2].0, bounds[2].1);
            let arrow = s.substring_char(bounds[3].0, bounds[3].1);
            let wire = s.substring_char(bounds[4].0, bounds[4].1);
            if is_word_str(lhs) && is_word_str(rhs) && is_word_str(wire) && str_eq(arrow, "->") {
                let l = parse_endpoint(lhs);
                let r = parse_endpoint(rhs);
                if str_eq(op, "AND") {
                    Ok(CircuitInstruction { wire: wire.to_owned(), output: Gate::And(l, r) })
                } else if str_eq(op, "OR") {
                    Ok(CircuitInstruction { wire: wire.to_owned(), output: Gate::Or(l, r) })
                } else if str_eq(op, "LSHIFT") {
                    Ok(CircuitInstruction { wire: wire.to_owned(), output: Gate::LeftShift(l, r) })
                } else if str_eq(op, "RSHIFT") {
                    Ok(
                        CircuitInstruction {
                            wire: wire.to_owned(),
                            output: Gate::RightShift(l, r),
                        },
                    )
                } else {
                    Err(())
                }
            } else {
                Err(())
            }
        } else if bounds.len() == 4 {
            let first = s.substring_char(bounds[0].0, bounds[0].1);
            let operand = s.substring_char(bounds[1].0, bounds[1].1);
            let arrow = s.substring_char(bounds[2].0, bounds[2].1);
            let wire = s.substring_char(bounds[3].0, bounds[3].1);
            if str_eq(first, "NOT") && is_word_str(operand) && str_eq(arrow, "->") && is_word_str(
                wire,
            ) {
                let e = parse_endpoint(operand);
                Ok(CircuitInstruction { wire: wire.to_owned(), output: Gate::Not(e) })
            } else {
                Err(())
            }
        } else if bounds.len() == 3 {
            let operand = s.substring_char(bounds[0].0, bounds[0].1);
            let arrow = s.substring_char(bounds[1].0, bounds[1].1);
            let wire = s.substring_char(bounds[2].0, bounds[2].1);
            if is_word_str(operand) && str_eq(arrow, "->") && is_word_str(wire) {
                let e = parse_endpoint(operand);
                Ok(CircuitInstruction { wire: wire.to_owned(), output: Gate::NoOp(e) })
            } else {
                Err(())
            }
        } else {
            Err(())
        }
    }
}

} // verus!
