//! The construction finishes: a bound on the steps that remain, which every
//! step lowers.
use crate::engine::{IntegrateStep, ObddStep};
use crate::formula::{occurs, Prop};
use crate::laws::law_covering_order_never_stuck;
use crate::model::{
    initial_state, next_state, transition_defined, EngineV, FrameV,
    IntegrateFrameV, ObddFrameV, StateV,
};
use crate::wellformed::{engine_wf, follows, frame_ok, linked, state_wf};
use crate::laws::law_covering_order_can_step;
use crate::model::can_step;
use vstd::arithmetic::power2::{lemma2_to64, lemma_pow2_unfold, pow2};
use vstd::prelude::*;

verus! {

/// The most steps that a construction call at position `k` of an ordering of
/// `len` variables takes, from its first step to its return.
pub open spec fn call_cost(k: nat, len: nat) -> nat
    decreases len - k,
{
    if k < len {
        12 + 2 * call_cost(k + 1, len)
    } else {
        12
    }
}

/// The cost of a call one position further on, where there is one.
pub open spec fn child_cost(k: nat, len: nat) -> nat {
    if k < len {
        call_cost(k + 1, len)
    } else {
        0
    }
}

/// The most steps that a construction call has left, counting those of the
/// calls it will still make; a call that is not at the top waits for the one
/// above it, whose steps are counted there.
pub open spec fn obdd_left(f: ObddFrameV, top: bool, len: nat) -> nat {
    let c = child_cost(f.var_index, len);
    match f.step {
        ObddStep::Simplify => 12 + 2 * c,
        ObddStep::CheckBottom => 11 + 2 * c,
        ObddStep::CheckTop => 10 + 2 * c,
        ObddStep::ChooseVariable => 9 + 2 * c,
        ObddStep::RecurseLow => if top {
            8 + 2 * c
        } else {
            7 + c
        },
        ObddStep::RecurseHigh => if top {
            7 + c
        } else {
            6
        },
        ObddStep::CallIntegrate => if top {
            6
        } else {
            1
        },
        ObddStep::Return => 1,
    }
}

/// The most steps that an integration call has left.
pub open spec fn integrate_left(g: IntegrateFrameV) -> nat {
    match g.step {
        IntegrateStep::CheckEqual => 4,
        IntegrateStep::LookupNode => 3,
        IntegrateStep::CreateNode => 2,
        IntegrateStep::Return => 1,
    }
}

pub open spec fn frame_left(fr: FrameV, top: bool, len: nat) -> nat {
    match fr {
        FrameV::Obdd(f) => obdd_left(f, top, len),
        FrameV::Integrate(g) => integrate_left(g),
    }
}

/// The steps left to the waiting calls of `stack`.
pub open spec fn waiting_left(stack: Seq<FrameV>, len: nat) -> nat
    decreases stack.len(),
{
    if stack.len() == 0 {
        0
    } else {
        waiting_left(stack.drop_last(), len) + frame_left(stack.last(), false, len)
    }
}

/// The most steps that the construction in `s` has left.
pub open spec fn steps_left(s: StateV, len: nat) -> nat {
    if s.stack.len() == 0 {
        0
    } else {
        waiting_left(s.stack.drop_last(), len) + frame_left(s.stack.last(), true, len)
    }
}

/// Every step from an unfinished snapshot lowers the steps left.
pub proof fn lemma_step_lowers_steps_left(order: Seq<Seq<char>>, input: Prop, s: StateV)
    requires
        state_wf(order, input, s),
        transition_defined(order, s),
    ensures
        steps_left(next_state(order, s), order.len()) < steps_left(s, order.len()),
{
    reveal(state_wf);
    let len = order.len();
    let n = s.stack.len();
    let below = s.stack.drop_last();
    assert(frame_ok(order, input, s.nodes, s.table, s.stack[n - 1]));
    if n >= 2 {
        assert(linked(order, s.nodes, s.stack[n - 2], s.stack[n - 1]));
        assert(below.last() == s.stack[n - 2]);
        assert(below.drop_last() =~= s.stack.drop_last().drop_last());
    }
    let s2 = next_state(order, s);
    match s.stack.last() {
        FrameV::Obdd(f) => {
            match f.step {
                ObddStep::RecurseLow | ObddStep::RecurseHigh | ObddStep::CallIntegrate => {
                    assert(s2.stack.drop_last() =~= s.stack);
                    assert(s.stack.drop_last().push(s.stack.last()) =~= s.stack);
                },
                ObddStep::Return => {
                    if n >= 2 {
                        assert(s2.stack.drop_last() =~= below.drop_last());
                    }
                },
                _ => {
                    assert(s2.stack.drop_last() =~= below);
                },
            }
        },
        FrameV::Integrate(g) => {
            match g.step {
                IntegrateStep::Return => {
                    assert(s2.stack.drop_last() =~= below.drop_last());
                },
                _ => {
                    assert(s2.stack.drop_last() =~= below);
                },
            }
        },
    }
}

/// The first snapshot has the cost of the first call left.
pub proof fn lemma_initial_steps_left(input: Prop, len: nat)
    ensures
        steps_left(initial_state(input), len) == call_cost(0, len),
{
    let s = initial_state(input);
    assert(s.stack.drop_last() =~= Seq::<FrameV>::empty());
}

/// With an ordering that covers the input, the construction finishes: the
/// engine produces at most `call_cost(0, n) + 1` snapshots for an ordering of
/// `n` variables, and each snapshot `i` has at most `call_cost(0, n) - i`
/// steps left.
pub proof fn law_construction_finishes(e: EngineV)
    requires
        engine_wf(e),
        forall|q: Seq<char>| occurs(e.input, q) ==> e.order.contains(q),
    ensures
        forall|i: int|
            0 <= i < e.history.len() ==> i + steps_left(#[trigger] e.history[i], e.order.len())
                <= call_cost(0, e.order.len()),
        e.history.len() <= call_cost(0, e.order.len()) + 1,
{
    let len = e.order.len();
    assert forall|i: int| 0 <= i < e.history.len() implies i + steps_left(
        #[trigger] e.history[i],
        len,
    ) <= call_cost(0, len) by {
        lemma_trace_steps_left(e, i);
    }
    let last = e.history.len() - 1;
    assert(last + steps_left(e.history[last], len) <= call_cost(0, len));
}

proof fn lemma_trace_steps_left(e: EngineV, i: int)
    requires
        engine_wf(e),
        forall|q: Seq<char>| occurs(e.input, q) ==> e.order.contains(q),
        0 <= i < e.history.len(),
    ensures
        i + steps_left(e.history[i], e.order.len()) <= call_cost(0, e.order.len()),
    decreases i,
{
    if i == 0 {
        lemma_initial_steps_left(e.input, e.order.len());
    } else {
        lemma_trace_steps_left(e, i - 1);
        let a = e.history[i - 1];
        assert(follows(e.order, a, e.history[i]));
        reveal(follows);
        assert(state_wf(e.order, e.input, a));
        law_covering_order_never_stuck(e, i - 1);
        lemma_step_lowers_steps_left(e.order, e.input, a);
    }
}

/// The cost of a call in closed form: `12 * (2^(len - k + 1) - 1)`.
pub proof fn lemma_call_cost_closed(k: nat, len: nat)
    requires
        k <= len,
    ensures
        call_cost(k, len) == 12 * (pow2((len - k + 1) as nat) - 1),
    decreases len - k,
{
    lemma_pow2_unfold((len - k + 1) as nat);
    if k < len {
        lemma_call_cost_closed(k + 1, len);
        assert((len - (k + 1) + 1) as nat == (len - k) as nat);
    } else {
        lemma_pow2_unfold(0nat + 1);
        lemma2_to64();
    }
}

/// With an ordering of `n` variables that covers the input, the construction
/// finishes within `12 * (2^(n + 1) - 1)` steps.
pub proof fn law_construction_bound(e: EngineV)
    requires
        engine_wf(e),
        forall|q: Seq<char>| occurs(e.input, q) ==> e.order.contains(q),
    ensures
        e.history.len() <= 12 * (pow2((e.order.len() + 1) as nat) - 1) + 1,
{
    law_construction_finishes(e);
    lemma_call_cost_closed(0, e.order.len());
}

/// With an ordering of at most 27 variables that covers the input, the
/// engine can always take a step: the snapshot numbers never run past `u32`.
pub proof fn law_small_covering_order_can_step(e: EngineV)
    requires
        engine_wf(e),
        forall|q: Seq<char>| occurs(e.input, q) ==> e.order.contains(q),
        e.order.len() <= 27,
    ensures
        can_step(e),
{
    law_construction_finishes(e);
    lemma_call_cost_monotone(e.order.len(), 27);
    assert(call_cost(0, 27) == 12 * (pow2(28) - 1)) by {
        lemma_call_cost_closed(0, 27);
    }
    lemma2_to64();
    law_covering_order_can_step(e);
}

/// More variables cost more.
pub proof fn lemma_call_cost_monotone(len: nat, len2: nat)
    requires
        len <= len2,
    ensures
        call_cost(0, len) <= call_cost(0, len2),
{
    lemma_call_cost_closed(0, len);
    lemma_call_cost_closed(0, len2);
    if len < len2 {
        vstd::arithmetic::power2::lemma_pow2_strictly_increases(
            (len + 1) as nat,
            (len2 + 1) as nat,
        );
    }
}

} // verus!
