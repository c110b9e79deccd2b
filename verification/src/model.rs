//! The mathematical model of the engine: its states, the one-step transition
//! that the engine performs, and the meaning of a node of the diagram.
use crate::engine::{IntegrateStep, ObddStep};
use crate::formula::Prop;
use crate::rewrite::{simplify_fix, subst};
use vstd::prelude::*;

verus! {

/// A node of the diagram: nodes 0 and 1 are the terminals; any other tests
/// `var` and goes to `left` when it is false and to `right` when it is true.
pub struct NodeV {
    pub id: nat,
    pub var: Option<Seq<char>>,
    pub left: Option<nat>,
    pub right: Option<nat>,
}

/// A call of the construction procedure on `formula`, at the variable
/// `order[var_index]`.
pub struct ObddFrameV {
    pub step: ObddStep,
    pub formula: Prop,
    pub p: Option<Seq<char>>,
    pub var_index: nat,
    pub n1: Option<nat>,
    pub n2: Option<nat>,
    pub result: Option<nat>,
}

/// A call of the integration procedure on `(n1, p, n2)`.
pub struct IntegrateFrameV {
    pub step: IntegrateStep,
    pub n1: nat,
    pub p: Seq<char>,
    pub n2: nat,
    pub result: Option<nat>,
}

pub enum FrameV {
    Obdd(ObddFrameV),
    Integrate(IntegrateFrameV),
}

/// An entry of the table of unique nodes: `(var, n1, n2)` is node `node`.
pub struct EntryV {
    pub var: Seq<char>,
    pub n1: nat,
    pub n2: nat,
    pub node: nat,
}

/// A snapshot of the engine.
pub struct StateV {
    pub step_number: nat,
    pub nodes: Seq<NodeV>,
    pub table: Seq<EntryV>,
    pub stack: Seq<FrameV>,
    pub message: Seq<char>,
}

/// The engine: the input formula, the variable ordering, the snapshot shown,
/// and every snapshot produced so far.
pub struct EngineV {
    pub input: Prop,
    pub order: Seq<Seq<char>>,
    pub current: nat,
    pub history: Seq<StateV>,
}

pub open spec fn terminal(id: nat) -> NodeV {
    NodeV { id, var: None, left: None, right: None }
}

pub open spec fn init_message() -> Seq<char> {
    "Initialized engine with terminal nodes"@
}

/// The frame of the first call, on the input formula.
pub open spec fn root_frame(f: Prop) -> ObddFrameV {
    ObddFrameV {
        step: ObddStep::Simplify,
        formula: f,
        p: None,
        var_index: 0,
        n1: None,
        n2: None,
        result: None,
    }
}

/// The first snapshot: the two terminals and the first call.
pub open spec fn initial_state(f: Prop) -> StateV {
    StateV {
        step_number: 0,
        nodes: seq![terminal(0), terminal(1)],
        table: Seq::empty(),
        stack: seq![FrameV::Obdd(root_frame(f))],
        message: init_message(),
    }
}

/// The first of the entries of `table` with key `(p, n1, n2)`.
pub open spec fn table_find(table: Seq<EntryV>, p: Seq<char>, n1: nat, n2: nat) -> Option<nat>
    decreases table.len(),
{
    if table.len() == 0 {
        None
    } else if table[0].var == p && table[0].n1 == n1 && table[0].n2 == n2 {
        Some(table[0].node)
    } else {
        table_find(table.drop_first(), p, n1, n2)
    }
}

pub open spec fn replace_top(s: StateV, f: FrameV) -> StateV {
    StateV { stack: s.stack.drop_last().push(f), ..s }
}

pub open spec fn push_frame(s: StateV, f: FrameV) -> StateV {
    StateV { stack: s.stack.push(f), ..s }
}

/// The call on the formula with `v` put for the chosen variable.
pub open spec fn child_frame(f: ObddFrameV, v: bool) -> ObddFrameV {
    ObddFrameV {
        step: ObddStep::Simplify,
        formula: subst(f.formula, f.p.unwrap(), v),
        p: None,
        var_index: f.var_index + 1,
        n1: None,
        n2: None,
        result: None,
    }
}

/// A finished construction call hands its node to its caller: first as the
/// low child, then as the high one.
pub open spec fn obdd_return(s: StateV, result: Option<nat>) -> StateV {
    let rest = s.stack.drop_last();
    if rest.len() == 0 {
        StateV { stack: rest, ..s }
    } else {
        match rest.last() {
            FrameV::Obdd(par) => {
                let par2 = if par.n1 is None {
                    ObddFrameV { n1: result, step: ObddStep::RecurseHigh, ..par }
                } else {
                    ObddFrameV { n2: result, step: ObddStep::CallIntegrate, ..par }
                };
                StateV { stack: rest.drop_last().push(FrameV::Obdd(par2)), ..s }
            },
            FrameV::Integrate(_) => s,
        }
    }
}

/// A step of the construction procedure, on its frame `f` at the top.
pub open spec fn obdd_transition(order: Seq<Seq<char>>, s: StateV, f: ObddFrameV) -> StateV {
    match f.step {
        ObddStep::Simplify => replace_top(
            s,
            FrameV::Obdd(
                ObddFrameV { step: ObddStep::CheckBottom, formula: simplify_fix(f.formula), ..f },
            ),
        ),
        ObddStep::CheckBottom => if f.formula is Bottom {
            replace_top(
                s,
                FrameV::Obdd(ObddFrameV { result: Some(0), step: ObddStep::Return, ..f }),
            )
        } else {
            replace_top(s, FrameV::Obdd(ObddFrameV { step: ObddStep::CheckTop, ..f }))
        },
        ObddStep::CheckTop => if f.formula is Top {
            replace_top(
                s,
                FrameV::Obdd(ObddFrameV { result: Some(1), step: ObddStep::Return, ..f }),
            )
        } else {
            replace_top(s, FrameV::Obdd(ObddFrameV { step: ObddStep::ChooseVariable, ..f }))
        },
        ObddStep::ChooseVariable => replace_top(
            s,
            FrameV::Obdd(
                ObddFrameV {
                    p: Some(order[f.var_index as int]),
                    step: ObddStep::RecurseLow,
                    ..f
                },
            ),
        ),
        ObddStep::RecurseLow => push_frame(s, FrameV::Obdd(child_frame(f, false))),
        ObddStep::RecurseHigh => push_frame(s, FrameV::Obdd(child_frame(f, true))),
        ObddStep::CallIntegrate => push_frame(
            s,
            FrameV::Integrate(
                IntegrateFrameV {
                    step: IntegrateStep::CheckEqual,
                    n1: f.n1.unwrap(),
                    p: f.p.unwrap(),
                    n2: f.n2.unwrap(),
                    result: None,
                },
            ),
        ),
        ObddStep::Return => obdd_return(s, f.result),
    }
}

/// A step of the integration procedure, on its frame `g` at the top.
pub open spec fn integrate_transition(s: StateV, g: IntegrateFrameV) -> StateV {
    match g.step {
        IntegrateStep::CheckEqual => if g.n1 == g.n2 {
            replace_top(
                s,
                FrameV::Integrate(
                    IntegrateFrameV { result: Some(g.n1), step: IntegrateStep::Return, ..g },
                ),
            )
        } else {
            replace_top(
                s,
                FrameV::Integrate(IntegrateFrameV { step: IntegrateStep::LookupNode, ..g }),
            )
        },
        IntegrateStep::LookupNode => match table_find(s.table, g.p, g.n1, g.n2) {
            Some(id) => replace_top(
                s,
                FrameV::Integrate(
                    IntegrateFrameV { result: Some(id), step: IntegrateStep::Return, ..g },
                ),
            ),
            None => replace_top(
                s,
                FrameV::Integrate(IntegrateFrameV { step: IntegrateStep::CreateNode, ..g }),
            ),
        },
        IntegrateStep::CreateNode => {
            let idx = s.nodes.len();
            let s2 = StateV {
                nodes: s.nodes.push(
                    NodeV { id: idx, var: Some(g.p), left: Some(g.n1), right: Some(g.n2) },
                ),
                table: s.table.push(EntryV { var: g.p, n1: g.n1, n2: g.n2, node: idx }),
                ..s
            };
            replace_top(
                s2,
                FrameV::Integrate(
                    IntegrateFrameV { result: Some(idx), step: IntegrateStep::Return, ..g },
                ),
            )
        },
        IntegrateStep::Return => {
            let rest = s.stack.drop_last();
            match rest.last() {
                FrameV::Obdd(par) => StateV {
                    stack: rest.drop_last().push(
                        FrameV::Obdd(ObddFrameV { result: g.result, step: ObddStep::Return, ..par }),
                    ),
                    ..s
                },
                FrameV::Integrate(_) => s,
            }
        },
    }
}

/// The snapshot that follows `s`: one step of the call at the top of the stack.
pub open spec fn next_state(order: Seq<Seq<char>>, s: StateV) -> StateV {
    let s1 = StateV { step_number: s.step_number + 1, ..s };
    match s.stack.last() {
        FrameV::Obdd(f) => obdd_transition(order, s1, f),
        FrameV::Integrate(g) => integrate_transition(s1, g),
    }
}

/// Whether the step from `s` can be taken: choosing a variable needs one more
/// variable in the ordering.
pub open spec fn transition_defined(order: Seq<Seq<char>>, s: StateV) -> bool {
    s.stack.len() > 0 && match s.stack.last() {
        FrameV::Obdd(f) => f.step is ChooseVariable ==> f.var_index < order.len(),
        FrameV::Integrate(_) => true,
    }
}

/// Whether the computation in `s` has finished: no call is left.
pub open spec fn finished(s: StateV) -> bool {
    s.stack.len() == 0
}

/// One step forward: to the next snapshot already produced, or, at the last
/// one, to a new snapshot; a finished computation stays where it is.
pub open spec fn step_forward(e: EngineV) -> EngineV {
    if e.current + 1 < e.history.len() {
        EngineV { current: e.current + 1, ..e }
    } else if finished(e.history.last()) {
        e
    } else {
        EngineV {
            current: e.current + 1,
            history: e.history.push(next_state(e.order, e.history.last())),
            ..e
        }
    }
}

/// What the step from `s` needs of the call at the top of the stack for the
/// engine to take it: the fields that the step reads are set, and a returning
/// call or integration has a construction call below it.
pub open spec fn step_ready(order: Seq<Seq<char>>, s: StateV) -> bool {
    let n = s.stack.len();
    n > 0 && match s.stack.last() {
        FrameV::Obdd(f) => match f.step {
            ObddStep::ChooseVariable => f.var_index < order.len(),
            ObddStep::RecurseLow => f.p is Some && f.var_index < order.len(),
            ObddStep::RecurseHigh => f.p is Some && f.var_index < order.len(),
            ObddStep::CallIntegrate => f.p is Some && f.n1 is Some && f.n2 is Some,
            ObddStep::Return => f.result is Some && (n >= 2 ==> s.stack[n - 2] is Obdd),
            _ => true,
        },
        FrameV::Integrate(g) => match g.step {
            IntegrateStep::Return => g.result is Some && n >= 2 && s.stack[n - 2] is Obdd,
            _ => true,
        },
    }
}

/// Whether `step_forward` can be taken without failing: a new snapshot needs
/// its step to be defined and its number to fit in a `u32`.
pub open spec fn can_step(e: EngineV) -> bool {
    e.current + 1 < e.history.len() || finished(e.history.last()) || (transition_defined(
        e.order,
        e.history.last(),
    ) && e.history.last().step_number < u32::MAX)
}

/// The truth value of the function that node `i` denotes, under `env`.
pub open spec fn denote(nodes: Seq<NodeV>, i: nat, env: spec_fn(Seq<char>) -> bool) -> bool
    decreases i,
{
    if i == 0 {
        false
    } else if i == 1 {
        true
    } else if i < nodes.len() {
        let n = nodes[i as int];
        match (n.var, n.left, n.right) {
            (Some(q), Some(l), Some(r)) => if l < i && r < i {
                if env(q) {
                    denote(nodes, r, env)
                } else {
                    denote(nodes, l, env)
                }
            } else {
                false
            },
            _ => false,
        }
    } else {
        false
    }
}

} // verus!
