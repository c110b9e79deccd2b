//! What holds of every snapshot of the engine, and the proofs that the first
//! snapshot has it and that every step keeps it.
//!
//! The invariant says that the nodes form a reduced diagram (no test whose two
//! branches agree, no two nodes alike) whose table of unique nodes matches the
//! nodes, and that every call on the stack computes what the construction
//! procedure promises: the node it returns denotes the formula it was called on.
use crate::engine::{IntegrateStep, ObddStep};
use crate::formula::{assign, equivalent, eval, occurs, Prop};
use crate::model::{
    can_step, denote, finished, init_message, initial_state, next_state, step_forward,
    step_ready, table_find, terminal, transition_defined, EngineV, EntryV, FrameV,
    IntegrateFrameV, NodeV, ObddFrameV, StateV,
};
use crate::canonical::lemma_distinct_functions;
use crate::rewrite::{
    lemma_eval_assign_absent, lemma_simplify_eval, lemma_simplify_occurs, lemma_subst_eval,
    lemma_subst_occurs, simplify_fix, subst, walk_changes,
};
use vstd::prelude::*;

verus! {

/// Node `i` (not a terminal) tests a variable and has two different children
/// that come before it.
pub open spec fn inner_node_ok(nodes: Seq<NodeV>, i: int) -> bool {
    let n = nodes[i];
    &&& n.id == i
    &&& n.var is Some
    &&& n.left is Some
    &&& n.right is Some
    &&& n.left.unwrap() < i
    &&& n.right.unwrap() < i
    &&& n.left != n.right
}

/// The nodes: the two terminals first, then tests whose children come before
/// them; no test has two equal children, and no two tests are alike.
pub open spec fn nodes_wf(nodes: Seq<NodeV>) -> bool {
    &&& nodes.len() >= 2
    &&& nodes[0] == terminal(0)
    &&& nodes[1] == terminal(1)
    &&& forall|i: int| 2 <= i < nodes.len() ==> #[trigger] inner_node_ok(nodes, i)
    &&& forall|i: int, j: int|
        2 <= i < j < nodes.len() ==> (#[trigger] nodes[i]).var != (#[trigger] nodes[j]).var
            || nodes[i].left != nodes[j].left || nodes[i].right != nodes[j].right
}

/// The position at which the name `q` first stands in `order` (the length of
/// `order` when it stands nowhere). A name that the ordering repeats is
/// placed by its first occurrence.
pub open spec fn first_index(order: Seq<Seq<char>>, q: Seq<char>) -> int
    decreases order.len(),
{
    if order.len() == 0 {
        0
    } else if order[0] == q {
        0
    } else {
        1 + first_index(order.drop_first(), q)
    }
}

/// Node `i` is a terminal or tests a variable of the ordering whose first
/// occurrence is at position `k` or later.
pub open spec fn level_at_least(nodes: Seq<NodeV>, order: Seq<Seq<char>>, i: nat, k: int) -> bool {
    i < 2 || (i < nodes.len() && order.contains(nodes[i as int].var.unwrap()) && first_index(
        order,
        nodes[i as int].var.unwrap(),
    ) >= k)
}

/// The test at node `i` comes in the ordering before the tests of its children.
pub open spec fn node_ordered(nodes: Seq<NodeV>, order: Seq<Seq<char>>, i: int) -> bool {
    let q = nodes[i].var.unwrap();
    &&& order.contains(q)
    &&& level_at_least(nodes, order, nodes[i].left.unwrap(), first_index(order, q) + 1)
    &&& level_at_least(nodes, order, nodes[i].right.unwrap(), first_index(order, q) + 1)
}

/// Along every path of the diagram the variables are tested in the order of
/// `order`.
pub open spec fn nodes_ordered(nodes: Seq<NodeV>, order: Seq<Seq<char>>) -> bool {
    forall|i: int| 2 <= i < nodes.len() ==> #[trigger] node_ordered(nodes, order, i)
}

/// The table of unique nodes lists the tests, in order, by their key.
pub open spec fn table_wf(table: Seq<EntryV>, nodes: Seq<NodeV>) -> bool {
    &&& table.len() + 2 == nodes.len()
    &&& forall|j: int|
        0 <= j < table.len() ==> #[trigger] table[j] == (EntryV {
            var: nodes[j + 2].var.unwrap(),
            n1: nodes[j + 2].left.unwrap(),
            n2: nodes[j + 2].right.unwrap(),
            node: (j + 2) as nat,
        })
}

/// Node `r` denotes the truth function of `f`.
pub open spec fn represents(nodes: Seq<NodeV>, r: nat, f: Prop) -> bool {
    forall|env: spec_fn(Seq<char>) -> bool| #[trigger] denote(nodes, r, env) == eval(f, env)
}

/// Node `r` denotes `f` with `p` set to `v`.
pub open spec fn represents_cofactor(nodes: Seq<NodeV>, r: nat, f: Prop, p: Seq<char>, v: bool) -> bool {
    forall|env: spec_fn(Seq<char>) -> bool|
        #[trigger] denote(nodes, r, env) == eval(f, assign(env, p, v))
}

/// The variables of `f` are variables of the input not yet decided at
/// `var_index`.
pub open spec fn vars_pending(f: Prop, input: Prop, order: Seq<Seq<char>>, var_index: nat) -> bool {
    forall|q: Seq<char>|
        #[trigger] occurs(f, q) ==> occurs(input, q) && !order.take(var_index as int).contains(q)
}

/// A construction call: the fields that its step has set, and what they denote.
pub open spec fn obdd_ok(order: Seq<Seq<char>>, input: Prop, nodes: Seq<NodeV>, f: ObddFrameV) -> bool {
    &&& f.var_index <= order.len()
    &&& vars_pending(f.formula, input, order, f.var_index)
    &&& (f.p matches Some(q) ==> f.var_index < order.len() && q == order[f.var_index as int])
    &&& match f.step {
        ObddStep::Simplify => f.p is None && f.n1 is None && f.n2 is None && f.result is None,
        ObddStep::CheckBottom => f.p is None && f.n1 is None && f.n2 is None && f.result is None
            && !walk_changes(f.formula),
        ObddStep::CheckTop => f.p is None && f.n1 is None && f.n2 is None && f.result is None
            && !walk_changes(f.formula) && !(f.formula is Bottom),
        ObddStep::ChooseVariable => f.p is None && f.n1 is None && f.n2 is None && f.result is None
            && !walk_changes(f.formula) && !(f.formula is Bottom) && !(f.formula is Top),
        ObddStep::RecurseLow => f.p is Some && f.n1 is None && f.n2 is None && f.result is None,
        ObddStep::RecurseHigh => f.p is Some && f.n1 is Some && f.n2 is None && f.result is None,
        ObddStep::CallIntegrate => f.p is Some && f.n1 is Some && f.n2 is Some && f.result
            is None,
        ObddStep::Return => f.result is Some,
    }
    &&& (f.n1 matches Some(a) ==> a < nodes.len() && represents_cofactor(
        nodes,
        a,
        f.formula,
        f.p.unwrap(),
        false,
    ))
    &&& (f.n2 matches Some(b) ==> b < nodes.len() && represents_cofactor(
        nodes,
        b,
        f.formula,
        f.p.unwrap(),
        true,
    ))
    &&& (f.result matches Some(r) ==> r < nodes.len() && represents(nodes, r, f.formula))
    &&& (f.n1 matches Some(a) ==> level_at_least(nodes, order, a, f.var_index + 1int))
    &&& (f.n2 matches Some(b) ==> level_at_least(nodes, order, b, f.var_index + 1int))
    &&& (f.result matches Some(r) ==> level_at_least(nodes, order, r, f.var_index as int))
}

/// Node `r` denotes the test of `p` with children `n1` (false) and `n2` (true).
pub open spec fn represents_test(nodes: Seq<NodeV>, r: nat, p: Seq<char>, n1: nat, n2: nat) -> bool {
    forall|env: spec_fn(Seq<char>) -> bool| #[trigger]
        denote(nodes, r, env) == if env(p) {
            denote(nodes, n2, env)
        } else {
            denote(nodes, n1, env)
        }
}

/// An integration call: what its step has established.
pub open spec fn integrate_ok(
    order: Seq<Seq<char>>,
    nodes: Seq<NodeV>,
    table: Seq<EntryV>,
    g: IntegrateFrameV,
) -> bool {
    &&& g.n1 < nodes.len()
    &&& g.n2 < nodes.len()
    &&& match g.step {
        IntegrateStep::CheckEqual => g.result is None,
        IntegrateStep::LookupNode => g.result is None && g.n1 != g.n2,
        IntegrateStep::CreateNode => g.result is None && g.n1 != g.n2 && table_find(
            table,
            g.p,
            g.n1,
            g.n2,
        ) is None,
        IntegrateStep::Return => g.result matches Some(r) && r < nodes.len() && represents_test(
            nodes,
            r,
            g.p,
            g.n1,
            g.n2,
        ),
    }
}

pub open spec fn frame_ok(
    order: Seq<Seq<char>>,
    input: Prop,
    nodes: Seq<NodeV>,
    table: Seq<EntryV>,
    fr: FrameV,
) -> bool {
    match fr {
        FrameV::Obdd(f) => obdd_ok(order, input, nodes, f),
        FrameV::Integrate(g) => integrate_ok(order, nodes, table, g),
    }
}

/// How a call relates to the call below it: a construction call works on the
/// formula of its caller with the chosen variable set (false for the first
/// call, true for the second); an integration call works on its caller's two
/// nodes and variable, goes on to look up or create a node only for a
/// variable that first occurs at its caller's position, and returns a node
/// that tests no variable before that position.
pub open spec fn linked(order: Seq<Seq<char>>, nodes: Seq<NodeV>, parent: FrameV, child: FrameV) -> bool {
    match (parent, child) {
        (FrameV::Obdd(par), FrameV::Obdd(c)) => {
            &&& (par.step is RecurseLow || par.step is RecurseHigh)
            &&& par.p is Some
            &&& c.var_index == par.var_index + 1
            &&& equivalent(c.formula, subst(par.formula, par.p.unwrap(), par.n1 is Some))
        },
        (FrameV::Obdd(par), FrameV::Integrate(g)) => {
            &&& par.step is CallIntegrate
            &&& par.p == Some(g.p)
            &&& par.n1 == Some(g.n1)
            &&& par.n2 == Some(g.n2)
            &&& (g.step is LookupNode || g.step is CreateNode) ==> first_index(order, g.p)
                == par.var_index
            &&& (g.result matches Some(r) ==> level_at_least(nodes, order, r, par.var_index as int))
        },
        _ => false,
    }
}

/// The first call is on (a formula equivalent to) the input, at the first variable.
pub open spec fn root_ok(input: Prop, fr: FrameV) -> bool {
    match fr {
        FrameV::Obdd(f) => f.var_index == 0 && equivalent(f.formula, input),
        FrameV::Integrate(_) => false,
    }
}

/// The stack of calls: each call is well formed and linked to the one below,
/// the first is on the input, and an integration call can only be at the top.
pub open spec fn stack_wf(
    order: Seq<Seq<char>>,
    input: Prop,
    nodes: Seq<NodeV>,
    table: Seq<EntryV>,
    stack: Seq<FrameV>,
) -> bool {
    &&& forall|k: int| 0 <= k < stack.len() ==> frame_ok(order, input, nodes, table, #[trigger] stack[k])
    &&& stack.len() > 0 ==> root_ok(input, stack[0])
    &&& forall|k: int| 0 < k < stack.len() ==> linked(order, nodes, stack[k - 1], #[trigger] stack[k])
    &&& forall|k: int| 0 <= k < stack.len() - 1 ==> (#[trigger] stack[k]) is Obdd
}

/// A well-formed snapshot of the construction of the diagram of `input`.
#[verifier::opaque]
pub open spec fn state_wf(order: Seq<Seq<char>>, input: Prop, s: StateV) -> bool {
    &&& nodes_wf(s.nodes)
    &&& nodes_ordered(s.nodes, order)
    &&& table_wf(s.table, s.nodes)
    &&& s.message == init_message()
    &&& stack_wf(order, input, s.nodes, s.table, s.stack)
}

/// Snapshot `b` is the one that the step from `a` produces.
#[verifier::opaque]
pub open spec fn follows(order: Seq<Seq<char>>, a: StateV, b: StateV) -> bool {
    step_ready(order, a) && b == next_state(order, a)
}

/// A well-formed engine: its snapshots are the trace of the construction from
/// the first snapshot, numbered in order, and each is well formed.
pub open spec fn engine_wf(e: EngineV) -> bool {
    &&& e.history.len() > 0
    &&& e.current < e.history.len()
    &&& e.history.len() <= u32::MAX + 1
    &&& e.history[0] == initial_state(e.input)
    &&& forall|i: int|
        0 <= i < e.history.len() ==> state_wf(e.order, e.input, #[trigger] e.history[i])
            && e.history[i].step_number == i
    &&& forall|i: int|
        0 < i < e.history.len() ==> follows(e.order, e.history[i - 1], #[trigger] e.history[i])
}

// ---------------------------------------------------------------------------
// The meaning of nodes.

/// Adding a node changes the meaning of no node before it.
pub proof fn lemma_denote_push(nodes: Seq<NodeV>, x: NodeV, i: nat, env: spec_fn(Seq<char>) -> bool)
    requires
        i < nodes.len(),
    ensures
        denote(nodes.push(x), i, env) == denote(nodes, i, env),
    decreases i,
{
    let nodes2 = nodes.push(x);
    assert(nodes2[i as int] == nodes[i as int]);
    if i >= 2 {
        let n = nodes[i as int];
        if let (Some(q), Some(l), Some(r)) = (n.var, n.left, n.right) {
            if l < i && r < i {
                lemma_denote_push(nodes, x, l, env);
                lemma_denote_push(nodes, x, r, env);
            }
        }
    }
}

/// The first occurrence of a name: where it stands, and that no position
/// before it holds the name.
pub proof fn lemma_first_index(order: Seq<Seq<char>>, q: Seq<char>)
    ensures
        0 <= first_index(order, q) <= order.len(),
        order.contains(q) <==> first_index(order, q) < order.len(),
        first_index(order, q) < order.len() ==> order[first_index(order, q)] == q,
        forall|j: int| 0 <= j < first_index(order, q) ==> #[trigger] order[j] != q,
    decreases order.len(),
{
    if order.len() > 0 && order[0] != q {
        let rest = order.drop_first();
        lemma_first_index(rest, q);
        assert forall|j: int| 0 <= j < first_index(order, q) implies #[trigger] order[j] != q by {
            if j > 0 {
                assert(order[j] == rest[j - 1]);
            }
        }
        if order.contains(q) {
            let k = choose|k: int| 0 <= k < order.len() && order[k] == q;
            assert(rest[k - 1] == q);
        }
        if rest.contains(q) {
            let k = choose|k: int| 0 <= k < rest.len() && rest[k] == q;
            assert(order[k + 1] == q);
        }
    }
    if order.len() > 0 && order[0] == q {
        assert(order.contains(q));
    }
}

/// Two names of the ordering with the same first occurrence are the same name.
pub proof fn lemma_first_index_injective(order: Seq<Seq<char>>, p: Seq<char>, q: Seq<char>)
    requires
        order.contains(p),
        order.contains(q),
        first_index(order, p) == first_index(order, q),
    ensures
        p == q,
{
    lemma_first_index(order, p);
    lemma_first_index(order, q);
}

/// Setting a variable to the value it has changes nothing.
pub proof fn lemma_assign_same(env: spec_fn(Seq<char>) -> bool, p: Seq<char>)
    ensures
        assign(env, p, env(p)) == env,
{
    assert(assign(env, p, env(p)) =~= env);
}

// ---------------------------------------------------------------------------
// The first snapshot.

pub proof fn lemma_initial_state_wf(order: Seq<Seq<char>>, input: Prop)
    ensures
        state_wf(order, input, initial_state(input)),
{
    reveal(state_wf);
    let s = initial_state(input);
    assert(s.nodes[0] == terminal(0));
    assert(s.nodes[1] == terminal(1));
    assert(order.take(0) =~= Seq::<Seq<char>>::empty());
    assert(s.stack[0] == FrameV::Obdd(crate::model::root_frame(input)));
    assert(frame_ok(order, input, s.nodes, s.table, s.stack[0]));
}

/// A new engine is well formed.
pub proof fn lemma_initial_wf(e: EngineV)
    requires
        e.current == 0,
        e.history == seq![initial_state(e.input)],
    ensures
        engine_wf(e),
{
    lemma_initial_state_wf(e.order, e.input);
    assert(e.history[0] == initial_state(e.input));
}

/// Moving to another snapshot keeps the engine well formed.
pub proof fn lemma_move_wf(e: EngineV, c: nat)
    requires
        engine_wf(e),
        c < e.history.len(),
    ensures
        engine_wf(EngineV { current: c, ..e }),
{
}

/// A step forward that can be taken keeps the engine well formed; when it
/// produces a new snapshot, the step is ready to be taken.
pub proof fn lemma_step_forward_wf(e: EngineV)
    requires
        engine_wf(e),
        can_step(e),
    ensures
        engine_wf(step_forward(e)),
        !(e.current + 1 < e.history.len()) && !finished(e.history.last()) ==> step_ready(
            e.order,
            e.history.last(),
        ) && e.history.last().step_number < u32::MAX,
{
    if !(e.current + 1 < e.history.len()) && !finished(e.history.last()) {
        let last = e.history.last();
        assert(state_wf(e.order, e.input, e.history[e.history.len() - 1]));
        lemma_wf_ready(e.order, e.input, last);
        lemma_next_state_wf(e.order, e.input, last);
        let e2 = step_forward(e);
        assert forall|i: int| 0 <= i < e2.history.len() implies state_wf(
            e2.order,
            e2.input,
            #[trigger] e2.history[i],
        ) && e2.history[i].step_number == i by {
            if i < e.history.len() {
                assert(e2.history[i] == e.history[i]);
            }
        }
        assert forall|i: int| 0 < i < e2.history.len() implies follows(
            e2.order,
            e2.history[i - 1],
            #[trigger] e2.history[i],
        ) by {
            if i < e.history.len() {
                assert(e2.history[i] == e.history[i]);
                assert(e2.history[i - 1] == e.history[i - 1]);
            } else {
                reveal(follows);
            }
        }
    }
}

/// In a well-formed snapshot whose step is defined, the step is ready.
pub proof fn lemma_wf_ready(order: Seq<Seq<char>>, input: Prop, s: StateV)
    requires
        state_wf(order, input, s),
        transition_defined(order, s),
    ensures
        step_ready(order, s),
{
    reveal(state_wf);
    let n = s.stack.len();
    assert(frame_ok(order, input, s.nodes, s.table, s.stack[n - 1]));
    if n >= 2 {
        assert(linked(order, s.nodes, s.stack[n - 2], s.stack[n - 1]));
        assert(s.stack[n - 2] is Obdd);
    }
}

/// Where the first entry with a key is, or that no entry has it.
pub proof fn lemma_table_find(table: Seq<EntryV>, p: Seq<char>, n1: nat, n2: nat) -> (j: int)
    ensures
        table_find(table, p, n1, n2) matches Some(id) ==> 0 <= j < table.len() && table[j].var
            == p && table[j].n1 == n1 && table[j].n2 == n2 && table[j].node == id,
        table_find(table, p, n1, n2) is None ==> forall|k: int|
            0 <= k < table.len() ==> !((#[trigger] table[k]).var == p && table[k].n1 == n1
                && table[k].n2 == n2),
    decreases table.len(),
{
    if table.len() == 0 {
        0
    } else if table[0].var == p && table[0].n1 == n1 && table[0].n2 == n2 {
        0
    } else {
        let j = lemma_table_find(table.drop_first(), p, n1, n2);
        if table_find(table, p, n1, n2) is None {
            assert forall|k: int| 0 <= k < table.len() implies !((#[trigger] table[k]).var == p
                && table[k].n1 == n1 && table[k].n2 == n2) by {
                if k > 0 {
                    assert(table[k] == table.drop_first()[k - 1]);
                }
            }
        }
        j + 1
    }
}

/// Simplifying the formula of a call keeps what the stack says of it.
pub proof fn lemma_equivalent_simplify(f: Prop, g: Prop)
    requires
        equivalent(f, g),
    ensures
        equivalent(simplify_fix(f), g),
{
    assert forall|env: spec_fn(Seq<char>) -> bool| #[trigger]
        eval(simplify_fix(f), env) == eval(g, env) by {
        lemma_simplify_eval(f, env);
        assert(eval(f, env) == eval(g, env));
    }
}

/// Replacing the top call keeps the stack well formed when the new call is
/// well formed and linked as the old one was.
pub proof fn lemma_replace_top(
    order: Seq<Seq<char>>,
    input: Prop,
    nodes: Seq<NodeV>,
    table: Seq<EntryV>,
    nodes2: Seq<NodeV>,
    table2: Seq<EntryV>,
    stack: Seq<FrameV>,
    f2: FrameV,
)
    requires
        stack.len() > 0,
        stack_wf(order, input, nodes, table, stack),
        forall|k: int|
            0 <= k < stack.len() - 1 ==> frame_ok(order, input, nodes2, table2, #[trigger] stack[k]),
        frame_ok(order, input, nodes2, table2, f2),
        stack.len() == 1 ==> root_ok(input, f2),
        stack.len() >= 2 ==> linked(order, nodes2, stack[stack.len() - 2], f2),
    ensures
        stack_wf(order, input, nodes2, table2, stack.drop_last().push(f2)),
{
    let st2 = stack.drop_last().push(f2);
    let n = stack.len();
    assert forall|k: int| 0 <= k < st2.len() implies frame_ok(
        order,
        input,
        nodes2,
        table2,
        #[trigger] st2[k],
    ) by {
        if k < n - 1 {
            assert(st2[k] == stack[k]);
        }
    }
    assert forall|k: int| 0 < k < st2.len() implies linked(order, nodes2, st2[k - 1], #[trigger] st2[k]) by {
        if k < n - 1 {
            assert(st2[k] == stack[k]);
            assert(st2[k - 1] == stack[k - 1]);
            assert(linked(order, nodes, stack[k - 1], stack[k]));
            assert(stack[k] is Obdd);
        } else {
            assert(st2[k - 1] == stack[k - 1]);
        }
    }
    assert forall|k: int| 0 <= k < st2.len() - 1 implies (#[trigger] st2[k]) is Obdd by {
        assert(st2[k] == stack[k]);
    }
    if n >= 2 {
        assert(st2[0] == stack[0]);
    }
}

/// Pushing a call linked to the top one keeps the stack well formed.
pub proof fn lemma_push(
    order: Seq<Seq<char>>,
    input: Prop,
    nodes: Seq<NodeV>,
    table: Seq<EntryV>,
    stack: Seq<FrameV>,
    f2: FrameV,
)
    requires
        stack.len() > 0,
        stack_wf(order, input, nodes, table, stack),
        stack.last() is Obdd,
        frame_ok(order, input, nodes, table, f2),
        linked(order, nodes, stack.last(), f2),
    ensures
        stack_wf(order, input, nodes, table, stack.push(f2)),
{
    let st2 = stack.push(f2);
    let n = stack.len();
    assert forall|k: int| 0 <= k < st2.len() implies frame_ok(
        order,
        input,
        nodes,
        table,
        #[trigger] st2[k],
    ) by {
        if k < n {
            assert(st2[k] == stack[k]);
        }
    }
    assert forall|k: int| 0 < k < st2.len() implies linked(order, nodes, st2[k - 1], #[trigger] st2[k]) by {
        assert(st2[k - 1] == stack[k - 1]);
        if k < n {
            assert(st2[k] == stack[k]);
        }
    }
    assert forall|k: int| 0 <= k < st2.len() - 1 implies (#[trigger] st2[k]) is Obdd by {
        assert(st2[k] == stack[k]);
    }
    assert(st2[0] == stack[0]);
}

/// Taking off the top call and replacing its caller keeps the stack well
/// formed when the new caller is well formed and linked as the old one was.
pub proof fn lemma_pop_replace(
    order: Seq<Seq<char>>,
    input: Prop,
    nodes: Seq<NodeV>,
    table: Seq<EntryV>,
    stack: Seq<FrameV>,
    par2: FrameV,
)
    requires
        stack.len() >= 2,
        stack_wf(order, input, nodes, table, stack),
        par2 is Obdd,
        frame_ok(order, input, nodes, table, par2),
        stack.len() == 2 ==> root_ok(input, par2),
        stack.len() >= 3 ==> linked(order, nodes, stack[stack.len() - 3], par2),
    ensures
        stack_wf(order, input, nodes, table, stack.drop_last().drop_last().push(par2)),
{
    let st2 = stack.drop_last().drop_last().push(par2);
    let n = stack.len();
    assert forall|k: int| 0 <= k < st2.len() implies frame_ok(
        order,
        input,
        nodes,
        table,
        #[trigger] st2[k],
    ) by {
        if k < n - 2 {
            assert(st2[k] == stack[k]);
        }
    }
    assert forall|k: int| 0 < k < st2.len() implies linked(order, nodes, st2[k - 1], #[trigger] st2[k]) by {
        assert(st2[k - 1] == stack[k - 1]);
        if k < n - 2 {
            assert(st2[k] == stack[k]);
        }
    }
    assert forall|k: int| 0 <= k < st2.len() - 1 implies (#[trigger] st2[k]) is Obdd by {
        assert(st2[k] == stack[k]);
    }
    if n >= 3 {
        assert(st2[0] == stack[0]);
    }
}

/// A construction call keeps what it says when a node is added.
pub proof fn lemma_obdd_ok_push(
    order: Seq<Seq<char>>,
    input: Prop,
    nodes: Seq<NodeV>,
    x: NodeV,
    f: ObddFrameV,
)
    requires
        obdd_ok(order, input, nodes, f),
    ensures
        obdd_ok(order, input, nodes.push(x), f),
{
    let nodes2 = nodes.push(x);
    if let Some(a) = f.n1 {
        if a >= 2 {
            assert(nodes2[a as int] == nodes[a as int]);
        }
        assert forall|env: spec_fn(Seq<char>) -> bool| #[trigger] denote(nodes2, a, env) == eval(
            f.formula,
            assign(env, f.p.unwrap(), false),
        ) by {
            lemma_denote_push(nodes, x, a, env);
            assert(denote(nodes, a, env) == eval(f.formula, assign(env, f.p.unwrap(), false)));
        }
    }
    if let Some(b) = f.n2 {
        if b >= 2 {
            assert(nodes2[b as int] == nodes[b as int]);
        }
        assert forall|env: spec_fn(Seq<char>) -> bool| #[trigger] denote(nodes2, b, env) == eval(
            f.formula,
            assign(env, f.p.unwrap(), true),
        ) by {
            lemma_denote_push(nodes, x, b, env);
            assert(denote(nodes, b, env) == eval(f.formula, assign(env, f.p.unwrap(), true)));
        }
    }
    if let Some(r) = f.result {
        if r >= 2 {
            assert(nodes2[r as int] == nodes[r as int]);
        }
        assert forall|env: spec_fn(Seq<char>) -> bool| #[trigger] denote(nodes2, r, env) == eval(
            f.formula,
            env,
        ) by {
            lemma_denote_push(nodes, x, r, env);
            assert(denote(nodes, r, env) == eval(f.formula, env));
        }
    }
}

/// The step of a construction call keeps the snapshot well formed.
pub proof fn lemma_obdd_step_wf(order: Seq<Seq<char>>, input: Prop, s: StateV, f: ObddFrameV)
    requires
        state_wf(order, input, s),
        s.stack.len() > 0,
        s.stack.last() == FrameV::Obdd(f),
        f.step is ChooseVariable ==> f.var_index < order.len(),
    ensures
        state_wf(order, input, crate::model::obdd_transition(order, s, f)),
{
    reveal(state_wf);
    let n = s.stack.len();
    let nodes = s.nodes;
    let table = s.table;
    assert(frame_ok(order, input, nodes, table, s.stack[n - 1]));
    if n >= 2 {
        assert(linked(order, nodes, s.stack[n - 2], s.stack[n - 1]));
    }
    let s2 = crate::model::obdd_transition(order, s, f);
    match f.step {
        ObddStep::Simplify => {
            let g = simplify_fix(f.formula);
            let f2 = ObddFrameV { step: ObddStep::CheckBottom, formula: g, ..f };
            crate::rewrite::lemma_simplify_stable(f.formula);
            assert forall|q: Seq<char>| #[trigger] occurs(g, q) implies occurs(input, q)
                && !order.take(f.var_index as int).contains(q) by {
                lemma_simplify_occurs(f.formula, q);
            }
            if n == 1 {
                lemma_equivalent_simplify(f.formula, input);
            } else {
                match s.stack[n - 2] {
                    FrameV::Obdd(par) => {
                        lemma_equivalent_simplify(
                            f.formula,
                            subst(par.formula, par.p.unwrap(), par.n1 is Some),
                        );
                    },
                    FrameV::Integrate(_) => {},
                }
            }
            lemma_replace_top(order, input, nodes, table, nodes, table, s.stack, FrameV::Obdd(f2));
        },
        ObddStep::CheckBottom => {
            if f.formula is Bottom {
                let f2 = ObddFrameV { result: Some(0), step: ObddStep::Return, ..f };
                assert forall|env: spec_fn(Seq<char>) -> bool| #[trigger] denote(nodes, 0, env)
                    == eval(f.formula, env) by {}
                lemma_replace_top(order, input, nodes, table, nodes, table, s.stack, FrameV::Obdd(f2));
            } else {
                let f2 = ObddFrameV { step: ObddStep::CheckTop, ..f };
                lemma_replace_top(order, input, nodes, table, nodes, table, s.stack, FrameV::Obdd(f2));
            }
        },
        ObddStep::CheckTop => {
            if f.formula is Top {
                let f2 = ObddFrameV { result: Some(1), step: ObddStep::Return, ..f };
                assert forall|env: spec_fn(Seq<char>) -> bool| #[trigger] denote(nodes, 1, env)
                    == eval(f.formula, env) by {}
                lemma_replace_top(order, input, nodes, table, nodes, table, s.stack, FrameV::Obdd(f2));
            } else {
                let f2 = ObddFrameV { step: ObddStep::ChooseVariable, ..f };
                lemma_replace_top(order, input, nodes, table, nodes, table, s.stack, FrameV::Obdd(f2));
            }
        },
        ObddStep::ChooseVariable => {
            let f2 = ObddFrameV {
                p: Some(order[f.var_index as int]),
                step: ObddStep::RecurseLow,
                ..f
            };
            lemma_replace_top(order, input, nodes, table, nodes, table, s.stack, FrameV::Obdd(f2));
        },
        ObddStep::RecurseLow | ObddStep::RecurseHigh => {
            let v = f.step is RecurseHigh;
            let c = crate::model::child_frame(f, v);
            let q = f.p.unwrap();
            assert(order.take(f.var_index + 1int) =~= order.take(f.var_index as int).push(q));
            assert forall|q2: Seq<char>| #[trigger] occurs(c.formula, q2) implies occurs(input, q2)
                && !order.take(c.var_index as int).contains(q2) by {
                lemma_subst_occurs(f.formula, q, v, q2);
                assert(order.take(f.var_index + 1int) =~= order.take(f.var_index as int).push(q));
            }
            assert(frame_ok(order, input, nodes, table, FrameV::Obdd(c)));
            lemma_push(order, input, nodes, table, s.stack, FrameV::Obdd(c));
        },
        ObddStep::CallIntegrate => {
            let g = IntegrateFrameV {
                step: IntegrateStep::CheckEqual,
                n1: f.n1.unwrap(),
                p: f.p.unwrap(),
                n2: f.n2.unwrap(),
                result: None,
            };
            lemma_push(order, input, nodes, table, s.stack, FrameV::Integrate(g));
        },
        ObddStep::Return => {
            if n >= 2 {
                let r = f.result.unwrap();
                match s.stack[n - 2] {
                    FrameV::Obdd(par) => {
                        assert(frame_ok(order, input, nodes, table, s.stack[n - 2]));
                        if n >= 3 {
                            assert(linked(order, nodes, s.stack[n - 3], s.stack[n - 2]));
                        }
                        let q = par.p.unwrap();
                        let v = par.n1 is Some;
                        assert forall|env: spec_fn(Seq<char>) -> bool| #[trigger] denote(
                            nodes,
                            r,
                            env,
                        ) == eval(par.formula, assign(env, q, v)) by {
                            assert(denote(nodes, r, env) == eval(f.formula, env));
                            assert(eval(f.formula, env) == eval(subst(par.formula, q, v), env));
                            lemma_subst_eval(par.formula, q, v, env);
                        }
                        let par2 = if par.n1 is None {
                            ObddFrameV { n1: f.result, step: ObddStep::RecurseHigh, ..par }
                        } else {
                            ObddFrameV { n2: f.result, step: ObddStep::CallIntegrate, ..par }
                        };
                        lemma_pop_replace(order, input, nodes, table, s.stack, FrameV::Obdd(par2));
                        assert(s2.stack =~= s.stack.drop_last().drop_last().push(
                            FrameV::Obdd(par2),
                        ));
                    },
                    FrameV::Integrate(_) => {},
                }
            }
        },
    }
}

/// Comparing the two children keeps the snapshot well formed.
#[verifier::rlimit(40)]
pub proof fn lemma_check_equal_wf(order: Seq<Seq<char>>, input: Prop, s: StateV, g: IntegrateFrameV)
    requires
        state_wf(order, input, s),
        s.stack.len() > 0,
        s.stack.last() == FrameV::Integrate(g),
        g.step is CheckEqual,
    ensures
        state_wf(order, input, crate::model::integrate_transition(s, g)),
{
    reveal(state_wf);
    let n = s.stack.len();
    let nodes = s.nodes;
    let table = s.table;
    assert(frame_ok(order, input, nodes, table, s.stack[n - 1]));
    assert(n >= 2);
    assert(linked(order, nodes, s.stack[n - 2], s.stack[n - 1]));
    let s2 = crate::model::integrate_transition(s, g);
    if g.n1 == g.n2 {
        let g2 = IntegrateFrameV {
            result: Some(g.n1),
            step: IntegrateStep::Return,
            ..g
        };
        assert(represents_test(nodes, g.n1, g.p, g.n1, g.n2));
        lemma_replace_top(order, input, nodes, table, nodes, table, s.stack, FrameV::Integrate(g2));
    } else {
        // The chosen variable first occurs here: had it occurred before, the
        // formula would not mention it, and the two children, denoting the
        // same function, would be the same node.
        if let FrameV::Obdd(par) = s.stack[n - 2] {
            assert(frame_ok(order, input, nodes, table, s.stack[n - 2]));
            let vi = par.var_index as int;
            let p = g.p;
            lemma_first_index(order, p);
            assert(order[vi] == p);
            let fi = first_index(order, p);
            if fi < vi {
                assert(order.take(vi)[fi] == p);
                assert(order.take(vi).contains(p));
                assert(!occurs(par.formula, p));
                assert forall|env: spec_fn(Seq<char>) -> bool| #[trigger] denote(nodes, g.n1, env)
                    == denote(nodes, g.n2, env) by {
                    lemma_eval_assign_absent(par.formula, p, false, env);
                    lemma_eval_assign_absent(par.formula, p, true, env);
                    assert(denote(nodes, g.n1, env) == eval(par.formula, assign(env, p, false)));
                    assert(denote(nodes, g.n2, env) == eval(par.formula, assign(env, p, true)));
                }
                let env = if g.n1 < g.n2 {
                    lemma_distinct_functions(nodes, order, g.n1, g.n2)
                } else {
                    lemma_distinct_functions(nodes, order, g.n2, g.n1)
                };
                assert(false);
            }
        }
        let g2 = IntegrateFrameV { step: IntegrateStep::LookupNode, ..g };
        lemma_replace_top(order, input, nodes, table, nodes, table, s.stack, FrameV::Integrate(g2));
    }
}

/// Looking up the table of unique nodes keeps the snapshot well formed.
#[verifier::rlimit(40)]
pub proof fn lemma_lookup_wf(order: Seq<Seq<char>>, input: Prop, s: StateV, g: IntegrateFrameV)
    requires
        state_wf(order, input, s),
        s.stack.len() > 0,
        s.stack.last() == FrameV::Integrate(g),
        g.step is LookupNode,
    ensures
        state_wf(order, input, crate::model::integrate_transition(s, g)),
{
    reveal(state_wf);
    let n = s.stack.len();
    let nodes = s.nodes;
    let table = s.table;
    assert(frame_ok(order, input, nodes, table, s.stack[n - 1]));
    assert(n >= 2);
    assert(linked(order, nodes, s.stack[n - 2], s.stack[n - 1]));
    let s2 = crate::model::integrate_transition(s, g);
    let j = lemma_table_find(table, g.p, g.n1, g.n2);
    match table_find(table, g.p, g.n1, g.n2) {
        Some(id) => {
            assert(table[j] == (EntryV {
                var: nodes[j + 2].var.unwrap(),
                n1: nodes[j + 2].left.unwrap(),
                n2: nodes[j + 2].right.unwrap(),
                node: (j + 2) as nat,
            }));
            assert(inner_node_ok(nodes, j + 2));
            assert(represents_test(nodes, id, g.p, g.n1, g.n2));
            let g2 = IntegrateFrameV {
                result: Some(id),
                step: IntegrateStep::Return,
                ..g
            };
            lemma_replace_top(order, input, nodes, table, nodes, table, s.stack, FrameV::Integrate(g2));
        },
        None => {
            let g2 = IntegrateFrameV { step: IntegrateStep::CreateNode, ..g };
            lemma_replace_top(order, input, nodes, table, nodes, table, s.stack, FrameV::Integrate(g2));
        },
    }
}

/// Adding the node of a creation step keeps the nodes reduced and ordered and
/// the table matching them.
#[verifier::rlimit(40)]
pub proof fn lemma_create_nodes(
    order: Seq<Seq<char>>,
    nodes: Seq<NodeV>,
    table: Seq<EntryV>,
    g: IntegrateFrameV,
)
    requires
        nodes_wf(nodes),
        nodes_ordered(nodes, order),
        table_wf(table, nodes),
        integrate_ok(order, nodes, table, g),
        g.step is CreateNode,
        order.contains(g.p),
        level_at_least(nodes, order, g.n1, first_index(order, g.p) + 1),
        level_at_least(nodes, order, g.n2, first_index(order, g.p) + 1),
    ensures
        ({
            let idx = nodes.len();
            let nodes2 = nodes.push(
                NodeV { id: idx, var: Some(g.p), left: Some(g.n1), right: Some(g.n2) },
            );
            let table2 = table.push(EntryV { var: g.p, n1: g.n1, n2: g.n2, node: idx });
            &&& nodes_wf(nodes2)
            &&& table_wf(table2, nodes2)
            &&& nodes_ordered(nodes2, order)
        }),
{
    let idx = nodes.len();
    let x = NodeV { id: idx, var: Some(g.p), left: Some(g.n1), right: Some(g.n2) };
    let nodes2 = nodes.push(x);
    let table2 = table.push(EntryV { var: g.p, n1: g.n1, n2: g.n2, node: idx });
    let _ = lemma_table_find(table, g.p, g.n1, g.n2);
    // The nodes stay reduced: the new test is unlike every other.
    assert forall|i: int| 2 <= i < nodes2.len() implies #[trigger] inner_node_ok(
        nodes2,
        i,
    ) by {
        if i < idx {
            assert(nodes2[i] == nodes[i]);
            assert(inner_node_ok(nodes, i));
        }
    }
    assert forall|i: int, j: int| 2 <= i < j < nodes2.len() implies (
    #[trigger] nodes2[i]).var != (#[trigger] nodes2[j]).var || nodes2[i].left
        != nodes2[j].left || nodes2[i].right != nodes2[j].right by {
        assert(nodes2[i] == nodes[i]);
        if j < idx {
            assert(nodes2[j] == nodes[j]);
        } else {
            assert(table[i - 2] == (EntryV {
                var: nodes[i].var.unwrap(),
                n1: nodes[i].left.unwrap(),
                n2: nodes[i].right.unwrap(),
                node: i as nat,
            }));
            assert(inner_node_ok(nodes, i));
        }
    }
    assert(nodes2[0] == nodes[0]);
    assert(nodes2[1] == nodes[1]);
    assert(nodes_wf(nodes2));
    assert forall|j: int| 0 <= j < table2.len() implies #[trigger] table2[j] == (EntryV {
        var: nodes2[j + 2].var.unwrap(),
        n1: nodes2[j + 2].left.unwrap(),
        n2: nodes2[j + 2].right.unwrap(),
        node: (j + 2) as nat,
    }) by {
        if j < table.len() {
            assert(table2[j] == table[j]);
            assert(nodes2[j + 2] == nodes[j + 2]);
        }
    }
    assert(table_wf(table2, nodes2));
    assert forall|i: int| 2 <= i < nodes2.len() implies #[trigger] node_ordered(
        nodes2,
        order,
        i,
    ) by {
        if i < idx {
            assert(nodes2[i] == nodes[i]);
            assert(node_ordered(nodes, order, i));
            assert(inner_node_ok(nodes, i));
            let l = nodes[i].left.unwrap();
            let r = nodes[i].right.unwrap();
            if l >= 2 {
                assert(nodes2[l as int] == nodes[l as int]);
            }
            if r >= 2 {
                assert(nodes2[r as int] == nodes[r as int]);
            }
        } else {
            if g.n1 >= 2 {
                assert(nodes2[g.n1 as int] == nodes[g.n1 as int]);
            }
            if g.n2 >= 2 {
                assert(nodes2[g.n2 as int] == nodes[g.n2 as int]);
            }
        }
    }
}

/// Creating a node keeps the snapshot well formed: the diagram stays reduced and ordered, and every call keeps what it says.
#[verifier::rlimit(40)]
pub proof fn lemma_create_wf(order: Seq<Seq<char>>, input: Prop, s: StateV, g: IntegrateFrameV)
    requires
        state_wf(order, input, s),
        s.stack.len() > 0,
        s.stack.last() == FrameV::Integrate(g),
        g.step is CreateNode,
    ensures
        state_wf(order, input, crate::model::integrate_transition(s, g)),
{
    reveal(state_wf);
    let n = s.stack.len();
    let nodes = s.nodes;
    let table = s.table;
    assert(frame_ok(order, input, nodes, table, s.stack[n - 1]));
    assert(n >= 2);
    assert(linked(order, nodes, s.stack[n - 2], s.stack[n - 1]));
    let s2 = crate::model::integrate_transition(s, g);
    let idx = nodes.len();
    let x = NodeV { id: idx, var: Some(g.p), left: Some(g.n1), right: Some(g.n2) };
    let nodes2 = nodes.push(x);
    let table2 = table.push(EntryV { var: g.p, n1: g.n1, n2: g.n2, node: idx });
    let par = s.stack[n - 2]->Obdd_0;
    assert(frame_ok(order, input, nodes, table, s.stack[n - 2]));
    assert(order[par.var_index as int] == g.p);
    assert(order.contains(g.p));
    lemma_create_nodes(order, nodes, table, g);
    assert(level_at_least(nodes2, order, idx, par.var_index as int));
    // The calls below keep what they say.
    assert forall|k: int| 0 <= k < n - 1 implies frame_ok(
        order,
        input,
        nodes2,
        table2,
        #[trigger] s.stack[k],
    ) by {
        assert(frame_ok(order, input, nodes, table, s.stack[k]));
        match s.stack[k] {
            FrameV::Obdd(f) => {
                lemma_obdd_ok_push(order, input, nodes, x, f);
            },
            FrameV::Integrate(_) => {},
        }
    }
    let g2 = IntegrateFrameV { result: Some(idx), step: IntegrateStep::Return, ..g };
    assert forall|env: spec_fn(Seq<char>) -> bool| #[trigger] denote(nodes2, idx, env)
        == if env(g.p) {
        denote(nodes2, g.n2, env)
    } else {
        denote(nodes2, g.n1, env)
    } by {}
    assert(frame_ok(order, input, nodes2, table2, FrameV::Integrate(g2)));
    lemma_replace_top(order, input, nodes, table, nodes2, table2, s.stack, FrameV::Integrate(g2));
}

/// Returning from an integration keeps the snapshot well formed: the caller gets a node for its formula.
#[verifier::rlimit(40)]
pub proof fn lemma_integrate_return_wf(order: Seq<Seq<char>>, input: Prop, s: StateV, g: IntegrateFrameV)
    requires
        state_wf(order, input, s),
        s.stack.len() > 0,
        s.stack.last() == FrameV::Integrate(g),
        g.step is Return,
    ensures
        state_wf(order, input, crate::model::integrate_transition(s, g)),
{
    reveal(state_wf);
    let n = s.stack.len();
    let nodes = s.nodes;
    let table = s.table;
    assert(frame_ok(order, input, nodes, table, s.stack[n - 1]));
    assert(n >= 2);
    assert(linked(order, nodes, s.stack[n - 2], s.stack[n - 1]));
    let s2 = crate::model::integrate_transition(s, g);
    match s.stack[n - 2] {
        FrameV::Obdd(par) => {
            assert(frame_ok(order, input, nodes, table, s.stack[n - 2]));
            if n >= 3 {
                assert(linked(order, nodes, s.stack[n - 3], s.stack[n - 2]));
            }
            let r = g.result.unwrap();
            assert forall|env: spec_fn(Seq<char>) -> bool| #[trigger] denote(nodes, r, env)
                == eval(par.formula, env) by {
                assert(denote(nodes, g.n2, env) == eval(par.formula, assign(env, g.p, true)));
                assert(denote(nodes, g.n1, env) == eval(par.formula, assign(env, g.p, false)));
                lemma_assign_same(env, g.p);
            }
            let par2 = ObddFrameV { result: g.result, step: ObddStep::Return, ..par };
            lemma_pop_replace(order, input, nodes, table, s.stack, FrameV::Obdd(par2));
            assert(s2.stack =~= s.stack.drop_last().drop_last().push(FrameV::Obdd(par2)));
        },
        FrameV::Integrate(_) => {},
    }
}

/// The step of an integration call keeps the snapshot well formed.
pub proof fn lemma_integrate_step_wf(
    order: Seq<Seq<char>>,
    input: Prop,
    s: StateV,
    g: IntegrateFrameV,
)
    requires
        state_wf(order, input, s),
        s.stack.len() > 0,
        s.stack.last() == FrameV::Integrate(g),
    ensures
        state_wf(order, input, crate::model::integrate_transition(s, g)),
{
    match g.step {
        IntegrateStep::CheckEqual => lemma_check_equal_wf(order, input, s, g),
        IntegrateStep::LookupNode => lemma_lookup_wf(order, input, s, g),
        IntegrateStep::CreateNode => lemma_create_wf(order, input, s, g),
        IntegrateStep::Return => lemma_integrate_return_wf(order, input, s, g),
    }
}

/// Every step keeps a snapshot well formed.
pub proof fn lemma_next_state_wf(order: Seq<Seq<char>>, input: Prop, s: StateV)
    requires
        state_wf(order, input, s),
        transition_defined(order, s),
    ensures
        state_wf(order, input, next_state(order, s)),
{
    let s1 = StateV { step_number: s.step_number + 1, ..s };
    assert(state_wf(order, input, s1)) by {
        reveal(state_wf);
    }
    match s.stack.last() {
        FrameV::Obdd(f) => {
            lemma_obdd_step_wf(order, input, s1, f);
        },
        FrameV::Integrate(g) => {
            lemma_integrate_step_wf(order, input, s1, g);
        },
    }
}

} // verus!
