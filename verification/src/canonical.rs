//! Canonicity: in a reduced, ordered diagram, different nodes denote
//! different functions. So the diagram of an unsatisfiable formula is the
//! false terminal, and that of a valid formula is the true terminal.
use crate::formula::{assign, eval};
use crate::laws::{law_nodes_ordered, law_nodes_reduced, law_root_result_represents_input};
use crate::model::{denote, EngineV, FrameV, NodeV};
use crate::wellformed::{
    engine_wf, first_index, inner_node_ok, lemma_first_index_injective, level_at_least,
    node_ordered, nodes_ordered, nodes_wf,
};
use vstd::prelude::*;

verus! {

/// The diagrams that the engine builds: reduced, and ordered by the first
/// occurrence of each name in the ordering.
pub open spec fn canonical_diagram(nodes: Seq<NodeV>, order: Seq<Seq<char>>) -> bool {
    &&& nodes_wf(nodes)
    &&& nodes_ordered(nodes, order)
}

/// Two nodes denote the same function.
pub open spec fn same_function(nodes: Seq<NodeV>, i: nat, j: nat) -> bool {
    forall|env: spec_fn(Seq<char>) -> bool| #[trigger]
        denote(nodes, i, env) == denote(nodes, j, env)
}

/// A node whose tests all come after the variable `q` does not depend on `q`.
pub proof fn lemma_independent(
    nodes: Seq<NodeV>,
    order: Seq<Seq<char>>,
    k: nat,
    q: Seq<char>,
    v: bool,
    env: spec_fn(Seq<char>) -> bool,
)
    requires
        canonical_diagram(nodes, order),
        order.contains(q),
        level_at_least(nodes, order, k, first_index(order, q) + 1),
    ensures
        denote(nodes, k, assign(env, q, v)) == denote(nodes, k, env),
    decreases k,
{
    if k >= 2 {
        assert(inner_node_ok(nodes, k as int));
        assert(node_ordered(nodes, order, k as int));
        let n = nodes[k as int];
        let p = n.var.unwrap();
        assert(p != q);
        lemma_independent(nodes, order, n.left.unwrap(), q, v, env);
        lemma_independent(nodes, order, n.right.unwrap(), q, v, env);
    }
}

/// A node that tests a variable takes both truth values.
pub proof fn lemma_inner_not_constant(nodes: Seq<NodeV>, order: Seq<Seq<char>>, j: nat) -> (envs: (
    spec_fn(Seq<char>) -> bool,
    spec_fn(Seq<char>) -> bool,
))
    requires
        canonical_diagram(nodes, order),
        2 <= j < nodes.len(),
    ensures
        denote(nodes, j, envs.0),
        !denote(nodes, j, envs.1),
    decreases j, 0nat,
{
    assert(inner_node_ok(nodes, j as int));
    assert(node_ordered(nodes, order, j as int));
    let n = nodes[j as int];
    let p = n.var.unwrap();
    let (l, r) = (n.left.unwrap(), n.right.unwrap());
    let env0 = if l < r {
        lemma_distinct_functions(nodes, order, l, r)
    } else {
        lemma_distinct_functions(nodes, order, r, l)
    };
    let env_f = assign(env0, p, false);
    let env_t = assign(env0, p, true);
    lemma_independent(nodes, order, l, p, false, env0);
    lemma_independent(nodes, order, r, p, true, env0);
    assert(denote(nodes, j, env_f) == denote(nodes, l, env0));
    assert(denote(nodes, j, env_t) == denote(nodes, r, env0));
    if denote(nodes, j, env_t) {
        (env_t, env_f)
    } else {
        (env_f, env_t)
    }
}

/// Different nodes denote different functions: an assignment tells them apart.
pub proof fn lemma_distinct_functions(nodes: Seq<NodeV>, order: Seq<Seq<char>>, i: nat, j: nat) -> (env:
    spec_fn(Seq<char>) -> bool)
    requires
        canonical_diagram(nodes, order),
        i < j < nodes.len(),
    ensures
        denote(nodes, i, env) != denote(nodes, j, env),
    decreases j, 1nat,
{
    let any = |x: Seq<char>| true;
    if j < 2 {
        any
    } else if i < 2 {
        let (et, ef) = lemma_inner_not_constant(nodes, order, j);
        if i == 0 {
            et
        } else {
            ef
        }
    } else {
        assert(inner_node_ok(nodes, i as int));
        assert(inner_node_ok(nodes, j as int));
        assert(node_ordered(nodes, order, i as int));
        assert(node_ordered(nodes, order, j as int));
        let ni = nodes[i as int];
        let nj = nodes[j as int];
        let (pi, pj) = (ni.var.unwrap(), nj.var.unwrap());
        let (li, ri) = (ni.left.unwrap(), ni.right.unwrap());
        let (lj, rj) = (nj.left.unwrap(), nj.right.unwrap());
        let (ai, aj) = (first_index(order, pi), first_index(order, pj));
        if ai == aj {
            lemma_first_index_injective(order, pi, pj);
            if li != lj {
                let env0 = if li < lj {
                    lemma_distinct_functions(nodes, order, li, lj)
                } else {
                    lemma_distinct_functions(nodes, order, lj, li)
                };
                lemma_independent(nodes, order, li, pi, false, env0);
                lemma_independent(nodes, order, lj, pi, false, env0);
                assign(env0, pi, false)
            } else {
                let env0 = if ri < rj {
                    lemma_distinct_functions(nodes, order, ri, rj)
                } else {
                    lemma_distinct_functions(nodes, order, rj, ri)
                };
                lemma_independent(nodes, order, ri, pi, true, env0);
                lemma_independent(nodes, order, rj, pi, true, env0);
                assign(env0, pi, true)
            }
        } else if ai < aj {
            // Node `j` does not depend on `pi`, but node `i` does.
            let env0 = if li < ri {
                lemma_distinct_functions(nodes, order, li, ri)
            } else {
                lemma_distinct_functions(nodes, order, ri, li)
            };
            lemma_independent(nodes, order, li, pi, false, env0);
            lemma_independent(nodes, order, ri, pi, true, env0);
            lemma_independent(nodes, order, j, pi, false, env0);
            lemma_independent(nodes, order, j, pi, true, env0);
            let env_f = assign(env0, pi, false);
            let env_t = assign(env0, pi, true);
            if denote(nodes, i, env_f) != denote(nodes, j, env_f) {
                env_f
            } else {
                env_t
            }
        } else {
            // Node `i` does not depend on `pj`, but node `j` does.
            let env0 = if lj < rj {
                lemma_distinct_functions(nodes, order, lj, rj)
            } else {
                lemma_distinct_functions(nodes, order, rj, lj)
            };
            lemma_independent(nodes, order, lj, pj, false, env0);
            lemma_independent(nodes, order, rj, pj, true, env0);
            lemma_independent(nodes, order, i, pj, false, env0);
            lemma_independent(nodes, order, i, pj, true, env0);
            let env_f = assign(env0, pj, false);
            let env_t = assign(env0, pj, true);
            if denote(nodes, i, env_f) != denote(nodes, j, env_f) {
                env_f
            } else {
                env_t
            }
        }
    }
}

/// Two different nodes of a snapshot never denote the same function.
pub proof fn law_nodes_canonical(e: EngineV, k: int, i: nat, j: nat)
    requires
        engine_wf(e),
        0 <= k < e.history.len(),
        i < e.history[k].nodes.len(),
        j < e.history[k].nodes.len(),
        i != j,
    ensures
        !same_function(e.history[k].nodes, i, j),
{
    law_nodes_reduced(e, k);
    law_nodes_ordered(e, k);
    let nodes = e.history[k].nodes;
    let env = if i < j {
        lemma_distinct_functions(nodes, e.order, i, j)
    } else {
        lemma_distinct_functions(nodes, e.order, j, i)
    };
    assert(denote(nodes, i, env) != denote(nodes, j, env));
}

/// When the first call has its result `r`: `r` is 0 exactly when the input is
/// unsatisfiable, and 1 exactly when it is valid.
pub proof fn law_root_decides_input(e: EngineV, k: int)
    requires
        engine_wf(e),
        0 <= k < e.history.len(),
        e.history[k].stack.len() > 0,
        e.history[k].stack[0] matches FrameV::Obdd(f) && f.result is Some,
    ensures
        ({
            let r = e.history[k].stack[0]->Obdd_0.result.unwrap();
            &&& r == 0 <==> forall|env: spec_fn(Seq<char>) -> bool| !#[trigger] eval(e.input, env)
            &&& r == 1 <==> forall|env: spec_fn(Seq<char>) -> bool| #[trigger] eval(e.input, env)
        }),
{
    law_root_result_represents_input(e, k);
    law_nodes_reduced(e, k);
    law_nodes_ordered(e, k);
    let nodes = e.history[k].nodes;
    let r = e.history[k].stack[0]->Obdd_0.result.unwrap();
    if r >= 2 {
        let (et, ef) = lemma_inner_not_constant(nodes, e.order, r);
        assert(eval(e.input, et));
        assert(!eval(e.input, ef));
    } else if r == 0 {
        let any = |x: Seq<char>| true;
        assert(denote(nodes, r, any) == eval(e.input, any));
        assert forall|env: spec_fn(Seq<char>) -> bool| !#[trigger] eval(e.input, env) by {
            assert(denote(nodes, r, env) == eval(e.input, env));
        }
    } else {
        let any = |x: Seq<char>| true;
        assert(denote(nodes, r, any) == eval(e.input, any));
        assert forall|env: spec_fn(Seq<char>) -> bool| #[trigger] eval(e.input, env) by {
            assert(denote(nodes, r, env) == eval(e.input, env));
        }
    }
}

} // verus!
