use obdd_engine::engine::{ExecutionFrame, Node, OBDDEngine, ObddStep};

#[test]
fn trace_engine_states() {
    let input = "a & b | c";
    let ordering = vec!["a".to_string(), "b".to_string(), "c".to_string()];

    let mut engine = OBDDEngine::new(input, ordering).unwrap();

    for step in 0..200 {
        match engine.step() {
            Ok(_) => {
                let state = engine.get_state();
                println!("step {} -> state: {:?}", step, state);
            }
            Err(e) => {
                println!("ERROR at step {}", step);
                println!("reason: {}", e);

                let state = engine.get_state();
                println!("last state: {:?}", state);

                panic!("stopped");
            }
        }
    }
}

fn names(v: &[&str]) -> Vec<String> {
    v.iter().map(|s| s.to_string()).collect()
}

/// Runs the construction to its end; returns the node that the first call
/// returned and the final nodes.
fn run_to_end(input: &str, ordering: &[&str]) -> (usize, Vec<Node>, u32) {
    let mut engine = OBDDEngine::new(input, names(ordering)).unwrap();
    let mut root = None;
    loop {
        let state = engine.get_state().unwrap();
        if state.execution_stack.is_empty() {
            return (root.unwrap(), state.nodes, state.step_number);
        }
        if state.execution_stack.len() == 1 {
            if let ExecutionFrame::Obdd(f) = &state.execution_stack[0] {
                if f.result.is_some() {
                    root = f.result;
                }
            }
        }
        assert!(engine.can_step());
        engine.step().unwrap();
    }
}

fn denote(nodes: &[Node], i: usize, env: &dyn Fn(&str) -> bool) -> bool {
    match i {
        0 => false,
        1 => true,
        _ => {
            let n = &nodes[i];
            if env(n.var.as_deref().unwrap()) {
                denote(nodes, n.right.unwrap(), env)
            } else {
                denote(nodes, n.left.unwrap(), env)
            }
        }
    }
}

#[test]
fn diagram_of_and_or() {
    let (root, nodes, steps) = run_to_end("a & b | c", &["a", "b", "c"]);
    assert_eq!(steps, 93);
    assert_eq!(nodes.len(), 5);
    assert_eq!(root, 4);
    let expect = [("c", 0, 1), ("b", 2, 1), ("a", 2, 3)];
    for (k, (v, l, r)) in expect.iter().enumerate() {
        let n = &nodes[k + 2];
        assert_eq!(n.id, k + 2);
        assert_eq!(n.var.as_deref(), Some(*v));
        assert_eq!(n.left, Some(*l));
        assert_eq!(n.right, Some(*r));
    }
    assert!(nodes[0].var.is_none() && nodes[1].var.is_none());
}

#[test]
fn diagram_denotes_the_formula() {
    let (root, nodes, _) = run_to_end("(a <-> b) -> ~c", &["a", "b", "c"]);
    for bits in 0..8u32 {
        let env = |v: &str| match v {
            "a" => bits & 1 != 0,
            "b" => bits & 2 != 0,
            _ => bits & 4 != 0,
        };
        let (a, b, c) = (env("a"), env("b"), env("c"));
        assert_eq!(denote(&nodes, root, &env), !(a == b) || !c);
    }
}

#[test]
fn diagram_is_reduced() {
    let (_, nodes, _) = run_to_end("(a & b) | (a & c) | (b & c)", &["a", "b", "c"]);
    for i in 2..nodes.len() {
        assert_ne!(nodes[i].left, nodes[i].right);
        assert!(nodes[i].left.unwrap() < i && nodes[i].right.unwrap() < i);
        for j in 2..i {
            assert!(
                nodes[i].var != nodes[j].var
                    || nodes[i].left != nodes[j].left
                    || nodes[i].right != nodes[j].right
            );
        }
    }
}

#[test]
fn tautology_is_the_true_terminal() {
    let (root, nodes, _) = run_to_end("a | ~a", &["a"]);
    assert_eq!(root, 1);
    assert_eq!(nodes.len(), 2);
    let (root, _, steps) = run_to_end("T & F", &[]);
    assert_eq!(root, 0);
    assert_eq!(steps, 3);
}

#[test]
fn simplify_then_checks() {
    let mut engine = OBDDEngine::new("a -> F", names(&["a"])).unwrap();
    engine.step().unwrap();
    let state = engine.get_state().unwrap();
    assert_eq!(state.step_number, 1);
    match &state.execution_stack[0] {
        ExecutionFrame::Obdd(f) => {
            assert!(matches!(f.step, ObddStep::CheckBottom));
            assert_eq!(f.formula.to_string(), "¬a");
        }
        _ => panic!("Expected a construction frame"),
    }
}

#[test]
fn first_state() {
    let engine = OBDDEngine::new("a", names(&["a"])).unwrap();
    let state = engine.get_state().unwrap();
    assert_eq!(state.step_number, 0);
    assert_eq!(state.message, "Initialized engine with terminal nodes");
    assert_eq!(state.nodes.len(), 2);
    assert_eq!(state.execution_stack.len(), 1);
}

#[test]
fn step_back_at_start_fails() {
    let mut engine = OBDDEngine::new("a", names(&["a"])).unwrap();
    assert_eq!(engine.step_back().unwrap_err(), "Already at initial state");
}

#[test]
fn back_then_forward_returns() {
    let mut engine = OBDDEngine::new("a & b", names(&["a", "b"])).unwrap();
    for _ in 0..10 {
        engine.step().unwrap();
    }
    let before = format!("{:?}", engine.get_state().unwrap());
    engine.step_back().unwrap();
    engine.step_back().unwrap();
    assert_eq!(engine.get_state().unwrap().step_number, 8);
    engine.step().unwrap();
    engine.step().unwrap();
    assert_eq!(format!("{:?}", engine.get_state().unwrap()), before);
}

#[test]
fn finished_construction_stays() {
    let mut engine = OBDDEngine::new("T", names(&[])).unwrap();
    for _ in 0..5 {
        engine.step().unwrap();
    }
    let state = engine.get_state().unwrap();
    assert!(state.execution_stack.is_empty());
    assert_eq!(state.step_number, 4);
}

#[test]
fn missing_variable_in_ordering_blocks_the_step() {
    let mut engine = OBDDEngine::new("a & b", names(&["a"])).unwrap();
    let mut steps = 0;
    while engine.can_step() {
        engine.step().unwrap();
        steps += 1;
        assert!(steps < 1000);
    }
    let state = engine.get_state().unwrap();
    match state.execution_stack.last().unwrap() {
        ExecutionFrame::Obdd(f) => {
            assert!(matches!(f.step, ObddStep::ChooseVariable));
            assert_eq!(f.var_index, 1);
        }
        _ => panic!("Expected a construction frame"),
    }
}

#[test]
fn new_reports_errors() {
    assert_eq!(
        OBDDEngine::new("", names(&["a"])).err().unwrap(),
        "Input should not be empty"
    );
    assert_eq!(
        OBDDEngine::new("a &", names(&["a"])).err().unwrap(),
        "Unexpected end of input"
    );
    assert_eq!(OBDDEngine::new("a -", names(&["a"])).err().unwrap(), "Expected ->");
}

#[test]
fn diagram_is_ordered() {
    let order = ["c", "a", "b"];
    let (_, nodes, _) = run_to_end("(a | b) & (~c -> a)", &order);
    let pos = |v: &Option<String>| order.iter().position(|o| Some(o.to_string()) == *v).unwrap();
    for i in 2..nodes.len() {
        for child in [nodes[i].left.unwrap(), nodes[i].right.unwrap()] {
            if child >= 2 {
                assert!(pos(&nodes[child].var) > pos(&nodes[i].var));
            }
        }
    }
}

#[test]
fn replay_is_deterministic() {
    let mut first = OBDDEngine::new("a <-> (b | ~a)", names(&["a", "b"])).unwrap();
    let mut second = OBDDEngine::new("a <-> (b | ~a)", names(&["a", "b"])).unwrap();
    for _ in 0..40 {
        first.step().unwrap();
    }
    for _ in 0..40 {
        second.step().unwrap();
        second.step_back().unwrap();
        second.step().unwrap();
    }
    assert_eq!(
        format!("{:?}", first.get_state().unwrap()),
        format!("{:?}", second.get_state().unwrap())
    );
}

#[test]
fn construction_stays_within_its_bound() {
    // At most 12 + 2 * (12 + 2 * (12 + 2 * 12)) = 180 steps for three variables.
    let (_, _, steps) = run_to_end("(a <-> b) <-> (c <-> a)", &["a", "b", "c"]);
    assert!(steps <= 180);
    let (_, _, steps) = run_to_end("x", &["x"]);
    assert!(steps <= 12 + 2 * 12);
}

#[test]
fn valid_formulas_load() {
    for text in ["a", "(a & b) -> c", "~T | F", "x <-> ~y"] {
        assert!(obdd_engine::validate_formula(text));
        assert!(OBDDEngine::new(text, names(&["a"])).is_ok());
    }
}

#[test]
fn unsatisfiable_and_valid_formulas_give_terminals() {
    let (root, _, _) = run_to_end("a & ~a", &["a"]);
    assert_eq!(root, 0);
    let (root, _, _) = run_to_end("(a -> b) | (b -> a)", &["a", "b"]);
    assert_eq!(root, 1);
    let (root, _, _) = run_to_end("(a -> b) & a", &["a", "b"]);
    assert!(root >= 2);
}

#[test]
fn repeated_names_in_the_ordering() {
    // A name that the ordering repeats is placed by its first occurrence.
    let (root, _, _) = run_to_end("(a -> b) | (b -> a)", &["a", "b", "a"]);
    assert_eq!(root, 1);
    let (root, _, _) = run_to_end("a & ~a", &["a", "a"]);
    assert_eq!(root, 0);
    let order = ["c", "a", "c", "b", "a"];
    let input = "(a | b) & (~c -> a)";
    let (root, nodes, _) = run_to_end(input, &order);
    let (root_plain, nodes_plain, _) = run_to_end(input, &["c", "a", "b"]);
    assert_eq!(nodes.len(), nodes_plain.len());
    assert_eq!(root, root_plain);
    let pos = |v: &Option<String>| order.iter().position(|o| Some(o.to_string()) == *v).unwrap();
    for i in 2..nodes.len() {
        for child in [nodes[i].left.unwrap(), nodes[i].right.unwrap()] {
            if child >= 2 {
                assert!(pos(&nodes[child].var) > pos(&nodes[i].var));
            }
        }
    }
    for bits in 0..8u32 {
        let env = |v: &str| match v {
            "a" => bits & 1 != 0,
            "b" => bits & 2 != 0,
            _ => bits & 4 != 0,
        };
        let expected = (env("a") || env("b")) && (env("c") || env("a"));
        assert_eq!(denote(&nodes, root, &env), expected);
    }
}
