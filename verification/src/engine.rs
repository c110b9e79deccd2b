//! The engine: builds the ordered binary decision diagram of a formula one
//! step at a time and keeps every snapshot, so that the construction can be
//! replayed forwards and backwards.
use crate::formula::{BinaryOp, Formula, UnaryOp, Variable};
use crate::wellformed::{engine_wf, lemma_initial_wf, lemma_step_forward_wf};
use crate::lexer::{LexState, Lexer};
use crate::model::{
    can_step, finished, initial_state, integrate_transition, next_state,
    obdd_transition, step_forward, step_ready, table_find, EngineV, EntryV, FrameV,
    IntegrateFrameV, NodeV, ObddFrameV, StateV,
};
use crate::parser::{parse_error_text, parse_formula, parse_spec};
use crate::rewrite::{lemma_walk_size, simplify_fix, subst, walk, walk_changes};
use vstd::prelude::*;

verus! {

/// A node of the diagram. Nodes 0 and 1 are the terminals (false and true).
#[derive(Debug)]
pub struct Node {
    pub id: usize,
    /// `None` for a terminal.
    pub var: Option<String>,
    /// The node for `var` false.
    pub left: Option<usize>,
    /// The node for `var` true.
    pub right: Option<usize>,
}

#[derive(Clone, Copy, Debug, PartialEq, Eq, Structural)]
pub enum ObddStep {
    Simplify,
    CheckBottom,
    CheckTop,
    ChooseVariable,
    RecurseLow,
    RecurseHigh,
    CallIntegrate,
    Return,
}

#[derive(Clone, Copy, Debug, PartialEq, Eq, Structural)]
pub enum IntegrateStep {
    CheckEqual,
    LookupNode,
    CreateNode,
    Return,
}

#[derive(Debug)]
pub struct IntegrateFrame {
    pub step: IntegrateStep,
    pub n1: usize,
    pub p: String,
    pub n2: usize,
    pub result: Option<usize>,
}

#[derive(Debug)]
pub struct ObddFrame {
    pub step: ObddStep,
    pub formula: Formula,
    pub p: Option<String>,
    pub var_index: usize,
    pub n1: Option<usize>,
    pub n2: Option<usize>,
    pub result: Option<usize>,
}

#[derive(Debug)]
pub enum ExecutionFrame {
    Obdd(ObddFrame),
    Integrate(IntegrateFrame),
}

/// An entry of the table of unique nodes: the test of `var` with children
/// `n1` (false) and `n2` (true) is node `node`.
#[derive(Debug)]
pub struct TableEntry {
    pub var: String,
    pub n1: usize,
    pub n2: usize,
    pub node: usize,
}

/// A snapshot of the engine.
#[derive(Debug)]
pub struct OBDDEngineState {
    pub step_number: u32,
    pub nodes: Vec<Node>,
    pub unique_table: Vec<TableEntry>,
    pub execution_stack: Vec<ExecutionFrame>,
    pub message: String,
}

pub struct OBDDEngine {
    input_formula: Formula,
    input_order: Vec<String>,
    curr_state: usize,
    state_history: Vec<OBDDEngineState>,
    final_result: Option<usize>,
}

pub open spec fn opt_nat(o: Option<usize>) -> Option<nat> {
    match o {
        Some(x) => Some(x as nat),
        None => None,
    }
}

pub open spec fn opt_text(o: Option<String>) -> Option<Seq<char>> {
    match o {
        Some(s) => Some(s@),
        None => None,
    }
}

impl View for Node {
    type V = NodeV;

    open spec fn view(&self) -> NodeV {
        NodeV {
            id: self.id as nat,
            var: opt_text(self.var),
            left: opt_nat(self.left),
            right: opt_nat(self.right),
        }
    }
}

impl View for IntegrateFrame {
    type V = IntegrateFrameV;

    open spec fn view(&self) -> IntegrateFrameV {
        IntegrateFrameV {
            step: self.step,
            n1: self.n1 as nat,
            p: self.p@,
            n2: self.n2 as nat,
            result: opt_nat(self.result),
        }
    }
}

impl View for ObddFrame {
    type V = ObddFrameV;

    open spec fn view(&self) -> ObddFrameV {
        ObddFrameV {
            step: self.step,
            formula: self.formula@,
            p: opt_text(self.p),
            var_index: self.var_index as nat,
            n1: opt_nat(self.n1),
            n2: opt_nat(self.n2),
            result: opt_nat(self.result),
        }
    }
}

impl View for ExecutionFrame {
    type V = FrameV;

    open spec fn view(&self) -> FrameV {
        match self {
            ExecutionFrame::Obdd(f) => FrameV::Obdd(f@),
            ExecutionFrame::Integrate(g) => FrameV::Integrate(g@),
        }
    }
}

impl View for TableEntry {
    type V = EntryV;

    open spec fn view(&self) -> EntryV {
        EntryV { var: self.var@, n1: self.n1 as nat, n2: self.n2 as nat, node: self.node as nat }
    }
}

pub open spec fn frames_view(v: Seq<ExecutionFrame>) -> Seq<FrameV> {
    v.map_values(|f: ExecutionFrame| f@)
}

pub open spec fn nodes_view(v: Seq<Node>) -> Seq<NodeV> {
    v.map_values(|n: Node| n@)
}

impl View for OBDDEngineState {
    type V = StateV;

    open spec fn view(&self) -> StateV {
        StateV {
            step_number: self.step_number as nat,
            nodes: nodes_view(self.nodes@),
            table: self.unique_table@.map_values(|e: TableEntry| e@),
            stack: frames_view(self.execution_stack@),
            message: self.message@,
        }
    }
}

impl View for OBDDEngine {
    type V = EngineV;

    closed spec fn view(&self) -> EngineV {
        EngineV {
            input: self.input_formula@,
            order: self.input_order@.map_values(|s: String| s@),
            current: self.curr_state as nat,
            history: self.state_history@.map_values(|s: OBDDEngineState| s@),
        }
    }
}

impl Clone for Node {
    fn clone(&self) -> (r: Self)
        ensures
            r == *self,
    {
        let var = match &self.var {
            Some(s) => Some(s.clone()),
            None => None,
        };
        Node { id: self.id, var, left: self.left, right: self.right }
    }
}

impl Clone for IntegrateFrame {
    fn clone(&self) -> (r: Self)
        ensures
            r == *self,
    {
        IntegrateFrame {
            step: self.step,
            n1: self.n1,
            p: self.p.clone(),
            n2: self.n2,
            result: self.result,
        }
    }
}

impl Clone for ObddFrame {
    fn clone(&self) -> (r: Self)
        ensures
            r == *self,
    {
        let p = match &self.p {
            Some(s) => Some(s.clone()),
            None => None,
        };
        ObddFrame {
            step: self.step,
            formula: self.formula.clone(),
            p,
            var_index: self.var_index,
            n1: self.n1,
            n2: self.n2,
            result: self.result,
        }
    }
}

impl Clone for ExecutionFrame {
    fn clone(&self) -> (r: Self)
        ensures
            r == *self,
    {
        match self {
            ExecutionFrame::Obdd(f) => ExecutionFrame::Obdd(f.clone()),
            ExecutionFrame::Integrate(g) => ExecutionFrame::Integrate(g.clone()),
        }
    }
}

impl Clone for TableEntry {
    fn clone(&self) -> (r: Self)
        ensures
            r == *self,
    {
        TableEntry { var: self.var.clone(), n1: self.n1, n2: self.n2, node: self.node }
    }
}

impl Clone for OBDDEngineState {
    fn clone(&self) -> (r: Self)
        ensures
            r@ == self@,
    {
        let nodes = self.nodes.clone();
        let unique_table = self.unique_table.clone();
        let execution_stack = self.execution_stack.clone();
        assert(nodes@ =~= self.nodes@);
        assert(unique_table@ =~= self.unique_table@);
        assert(execution_stack@ =~= self.execution_stack@);
        OBDDEngineState {
            step_number: self.step_number,
            nodes,
            unique_table,
            execution_stack,
            message: self.message.clone(),
        }
    }
}

impl OBDDEngineState {
    /// The model of a snapshot is made of its public fields.
    pub proof fn lemma_view_fields(&self)
        ensures
            self@.step_number == self.step_number as nat,
            self@.nodes.len() == self.nodes@.len(),
            forall|i: int| 0 <= i < self.nodes@.len() ==> #[trigger] self@.nodes[i] == self.nodes@[i]@,
            self@.stack.len() == self.execution_stack@.len(),
            forall|i: int|
                0 <= i < self.execution_stack@.len() ==> #[trigger] self@.stack[i]
                    == self.execution_stack@[i]@,
            self@.message == self.message@,
    {
    }
}

/// The top frame of `s`, as a construction call.
pub open spec fn top_obdd(s: StateV) -> ObddFrameV {
    match s.stack.last() {
        FrameV::Obdd(f) => f,
        FrameV::Integrate(_) => arbitrary(),
    }
}

/// The top frame of `s`, as an integration call.
pub open spec fn top_integrate(s: StateV) -> IntegrateFrameV {
    match s.stack.last() {
        FrameV::Integrate(g) => g,
        FrameV::Obdd(_) => arbitrary(),
    }
}

impl OBDDEngineState {
    /// Takes the top frame off the stack.
    fn pop_frame(&mut self) -> (f: ExecutionFrame)
        requires
            old(self)@.stack.len() > 0,
        ensures
            f@ == old(self)@.stack.last(),
            final(self)@ == (StateV { stack: old(self)@.stack.drop_last(), ..old(self)@ }),
    {
        let ghost before = self.execution_stack@;
        let f = self.execution_stack.pop().unwrap();
        assert(frames_view(self.execution_stack@) =~= frames_view(before).drop_last());
        f
    }

    /// Puts a frame on top of the stack.
    fn push_frame(&mut self, f: ExecutionFrame)
        ensures
            final(self)@ == (StateV { stack: old(self)@.stack.push(f@), ..old(self)@ }),
    {
        let ghost before = self.execution_stack@;
        self.execution_stack.push(f);
        assert(frames_view(self.execution_stack@) =~= frames_view(before).push(f@));
    }

    /// Takes the top frame off the stack, as a construction call.
    fn pop_obdd(&mut self) -> (f: ObddFrame)
        requires
            old(self)@.stack.len() > 0,
            old(self)@.stack.last() is Obdd,
        ensures
            f@ == top_obdd(old(self)@),
            final(self)@ == (StateV { stack: old(self)@.stack.drop_last(), ..old(self)@ }),
    {
        match self.pop_frame() {
            ExecutionFrame::Obdd(f) => f,
            ExecutionFrame::Integrate(_) => vstd::pervasive::unreached(),
        }
    }

    /// Takes the top frame off the stack, as an integration call.
    fn pop_integrate(&mut self) -> (g: IntegrateFrame)
        requires
            old(self)@.stack.len() > 0,
            old(self)@.stack.last() is Integrate,
        ensures
            g@ == top_integrate(old(self)@),
            final(self)@ == (StateV { stack: old(self)@.stack.drop_last(), ..old(self)@ }),
    {
        match self.pop_frame() {
            ExecutionFrame::Integrate(g) => g,
            ExecutionFrame::Obdd(_) => vstd::pervasive::unreached(),
        }
    }
}

fn is_top(f: &Formula) -> (b: bool)
    ensures
        b == (f@ is Top),
{
    match f {
        Formula::Atom(Variable::True) => true,
        _ => false,
    }
}

fn is_bottom(f: &Formula) -> (b: bool)
    ensures
        b == (f@ is Bottom),
{
    match f {
        Formula::Atom(Variable::False) => true,
        _ => false,
    }
}

impl OBDDEngine {
    /// The engine's invariant: its snapshots are the trace of the construction
    /// from the first one, and each of them is well formed.
    pub open spec fn wf(&self) -> bool {
        engine_wf(self@)
    }

    /// Parses `input` and sets up the construction of its diagram under the
    /// variable ordering `ordering`.
    pub fn new(input: &str, ordering: Vec<String>) -> (r: Result<Self, String>)
        ensures
            input@.len() == 0 ==> (r matches Err(e) && e@ == "Input should not be empty"@),
            input@.len() > 0 ==> ({
                let (res, _) = parse_spec(LexState { text: input@, pos: 0, pending: None }, 0);
                match (r, res) {
                    (Ok(eng), Ok(f)) => eng.wf() && eng@ == (EngineV {
                        input: f,
                        order: ordering@.map_values(|s: String| s@),
                        current: 0,
                        history: seq![initial_state(f)],
                    }),
                    (Err(msg), Err(e)) => msg@ == parse_error_text(e),
                    _ => false,
                }
            }),
    {
        if input.is_empty() {
            return Err(String::from_str("Input should not be empty"));
        }
        let mut lexer = Lexer::new(input)?;
        let ast = parse_formula(&mut lexer, 0)?;
        let false_node = Node { id: 0, var: None, left: None, right: None };
        let true_node = Node { id: 1, var: None, left: None, right: None };
        let mut nodes: Vec<Node> = Vec::new();
        nodes.push(false_node);
        nodes.push(true_node);
        let initial_frame = ExecutionFrame::Obdd(
            ObddFrame {
                step: ObddStep::Simplify,
                formula: ast.clone(),
                p: None,
                var_index: 0,
                n1: None,
                n2: None,
                result: None,
            },
        );
        let mut execution_stack: Vec<ExecutionFrame> = Vec::new();
        execution_stack.push(initial_frame);
        let first_state = OBDDEngineState {
            step_number: 0,
            nodes,
            unique_table: Vec::new(),
            execution_stack,
            message: String::from_str("Initialized engine with terminal nodes"),
        };
        let mut state_history: Vec<OBDDEngineState> = Vec::new();
        state_history.push(first_state);
        let engine = Self {
            input_formula: ast,
            input_order: ordering,
            curr_state: 0,
            state_history,
            final_result: None,
        };
        proof {
            assert(engine@.history =~= seq![initial_state(engine@.input)]) by {
                assert(first_state.nodes@.map_values(|n: Node| n@) =~= seq![
                    crate::model::terminal(0),
                    crate::model::terminal(1),
                ]);
                assert(frames_view(first_state.execution_stack@) =~= seq![
                    FrameV::Obdd(crate::model::root_frame(engine@.input)),
                ]);
                assert(first_state.unique_table@.map_values(|e: TableEntry| e@) =~= Seq::<
                    EntryV,
                >::empty());
            }
            lemma_initial_wf(engine@);
        }
        Ok(engine)
    }

    /// The snapshot shown.
    pub fn get_state(&self) -> (r: Result<OBDDEngineState, String>)
        requires
            self.wf(),
        ensures
            r matches Ok(s) && s@ == self@.history[self@.current as int],
    {
        if self.curr_state < self.state_history.len() {
            Ok(self.state_history[self.curr_state].clone())
        } else {
            Err(String::from_str("No state available"))
        }
    }

    /// Whether `step` can be taken: the answer to `can_step` for this engine.
    pub fn can_step(&self) -> (b: bool)
        requires
            self.wf(),
        ensures
            b == can_step(self@),
    {
        let n = self.state_history.len();
        if self.curr_state + 1 < n {
            return true;
        }
        let last = &self.state_history[n - 1];
        let k = last.execution_stack.len();
        if k == 0 {
            return true;
        }
        if last.step_number == u32::MAX {
            return false;
        }
        match &last.execution_stack[k - 1] {
            ExecutionFrame::Obdd(f) => {
                !(f.step == ObddStep::ChooseVariable) || f.var_index < self.input_order.len()
            },
            ExecutionFrame::Integrate(_) => true,
        }
    }

    /// Moves one snapshot forward, producing it if it is new; at the end of a
    /// finished construction nothing changes.
    pub fn step(&mut self) -> (r: Result<(), String>)
        requires
            old(self).wf(),
            can_step(old(self)@),
        ensures
            final(self).wf(),
            final(self)@ == step_forward(old(self)@),
            r is Ok,
    {
        let ghost e = self@;
        proof {
            lemma_step_forward_wf(e);
        }
        let n = self.state_history.len();
        if self.curr_state + 1 < n {
            self.curr_state += 1;
            assert(self@ == step_forward(e));
            return Ok(());
        }
        assert(self.state_history@[n - 1]@ == e.history.last());
        if self.state_history[n - 1].execution_stack.len() == 0 {
            assert(finished(e.history.last()));
            return Ok(());
        }
        match self.gen_next_state() {
            Ok(next_state) => {
                self.curr_state += 1;
                self.state_history.push(next_state);
                assert(self@.history =~= e.history.push(next_state@));
                assert(self@ == step_forward(e));
                Ok(())
            },
            Err(e) => {
                let mut msg = String::from_str("Failed to create new state: ");
                msg.append(e.as_str());
                Err(msg)
            },
        }
    }

    /// Moves one snapshot back; at the first one it fails.
    pub fn step_back(&mut self) -> (r: Result<(), String>)
        requires
            old(self).wf(),
        ensures
            final(self).wf(),
            old(self)@.current == 0 ==> (r matches Err(e) && e@ == "Already at initial state"@
                && final(self)@ == old(self)@),
            old(self)@.current > 0 ==> (r is Ok && final(self)@ == (EngineV {
                current: (old(self)@.current - 1) as nat,
                ..old(self)@
            })),
    {
        if self.curr_state == 0 {
            return Err(String::from_str("Already at initial state"));
        }
        self.curr_state -= 1;
        proof {
            crate::wellformed::lemma_move_wf(old(self)@, self@.current);
        }
        Ok(())
    }
}

impl OBDDEngine {
    /// The snapshot after the last one: one step of the call at the top of its
    /// stack, or an error where no call is left.
    fn gen_next_state(&self) -> (r: Result<OBDDEngineState, String>)
        requires
            self.state_history@.len() > 0,
            !finished(self@.history.last()) ==> step_ready(self@.order, self@.history.last()),
            self@.history.last().step_number < u32::MAX,
        ensures
            finished(self@.history.last()) ==> (r matches Err(e) && e@
                == "execution_stack is empty"@),
            !finished(self@.history.last()) ==> (r matches Ok(s) && s@ == next_state(
                self@.order,
                self@.history.last(),
            )),
    {
        let n = self.state_history.len();
        let last_state = &self.state_history[n - 1];
        assert(last_state@ == self@.history.last());
        let k = last_state.execution_stack.len();
        if k == 0 {
            return Err(String::from_str("execution_stack is empty"));
        }
        let mut next_state = last_state.clone();
        next_state.step_number += 1;
        let ghost s1 = next_state@;
        assert(s1.stack.last() == last_state.execution_stack@[k - 1]@);
        match &last_state.execution_stack[k - 1] {
            ExecutionFrame::Obdd(frame) => {
                match frame.step {
                    ObddStep::Simplify => self.simplify_step(&mut next_state),
                    ObddStep::CheckBottom => self.check_bottom(&mut next_state),
                    ObddStep::CheckTop => self.check_top(&mut next_state),
                    ObddStep::ChooseVariable => self.choose_variable(&mut next_state),
                    ObddStep::RecurseLow => self.recurse_var(&mut next_state, false),
                    ObddStep::RecurseHigh => self.recurse_var(&mut next_state, true),
                    ObddStep::CallIntegrate => self.call_integrate(&mut next_state),
                    ObddStep::Return => self.obdd_return(&mut next_state),
                }
            },
            ExecutionFrame::Integrate(frame) => {
                match frame.step {
                    IntegrateStep::CheckEqual => self.check_equal(&mut next_state),
                    IntegrateStep::LookupNode => self.lookup_node(&mut next_state),
                    IntegrateStep::CreateNode => self.create_node(&mut next_state),
                    IntegrateStep::Return => self.integrate_return(&mut next_state),
                }
            },
        }
        Ok(next_state)
    }

    fn simplify_step(&self, next_state: &mut OBDDEngineState)
        requires
            old(next_state)@.stack.len() > 0,
            old(next_state)@.stack.last() is Obdd,
            top_obdd(old(next_state)@).step is Simplify,
        ensures
            final(next_state)@ == obdd_transition(
                self@.order,
                old(next_state)@,
                top_obdd(old(next_state)@),
            ),
    {
        let mut frame = next_state.pop_obdd();
        frame.step = ObddStep::CheckBottom;
        let mut formula = frame.formula;
        let ghost original = formula@;
        loop
            invariant
                simplify_fix(formula@) == simplify_fix(original),
            ensures
                formula@ == simplify_fix(original),
            decreases crate::formula::size(formula@),
        {
            let mut changed = false;
            let ghost before = formula@;
            formula = self.simplify_walk(formula, &mut changed);
            proof {
                lemma_walk_size(before);
            }
            if !changed {
                assert(simplify_fix(before) == before);
                break ;
            }
        }
        frame.formula = formula;
        next_state.push_frame(ExecutionFrame::Obdd(frame));
    }

    /// One pass of simplification; `changed` is set when an identity applied.
    fn simplify_walk(&self, formula: Formula, changed: &mut bool) -> (r: Formula)
        ensures
            r@ == walk(formula@),
            *final(changed) == (*old(changed) || walk_changes(formula@)),
        decreases formula,
    {
        match formula {
            Formula::Atom(v) => Formula::Atom(v),
            Formula::Unary { op, expr } => {
                let e = *expr;
                if is_top(&e) {
                    *changed = true;
                    Formula::Atom(Variable::False)
                } else if is_bottom(&e) {
                    *changed = true;
                    Formula::Atom(Variable::True)
                } else {
                    let e2 = self.simplify_walk(e, changed);
                    Formula::Unary { op, expr: Box::new(e2) }
                }
            },
            Formula::Binary { op, left, right } => {
                let lhs = *left;
                let rhs = *right;
                let lt = is_top(&lhs);
                let lb = is_bottom(&lhs);
                let rt = is_top(&rhs);
                let rb = is_bottom(&rhs);
                match op {
                    BinaryOp::Or => {
                        if lt || rt {
                            *changed = true;
                            Formula::Atom(Variable::True)
                        } else if lb && rb {
                            *changed = true;
                            Formula::Atom(Variable::False)
                        } else if lb {
                            *changed = true;
                            rhs
                        } else if rb {
                            *changed = true;
                            lhs
                        } else {
                            let l2 = self.simplify_walk(lhs, changed);
                            let r2 = self.simplify_walk(rhs, changed);
                            Formula::Binary { op, left: Box::new(l2), right: Box::new(r2) }
                        }
                    },
                    BinaryOp::And => {
                        if lb || rb {
                            *changed = true;
                            Formula::Atom(Variable::False)
                        } else if lt && rt {
                            *changed = true;
                            Formula::Atom(Variable::True)
                        } else if lt {
                            *changed = true;
                            rhs
                        } else if rt {
                            *changed = true;
                            lhs
                        } else {
                            let l2 = self.simplify_walk(lhs, changed);
                            let r2 = self.simplify_walk(rhs, changed);
                            Formula::Binary { op, left: Box::new(l2), right: Box::new(r2) }
                        }
                    },
                    BinaryOp::Iff => {
                        if (lt && rt) || (lb && rb) {
                            *changed = true;
                            Formula::Atom(Variable::True)
                        } else if (lt && rb) || (lb && rt) {
                            *changed = true;
                            Formula::Atom(Variable::False)
                        } else if lt {
                            *changed = true;
                            rhs
                        } else if rt {
                            *changed = true;
                            lhs
                        } else if lb {
                            *changed = true;
                            Formula::Unary { op: UnaryOp::Not, expr: Box::new(rhs) }
                        } else if rb {
                            *changed = true;
                            Formula::Unary { op: UnaryOp::Not, expr: Box::new(lhs) }
                        } else {
                            let l2 = self.simplify_walk(lhs, changed);
                            let r2 = self.simplify_walk(rhs, changed);
                            Formula::Binary { op, left: Box::new(l2), right: Box::new(r2) }
                        }
                    },
                    BinaryOp::Implies => {
                        if lb || rt {
                            *changed = true;
                            Formula::Atom(Variable::True)
                        } else if lt {
                            *changed = true;
                            rhs
                        } else if rb {
                            *changed = true;
                            Formula::Unary { op: UnaryOp::Not, expr: Box::new(lhs) }
                        } else {
                            let l2 = self.simplify_walk(lhs, changed);
                            let r2 = self.simplify_walk(rhs, changed);
                            Formula::Binary { op, left: Box::new(l2), right: Box::new(r2) }
                        }
                    },
                }
            },
        }
    }

    /// `formula` with the constant `var_value` put for the variable `curr_var`.
    fn substitute_bool_ast_walk(&self, formula: Formula, curr_var: &String, var_value: bool) -> (r:
        Formula)
        ensures
            r@ == subst(formula@, curr_var@, var_value),
        decreases formula,
    {
        match formula {
            Formula::Atom(atom) => match atom {
                Variable::Variable(a) => {
                    if a.name == *curr_var {
                        if var_value {
                            Formula::Atom(Variable::True)
                        } else {
                            Formula::Atom(Variable::False)
                        }
                    } else {
                        Formula::Atom(Variable::Variable(a))
                    }
                },
                Variable::True => Formula::Atom(Variable::True),
                Variable::False => Formula::Atom(Variable::False),
            },
            Formula::Unary { op, expr } => {
                let e = self.substitute_bool_ast_walk(*expr, curr_var, var_value);
                Formula::Unary { op, expr: Box::new(e) }
            },
            Formula::Binary { op, left, right } => {
                let l = self.substitute_bool_ast_walk(*left, curr_var, var_value);
                let r = self.substitute_bool_ast_walk(*right, curr_var, var_value);
                Formula::Binary { op, left: Box::new(l), right: Box::new(r) }
            },
        }
    }

    fn check_top(&self, next_state: &mut OBDDEngineState)
        requires
            old(next_state)@.stack.len() > 0,
            old(next_state)@.stack.last() is Obdd,
            top_obdd(old(next_state)@).step is CheckTop,
        ensures
            final(next_state)@ == obdd_transition(
                self@.order,
                old(next_state)@,
                top_obdd(old(next_state)@),
            ),
    {
        let mut frame = next_state.pop_obdd();
        if is_top(&frame.formula) {
            frame.result = Some(1);
            frame.step = ObddStep::Return;
        } else {
            frame.step = ObddStep::ChooseVariable;
        }
        next_state.push_frame(ExecutionFrame::Obdd(frame));
    }

    fn check_bottom(&self, next_state: &mut OBDDEngineState)
        requires
            old(next_state)@.stack.len() > 0,
            old(next_state)@.stack.last() is Obdd,
            top_obdd(old(next_state)@).step is CheckBottom,
        ensures
            final(next_state)@ == obdd_transition(
                self@.order,
                old(next_state)@,
                top_obdd(old(next_state)@),
            ),
    {
        let mut frame = next_state.pop_obdd();
        if is_bottom(&frame.formula) {
            frame.result = Some(0);
            frame.step = ObddStep::Return;
        } else {
            frame.step = ObddStep::CheckTop;
        }
        next_state.push_frame(ExecutionFrame::Obdd(frame));
    }

    fn choose_variable(&self, next_state: &mut OBDDEngineState)
        requires
            old(next_state)@.stack.len() > 0,
            old(next_state)@.stack.last() is Obdd,
            top_obdd(old(next_state)@).step is ChooseVariable,
            top_obdd(old(next_state)@).var_index < self@.order.len(),
        ensures
            final(next_state)@ == obdd_transition(
                self@.order,
                old(next_state)@,
                top_obdd(old(next_state)@),
            ),
    {
        let mut frame = next_state.pop_obdd();
        let var = self.input_order[frame.var_index].clone();
        frame.p = Some(var);
        frame.step = ObddStep::RecurseLow;
        next_state.push_frame(ExecutionFrame::Obdd(frame));
    }

    fn recurse_var(&self, next_state: &mut OBDDEngineState, value: bool)
        requires
            old(next_state)@.stack.len() > 0,
            old(next_state)@.stack.last() is Obdd,
            value ==> top_obdd(old(next_state)@).step is RecurseHigh,
            !value ==> top_obdd(old(next_state)@).step is RecurseLow,
            top_obdd(old(next_state)@).p is Some,
            top_obdd(old(next_state)@).var_index < self@.order.len(),
        ensures
            final(next_state)@ == obdd_transition(
                self@.order,
                old(next_state)@,
                top_obdd(old(next_state)@),
            ),
    {
        let k = next_state.execution_stack.len();
        let order_len = self.input_order.len();
        let ghost f = top_obdd(next_state@);
        assert(next_state.execution_stack@[k - 1]@ == next_state@.stack.last());
        let (formula, var_index) = match &next_state.execution_stack[k - 1] {
            ExecutionFrame::Obdd(frame) => {
                assert(frame@ == f);
                assert(frame.var_index < order_len);
                let var = match &frame.p {
                    Some(v) => v,
                    None => vstd::pervasive::unreached(),
                };
                let formula = self.substitute_bool_ast_walk(frame.formula.clone(), var, value);
                (formula, frame.var_index)
            },
            ExecutionFrame::Integrate(_) => vstd::pervasive::unreached(),
        };
        let new_frame = ExecutionFrame::Obdd(
            ObddFrame {
                step: ObddStep::Simplify,
                formula,
                p: None,
                var_index: var_index + 1,
                n1: None,
                n2: None,
                result: None,
            },
        );
        next_state.push_frame(new_frame);
    }

    fn call_integrate(&self, next_state: &mut OBDDEngineState)
        requires
            old(next_state)@.stack.len() > 0,
            old(next_state)@.stack.last() is Obdd,
            top_obdd(old(next_state)@).step is CallIntegrate,
            top_obdd(old(next_state)@).p is Some,
            top_obdd(old(next_state)@).n1 is Some,
            top_obdd(old(next_state)@).n2 is Some,
        ensures
            final(next_state)@ == obdd_transition(
                self@.order,
                old(next_state)@,
                top_obdd(old(next_state)@),
            ),
    {
        let k = next_state.execution_stack.len();
        assert(next_state.execution_stack@[k - 1]@ == next_state@.stack.last());
        let new_frame = match &next_state.execution_stack[k - 1] {
            ExecutionFrame::Obdd(frame) => {
                let n1 = match frame.n1 {
                    Some(n1) => n1,
                    None => vstd::pervasive::unreached(),
                };
                let n2 = match frame.n2 {
                    Some(n2) => n2,
                    None => vstd::pervasive::unreached(),
                };
                let p = match &frame.p {
                    Some(p) => p.clone(),
                    None => vstd::pervasive::unreached(),
                };
                ExecutionFrame::Integrate(
                    IntegrateFrame { step: IntegrateStep::CheckEqual, n1, p, n2, result: None },
                )
            },
            ExecutionFrame::Integrate(_) => vstd::pervasive::unreached(),
        };
        next_state.push_frame(new_frame);
    }

    fn obdd_return(&self, state: &mut OBDDEngineState)
        requires
            old(state)@.stack.len() > 0,
            old(state)@.stack.last() is Obdd,
            top_obdd(old(state)@).step is Return,
            top_obdd(old(state)@).result is Some,
            old(state)@.stack.len() >= 2 ==> old(state)@.stack[old(state)@.stack.len() - 2] is Obdd,
        ensures
            final(state)@ == obdd_transition(self@.order, old(state)@, top_obdd(old(state)@)),
    {
        let finished = state.pop_obdd();
        let child_result: usize = match finished.result {
            Some(r) => r,
            None => vstd::pervasive::unreached(),
        };
        if state.execution_stack.len() > 0 {
            let mut parent = state.pop_obdd();
            if parent.n1.is_none() {
                parent.n1 = Some(child_result);
                parent.step = ObddStep::RecurseHigh;
            } else {
                parent.n2 = Some(child_result);
                parent.step = ObddStep::CallIntegrate;
            }
            state.push_frame(ExecutionFrame::Obdd(parent));
        }
    }

    fn check_equal(&self, next_state: &mut OBDDEngineState)
        requires
            old(next_state)@.stack.len() > 0,
            old(next_state)@.stack.last() is Integrate,
            top_integrate(old(next_state)@).step is CheckEqual,
        ensures
            final(next_state)@ == integrate_transition(
                old(next_state)@,
                top_integrate(old(next_state)@),
            ),
    {
        let mut frame = next_state.pop_integrate();
        if frame.n1 == frame.n2 {
            frame.result = Some(frame.n1);
            frame.step = IntegrateStep::Return;
        } else {
            frame.step = IntegrateStep::LookupNode;
        }
        next_state.push_frame(ExecutionFrame::Integrate(frame));
    }

    fn lookup_node(&self, next_state: &mut OBDDEngineState)
        requires
            old(next_state)@.stack.len() > 0,
            old(next_state)@.stack.last() is Integrate,
            top_integrate(old(next_state)@).step is LookupNode,
        ensures
            final(next_state)@ == integrate_transition(
                old(next_state)@,
                top_integrate(old(next_state)@),
            ),
    {
        let mut frame = next_state.pop_integrate();
        let found = find_entry(&next_state.unique_table, &frame.p, frame.n1, frame.n2);
        match found {
            Some(node) => {
                frame.step = IntegrateStep::Return;
                frame.result = Some(node);
            },
            None => {
                frame.step = IntegrateStep::CreateNode;
            },
        }
        next_state.push_frame(ExecutionFrame::Integrate(frame));
    }

    fn create_node(&self, next_state: &mut OBDDEngineState)
        requires
            old(next_state)@.stack.len() > 0,
            old(next_state)@.stack.last() is Integrate,
            top_integrate(old(next_state)@).step is CreateNode,
        ensures
            final(next_state)@ == integrate_transition(
                old(next_state)@,
                top_integrate(old(next_state)@),
            ),
    {
        let mut frame = next_state.pop_integrate();
        let new_index = next_state.nodes.len();
        let ghost nodes_before = next_state.nodes@;
        let ghost table_before = next_state.unique_table@;
        next_state.nodes.push(
            Node {
                id: new_index,
                var: Some(frame.p.clone()),
                left: Some(frame.n1),
                right: Some(frame.n2),
            },
        );
        next_state.unique_table.push(
            TableEntry { var: frame.p.clone(), n1: frame.n1, n2: frame.n2, node: new_index },
        );
        assert(nodes_view(next_state.nodes@) =~= nodes_view(nodes_before).push(
            next_state.nodes@.last()@,
        ));
        assert(next_state.unique_table@.map_values(|e: TableEntry| e@) =~= table_before.map_values(
            |e: TableEntry| e@,
        ).push(next_state.unique_table@.last()@));
        frame.result = Some(new_index);
        frame.step = IntegrateStep::Return;
        next_state.push_frame(ExecutionFrame::Integrate(frame));
    }

    fn integrate_return(&self, next_state: &mut OBDDEngineState)
        requires
            old(next_state)@.stack.len() >= 2,
            old(next_state)@.stack.last() is Integrate,
            old(next_state)@.stack[old(next_state)@.stack.len() - 2] is Obdd,
            top_integrate(old(next_state)@).step is Return,
            top_integrate(old(next_state)@).result is Some,
        ensures
            final(next_state)@ == integrate_transition(
                old(next_state)@,
                top_integrate(old(next_state)@),
            ),
    {
        let finished = next_state.pop_integrate();
        let child_result: usize = match finished.result {
            Some(r) => r,
            None => vstd::pervasive::unreached(),
        };
        let mut parent = next_state.pop_obdd();
        parent.result = Some(child_result);
        parent.step = ObddStep::Return;
        next_state.push_frame(ExecutionFrame::Obdd(parent));
    }
}

/// The node of the first entry of `table` with key `(p, n1, n2)`.
fn find_entry(table: &Vec<TableEntry>, p: &String, n1: usize, n2: usize) -> (r: Option<usize>)
    ensures
        opt_nat(r) == table_find(table@.map_values(|e: TableEntry| e@), p@, n1 as nat, n2 as nat),
{
    let ghost all = table@.map_values(|e: TableEntry| e@);
    let mut i: usize = 0;
    assert(all.skip(0) =~= all);
    while i < table.len()
        invariant
            i <= table@.len(),
            all == table@.map_values(|e: TableEntry| e@),
            table_find(all, p@, n1 as nat, n2 as nat) == table_find(
                all.skip(i as int),
                p@,
                n1 as nat,
                n2 as nat,
            ),
        decreases table@.len() - i,
    {
        let e = &table[i];
        assert(all.skip(i as int)[0] == e@);
        assert(all.skip(i as int).drop_first() =~= all.skip(i + 1));
        if e.var == *p && e.n1 == n1 && e.n2 == n2 {
            return Some(e.node);
        }
        i += 1;
    }
    assert(all.skip(i as int).len() == 0);
    None
}

} // verus!
