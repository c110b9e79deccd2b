//! The properties that the library promises of the engine as a whole.
use crate::formula::{eval, occurs, Prop};
use crate::lexer::{
    is_name_char, is_white_space, name_end, scan, skip_white, LexError, LexState, Tok,
};
use crate::parser::{
    atom_of, infix_bp, lemma_parse_advances, parse_in, parse_loop, parse_spec, tok_op,
};
use crate::model::{
    can_step, denote, finished, initial_state, next_state, step_forward, transition_defined,
    EngineV, FrameV,
};
use crate::rewrite::lemma_closed_stable_is_constant;
use crate::wellformed::{
    engine_wf, first_index, follows, frame_ok, linked, nodes_ordered, nodes_wf, represents,
    root_ok, state_wf,
};
use crate::engine::OBDDEngineState;
use vstd::prelude::*;

verus! {

/// The snapshots are the trace of the construction: the first is the initial
/// snapshot of the input, and each further one is the step from the one before.
/// Replaying the construction gives the same snapshots.
pub proof fn law_history_is_trace(e: EngineV)
    requires
        engine_wf(e),
    ensures
        e.history[0] == initial_state(e.input),
        forall|i: int|
            0 < i < e.history.len() ==> #[trigger] e.history[i] == next_state(
                e.order,
                e.history[i - 1],
            ),
        forall|i: int| 0 <= i < e.history.len() ==> (#[trigger] e.history[i]).step_number == i,
{
    assert forall|i: int| 0 < i < e.history.len() implies #[trigger] e.history[i] == next_state(
        e.order,
        e.history[i - 1],
    ) by {
        assert(follows(e.order, e.history[i - 1], e.history[i]));
        reveal(follows);
    }
}

/// In every snapshot the nodes form a reduced diagram: the terminals 0 and 1
/// come first, every other node tests a variable and has two different
/// children that come before it, and no two nodes test the same variable with
/// the same children.
pub proof fn law_nodes_reduced(e: EngineV, i: int)
    requires
        engine_wf(e),
        0 <= i < e.history.len(),
    ensures
        nodes_wf(e.history[i].nodes),
{
    assert(state_wf(e.order, e.input, e.history[i]));
    reveal(state_wf);
}

/// The diagram is ordered in every snapshot: every test names a variable of
/// the ordering, and its children test only variables whose first occurrence
/// in the ordering comes after that of its own variable.
pub proof fn law_nodes_ordered(e: EngineV, i: int)
    requires
        engine_wf(e),
        0 <= i < e.history.len(),
    ensures
        nodes_ordered(e.history[i].nodes, e.order),
{
    assert(state_wf(e.order, e.input, e.history[i]));
    reveal(state_wf);
}

/// Whenever the first call, on the input formula, has its result, that node
/// denotes the input: under every assignment it evaluates as the input does.
pub proof fn law_root_result_represents_input(e: EngineV, i: int)
    requires
        engine_wf(e),
        0 <= i < e.history.len(),
        e.history[i].stack.len() > 0,
        e.history[i].stack[0] matches FrameV::Obdd(f) && f.result is Some,
    ensures
        ({
            let r = e.history[i].stack[0]->Obdd_0.result.unwrap();
            &&& r < e.history[i].nodes.len()
            &&& forall|env: spec_fn(Seq<char>) -> bool| #[trigger]
                denote(e.history[i].nodes, r, env) == eval(e.input, env)
        }),
{
    let s = e.history[i];
    assert(state_wf(e.order, e.input, s));
    reveal(state_wf);
    assert(frame_ok(e.order, e.input, s.nodes, s.table, s.stack[0]));
    assert(root_ok(e.input, s.stack[0]));
    let f = s.stack[0]->Obdd_0;
    let r = f.result.unwrap();
    assert forall|env: spec_fn(Seq<char>) -> bool| #[trigger]
        denote(s.nodes, r, env) == eval(e.input, env) by {
        assert(represents(s.nodes, r, f.formula));
        assert(denote(s.nodes, r, env) == eval(f.formula, env));
    }
}

/// When the construction has finished, the snapshot before the last step held
/// the first call alone, returning a node; in the final diagram that node
/// denotes the input formula.
pub proof fn law_finished_diagram_represents_input(e: EngineV, i: int)
    requires
        engine_wf(e),
        0 <= i < e.history.len(),
        finished(e.history[i]),
    ensures
        i > 0,
        e.history[i - 1].stack.len() == 1,
        e.history[i - 1].stack[0] matches FrameV::Obdd(f) && f.step is Return && f.result is Some,
        ({
            let r = e.history[i - 1].stack[0]->Obdd_0.result.unwrap();
            &&& r < e.history[i].nodes.len()
            &&& forall|env: spec_fn(Seq<char>) -> bool| #[trigger]
                denote(e.history[i].nodes, r, env) == eval(e.input, env)
        }),
{
    assert(i > 0) by {
        if i == 0 {
            assert(e.history[0].stack.len() == 1);
        }
    }
    let a = e.history[i - 1];
    let b = e.history[i];
    assert(follows(e.order, a, b));
    reveal(follows);
    assert(state_wf(e.order, e.input, a));
    reveal(state_wf);
    let n = a.stack.len();
    assert(frame_ok(e.order, e.input, a.nodes, a.table, a.stack[n - 1]));
    if n >= 2 {
        assert(linked(e.order, a.nodes, a.stack[n - 2], a.stack[n - 1]));
    }
    assert(n == 1);
    assert(a.stack[0] is Obdd);
    assert(b.nodes == a.nodes);
    law_root_result_represents_input(e, i - 1);
}

/// Stepping back and then forward returns to the same engine.
pub proof fn law_back_then_forward(e: EngineV)
    requires
        engine_wf(e),
        e.current > 0,
    ensures
        step_forward(EngineV { current: (e.current - 1) as nat, ..e }) == e,
{
}

/// Stepping forward and then back shows the same snapshot again; the
/// snapshots already produced never change.
pub proof fn law_forward_then_back(e: EngineV)
    requires
        engine_wf(e),
        !(e.current + 1 == e.history.len() && finished(e.history.last())),
    ensures
        ({
            let e2 = step_forward(e);
            &&& e2.current == e.current + 1
            &&& e2.history.take(e.history.len() as int) == e.history
            &&& EngineV { current: (e2.current - 1) as nat, ..e2 }.history[e.current as int]
                == e.history[e.current as int]
        }),
{
    let e2 = step_forward(e);
    assert(e2.history.take(e.history.len() as int) =~= e.history);
}

/// When every variable of the input is in the ordering, the construction never
/// runs out of variables: the step from every unfinished snapshot is defined.
pub proof fn law_covering_order_never_stuck(e: EngineV, i: int)
    requires
        engine_wf(e),
        0 <= i < e.history.len(),
        forall|q: Seq<char>| occurs(e.input, q) ==> e.order.contains(q),
        !finished(e.history[i]),
    ensures
        transition_defined(e.order, e.history[i]),
{
    let s = e.history[i];
    assert(state_wf(e.order, e.input, s));
    reveal(state_wf);
    let n = s.stack.len();
    assert(frame_ok(e.order, e.input, s.nodes, s.table, s.stack[n - 1]));
    if let FrameV::Obdd(f) = s.stack[n - 1] {
        if f.step is ChooseVariable && f.var_index >= e.order.len() {
            assert(f.var_index == e.order.len());
            assert(e.order.take(f.var_index as int) =~= e.order);
            assert forall|q: Seq<char>| !occurs(f.formula, q) by {
                if occurs(f.formula, q) {
                    assert(occurs(e.input, q));
                }
            }
            lemma_closed_stable_is_constant(f.formula);
        }
    }
}

/// With an ordering that covers the input, the engine can always take a step,
/// as long as the snapshot numbers fit in a `u32`.
pub proof fn law_covering_order_can_step(e: EngineV)
    requires
        engine_wf(e),
        forall|q: Seq<char>| occurs(e.input, q) ==> e.order.contains(q),
        e.history.len() <= u32::MAX,
    ensures
        can_step(e),
{
    let i = e.history.len() - 1;
    assert(state_wf(e.order, e.input, e.history[i]));
    if !finished(e.history[i]) {
        law_covering_order_never_stuck(e, i);
    }
}

/// The characters of a binary operator.
pub open spec fn op_chars(t: Tok) -> Seq<char> {
    match t {
        Tok::And => seq!['&'],
        Tok::Or => seq!['|'],
        Tok::Implies => seq!['-', '>'],
        _ => seq!['<', '-', '>'],
    }
}

pub open spec fn is_binary_op(t: Tok) -> bool {
    t is And || t is Or || t is Implies || t is Iff
}

/// A name: at least one character, all of them name characters.
pub open spec fn is_name(a: Seq<char>) -> bool {
    a.len() > 0 && forall|j: int| 0 <= j < a.len() ==> is_name_char(#[trigger] a[j])
}

/// The text `a o1 b o2 c`, with single spaces between its parts.
pub open spec fn infix_text(a: Seq<char>, o1: Tok, b: Seq<char>, o2: Tok, c: Seq<char>) -> Seq<char> {
    a + seq![' '] + op_chars(o1) + seq![' '] + b + seq![' '] + op_chars(o2) + seq![' '] + c
}

proof fn lemma_name_end_at(s: Seq<char>, i: int, e: int)
    requires
        0 <= i <= e <= s.len(),
        forall|j: int| i <= j < e ==> is_name_char(#[trigger] s[j]),
        e < s.len() ==> !is_name_char(s[e]),
    ensures
        name_end(s, i) == e,
    decreases e - i,
{
    if i < e {
        lemma_name_end_at(s, i + 1, e);
    }
}

/// White space from `i` up to `k`, and none at `k`: reading skips to `k`.
proof fn lemma_skip_white_to(s: Seq<char>, i: int, k: int)
    requires
        0 <= i <= k <= s.len(),
        forall|j: int| i <= j < k ==> is_white_space(#[trigger] s[j]),
        k < s.len() ==> !is_white_space(s[k]),
    ensures
        skip_white(s, i) == k,
    decreases k - i,
{
    if i < k {
        lemma_skip_white_to(s, i + 1, k);
    }
}

/// A token is read the same wherever the white space before it starts, and
/// by its own characters alone: `~` or `!` is a negation, `&`, `|`, `(` and
/// `)` stand for themselves, `->` is an implication and `<->` an
/// equivalence, whatever stands before them; a `-` or `<` that does not
/// begin one of those is an error.
pub proof fn law_scan_reads_operators(s: Seq<char>, i: int, k: int)
    requires
        0 <= i <= k < s.len(),
        forall|j: int| i <= j < k ==> is_white_space(#[trigger] s[j]),
        !is_white_space(s[k]),
    ensures
        scan(s, i) == scan(s, k),
        s[k] == '~' || s[k] == '!' ==> scan(s, i) == (Ok::<Option<Tok>, LexError>(Some(Tok::Not)), k + 1),
        s[k] == '&' ==> scan(s, i) == (Ok::<Option<Tok>, LexError>(Some(Tok::And)), k + 1),
        s[k] == '|' ==> scan(s, i) == (Ok::<Option<Tok>, LexError>(Some(Tok::Or)), k + 1),
        s[k] == '(' ==> scan(s, i) == (Ok::<Option<Tok>, LexError>(Some(Tok::LParen)), k + 1),
        s[k] == ')' ==> scan(s, i) == (Ok::<Option<Tok>, LexError>(Some(Tok::RParen)), k + 1),
        s[k] == '-' && k + 1 < s.len() && s[k + 1] == '>' ==> scan(s, i) == (Ok::<
            Option<Tok>,
            LexError,
        >(Some(Tok::Implies)), k + 2),
        s[k] == '<' && k + 2 < s.len() && s[k + 1] == '-' && s[k + 2] == '>' ==> scan(s, i) == (
        Ok::<Option<Tok>, LexError>(Some(Tok::Iff)), k + 3),
        s[k] == '-' && !(k + 1 < s.len() && s[k + 1] == '>') ==> scan(s, i).0 == Err::<
            Option<Tok>,
            LexError,
        >(LexError::ExpectedImplies),
        s[k] == '<' && !(k + 2 < s.len() && s[k + 1] == '-' && s[k + 2] == '>') ==> scan(s, i).0
            == Err::<Option<Tok>, LexError>(LexError::ExpectedIff),
{
    lemma_skip_white_to(s, i, k);
    lemma_skip_white_to(s, k, k);
}

/// A name is read whole, wherever the white space before it starts: the
/// name characters from `k` up to `e`, where the next character is not one
/// of them or the text ends.
pub proof fn law_scan_reads_names(s: Seq<char>, i: int, k: int, e: int)
    requires
        0 <= i <= k < e <= s.len(),
        forall|j: int| i <= j < k ==> is_white_space(#[trigger] s[j]),
        forall|j: int| k <= j < e ==> is_name_char(#[trigger] s[j]),
        e < s.len() ==> !is_name_char(s[e]),
    ensures
        scan(s, i) == (Ok::<Option<Tok>, LexError>(Some(Tok::Ident(s.subrange(k, e)))), e),
{
    assert(is_name_char(s[k]));
    lemma_skip_white_to(s, i, k);
    lemma_name_end_at(s, k, e);
}

/// Only white space from `i` on: reading finds the end of the text.
pub proof fn law_scan_reads_end(s: Seq<char>, i: int)
    requires
        0 <= i <= s.len(),
        forall|j: int| i <= j < s.len() ==> is_white_space(#[trigger] s[j]),
    ensures
        scan(s, i) == (Ok::<Option<Tok>, LexError>(None), s.len() as int),
{
    lemma_skip_white_to(s, i, s.len() as int);
}

/// Reading at the start of a name followed by a space or the end gives the name.
proof fn lemma_scan_name(s: Seq<char>, i: int, a: Seq<char>)
    requires
        0 <= i,
        i + a.len() <= s.len(),
        is_name(a),
        s.subrange(i, i + a.len()) == a,
        i + a.len() < s.len() ==> s[i + a.len()] == ' ',
    ensures
        scan(s, i) == (Ok::<Option<Tok>, crate::lexer::LexError>(Some(Tok::Ident(a))), i + a.len()),
{
    assert(s[i] == a[0]);
    assert(is_name_char(a[0]));
    assert(skip_white(s, i) == i);
    assert forall|j: int| i <= j < i + a.len() implies is_name_char(#[trigger] s[j]) by {
        assert(s[j] == a[j - i]);
    }
    assert(!is_name_char(' '));
    lemma_name_end_at(s, i, i + a.len());
    assert(s.subrange(i, i + a.len()) == a);
}

/// Reading at a space followed by an operator gives the operator.
proof fn lemma_scan_op(s: Seq<char>, i: int, t: Tok)
    requires
        0 <= i,
        is_binary_op(t),
        i + 1 + op_chars(t).len() <= s.len(),
        s[i] == ' ',
        s.subrange(i + 1, i + 1 + op_chars(t).len()) == op_chars(t),
    ensures
        scan(s, i) == (Ok::<Option<Tok>, crate::lexer::LexError>(Some(t)), i + 1
            + op_chars(t).len()),
{
    let o = op_chars(t);
    assert forall|j: int| 0 <= j < o.len() implies s[i + 1 + j] == o[j] by {
        assert(s.subrange(i + 1, i + 1 + o.len())[j] == s[i + 1 + j]);
    }
    assert(is_white_space(' '));
    assert(s[i + 1] == o[0]);
    match t {
        Tok::And => {
            assert(!is_white_space('&'));
        },
        Tok::Or => {
            assert(!is_white_space('|'));
        },
        Tok::Implies => {
            assert(!is_white_space('-'));
            assert(s[i + 2] == o[1]);
        },
        _ => {
            assert(!is_white_space('<'));
            assert(s[i + 2] == o[1]);
            assert(s[i + 3] == o[2]);
        },
    }
    assert(skip_white(s, i + 1) == i + 1);
    assert(skip_white(s, i) == i + 1);
}

/// Binary operators group by binding power (`&` over `|` over `->` over
/// `<->`) and associate to the left: `a o1 b o2 c` parses as `(a o1 b) o2 c`,
/// unless `o2` binds more tightly than `o1`, when it parses as `a o1 (b o2 c)`.
#[verifier::rlimit(60)]
#[verifier::spinoff_prover]
pub proof fn law_infix_grouping(a: Seq<char>, o1: Tok, b: Seq<char>, o2: Tok, c: Seq<char>)
    requires
        is_name(a),
        is_name(b),
        is_name(c),
        is_binary_op(o1),
        is_binary_op(o2),
    ensures
        ({
            let st0 = LexState { text: infix_text(a, o1, b, o2, c), pos: 0, pending: None };
            let (x, y, z) = (atom_of(a), atom_of(b), atom_of(c));
            parse_spec(st0, 0).0 == Ok::<Prop, crate::parser::ParseError>(
                if infix_bp(o2).unwrap().0 <= infix_bp(o1).unwrap().0 {
                    Prop::Bin(
                        tok_op(o2),
                        Box::new(Prop::Bin(tok_op(o1), Box::new(x), Box::new(y))),
                        Box::new(z),
                    )
                } else {
                    Prop::Bin(
                        tok_op(o1),
                        Box::new(x),
                        Box::new(Prop::Bin(tok_op(o2), Box::new(y), Box::new(z))),
                    )
                },
            )
        }),
{
    let s = infix_text(a, o1, b, o2, c);
    let (x, y, z) = (atom_of(a), atom_of(b), atom_of(c));
    let la = a.len() as int;
    let e1 = la + 1 + op_chars(o1).len();
    let eb = e1 + 1 + b.len();
    let e2 = eb + 1 + op_chars(o2).len();
    let n = s.len() as int;
    assert(n == e2 + 1 + c.len());
    // The tokens, where they are.
    assert(s.subrange(0, la) =~= a);
    assert(s[la] == ' ');
    lemma_scan_name(s, 0, a);
    assert(s.subrange(la + 1, e1) =~= op_chars(o1));
    lemma_scan_op(s, la, o1);
    assert(s[e1] == ' ');
    assert(s.subrange(e1 + 1, eb) =~= b);
    assert(s[eb] == ' ');
    lemma_scan_name(s, e1 + 1, b);
    assert(skip_white(s, e1) == e1 + 1) by {
        assert(s[e1 + 1] == b[0]);
    }
    assert(s.subrange(eb + 1, e2) =~= op_chars(o2));
    lemma_scan_op(s, eb, o2);
    assert(s[e2] == ' ');
    assert(s.subrange(e2 + 1, n) =~= c);
    lemma_scan_name(s, e2 + 1, c);
    assert(skip_white(s, e2) == e2 + 1) by {
        assert(s[e2 + 1] == c[0]);
    }
    assert(scan(s, e1) == scan(s, e1 + 1));
    assert(scan(s, e2) == scan(s, e2 + 1));
    assert(scan(s, n).0 == Ok::<Option<Tok>, crate::lexer::LexError>(None));
    let (l1, r1) = infix_bp(o1).unwrap();
    let (l2, r2) = infix_bp(o2).unwrap();
    // The lexer states along the way.
    let st0 = LexState { text: s, pos: 0, pending: None };
    let st1 = LexState { text: s, pos: la as nat, pending: None };
    let st1p = LexState { text: s, pos: e1 as nat, pending: Some(o1) };
    let st2 = LexState { text: s, pos: e1 as nat, pending: None };
    let st3 = LexState { text: s, pos: eb as nat, pending: None };
    let st3p = LexState { text: s, pos: e2 as nat, pending: Some(o2) };
    let st4 = LexState { text: s, pos: e2 as nat, pending: None };
    let st5 = LexState { text: s, pos: n as nat, pending: None };
    assert(parse_spec(st0, 0) == parse_loop(x, st1, 0, false));
    assert(parse_in(st4, r2, false) == parse_loop(z, st5, r2, false));
    assert(parse_loop(z, st5, r2, false) == (Ok::<Prop, crate::parser::ParseError>(z), st5));
    if l2 < r1 {
        // `o2` does not bind more tightly: `b` alone is the right operand of `o1`.
        assert(parse_loop(y, st3, r1, false) == (Ok::<Prop, crate::parser::ParseError>(y), st3p));
        assert(parse_in(st2, r1, false) == parse_loop(y, st3, r1, false));
        let xy = Prop::Bin(tok_op(o1), Box::new(x), Box::new(y));
        lemma_parse_advances(st2, r1, false);
        assert(parse_loop(x, st1, 0, false) == parse_loop(xy, st3p, 0, false));
        let xyz = Prop::Bin(tok_op(o2), Box::new(xy), Box::new(z));
        assert(parse_loop(xyz, st5, 0, false) == (Ok::<Prop, crate::parser::ParseError>(xyz), st5));
        lemma_parse_advances(st4, r2, false);
        assert(parse_loop(xy, st3p, 0, false) == parse_loop(xyz, st5, 0, false));
    } else {
        // `o2` binds more tightly: `b o2 c` is the right operand of `o1`.
        let yz = Prop::Bin(tok_op(o2), Box::new(y), Box::new(z));
        assert(parse_loop(yz, st5, r1, false) == (Ok::<Prop, crate::parser::ParseError>(yz), st5));
        lemma_parse_advances(st4, r2, false);
        assert(parse_loop(y, st3, r1, false) == parse_loop(yz, st5, r1, false));
        assert(parse_in(st2, r1, false) == parse_loop(y, st3, r1, false));
        let xyz = Prop::Bin(tok_op(o1), Box::new(x), Box::new(yz));
        assert(parse_loop(xyz, st5, 0, false) == (Ok::<Prop, crate::parser::ParseError>(xyz), st5));
        lemma_parse_advances(st2, r1, false);
        assert(parse_loop(x, st1, 0, false) == parse_loop(xyz, st5, 0, false));
    }
}

/// The text `~(a) o b`.
pub open spec fn negated_group_text(a: Seq<char>, o: Tok, b: Seq<char>) -> Seq<char> {
    seq!['~', '('] + a + seq![')', ' '] + op_chars(o) + seq![' '] + b
}

/// A parenthesised operand of `~` is an operand like a name: the group ends
/// the negation, and the binary operator after it takes the negation as its
/// left operand. `~(a) o b` parses as `(~a) o b` for every binary operator.
#[verifier::rlimit(80)]
#[verifier::spinoff_prover]
pub proof fn law_negated_group(a: Seq<char>, o: Tok, b: Seq<char>)
    requires
        is_name(a),
        is_name(b),
        is_binary_op(o),
    ensures
        parse_spec(LexState { text: negated_group_text(a, o, b), pos: 0, pending: None }, 0).0
            == Ok::<Prop, crate::parser::ParseError>(
            Prop::Bin(tok_op(o), Box::new(Prop::Not(Box::new(atom_of(a)))), Box::new(atom_of(b))),
        ),
{
    let s = negated_group_text(a, o, b);
    let (x, y) = (atom_of(a), atom_of(b));
    let la = a.len() as int;
    let lo = op_chars(o).len() as int;
    let p = 2 + la;
    let e1 = p + 2 + lo;
    let n = s.len() as int;
    assert(n == e1 + 1 + b.len());
    // The tokens, where they are.
    assert(s[0] == '~');
    assert(s[1] == '(');
    assert(s[p] == ')');
    assert(s[p + 1] == ' ');
    assert(s[e1] == ' ');
    assert(!is_white_space('~'));
    assert(!is_white_space('('));
    assert(!is_white_space(')'));
    law_scan_reads_operators(s, 0, 0);
    law_scan_reads_operators(s, 1, 1);
    assert forall|j: int| 2 <= j < p implies is_name_char(#[trigger] s[j]) by {
        assert(s[j] == a[j - 2]);
    }
    assert(!is_name_char(')'));
    law_scan_reads_names(s, 2, 2, p);
    assert(s.subrange(2, p) =~= a);
    law_scan_reads_operators(s, p, p);
    assert(s.subrange(p + 2, e1) =~= op_chars(o));
    lemma_scan_op(s, p + 1, o);
    assert(s.subrange(e1 + 1, n) =~= b);
    lemma_scan_name(s, e1 + 1, b);
    assert(skip_white(s, e1) == e1 + 1) by {
        assert(s[e1 + 1] == b[0]);
    }
    assert(scan(s, e1) == scan(s, e1 + 1));
    assert(scan(s, n).0 == Ok::<Option<Tok>, LexError>(None));
    let (l_bp, r_bp) = infix_bp(o).unwrap();
    // The lexer states along the way.
    let st0 = LexState { text: s, pos: 0, pending: None };
    let st1 = LexState { text: s, pos: 1, pending: None };
    let st2 = LexState { text: s, pos: 2, pending: None };
    let stp = LexState { text: s, pos: p as nat, pending: None };
    let stc = LexState { text: s, pos: (p + 1) as nat, pending: Some(Tok::RParen) };
    let st3 = LexState { text: s, pos: (p + 1) as nat, pending: None };
    let sto = LexState { text: s, pos: e1 as nat, pending: Some(o) };
    let st4 = LexState { text: s, pos: e1 as nat, pending: None };
    let st5 = LexState { text: s, pos: n as nat, pending: None };
    // Inside the parentheses: the name, ended by `)`.
    assert(parse_loop(x, stp, 0, true) == (Ok::<Prop, crate::parser::ParseError>(x), stc));
    assert(parse_in(st2, 0, true) == parse_loop(x, stp, 0, true));
    // After `)`, the operator binds less tightly than `~`.
    assert(parse_loop(x, st3, 9, false) == (Ok::<Prop, crate::parser::ParseError>(x), sto));
    assert(parse_in(st1, 9, false) == parse_loop(x, st3, 9, false));
    // The right operand.
    assert(parse_loop(y, st5, r_bp, false) == (Ok::<Prop, crate::parser::ParseError>(y), st5));
    assert(parse_in(st4, r_bp, false) == parse_loop(y, st5, r_bp, false));
    let nx = Prop::Not(Box::new(x));
    let whole = Prop::Bin(tok_op(o), Box::new(nx), Box::new(y));
    assert(parse_loop(whole, st5, 0, false) == (Ok::<Prop, crate::parser::ParseError>(whole), st5));
    lemma_parse_advances(st4, r_bp, false);
    assert(parse_loop(nx, sto, 0, false) == parse_loop(whole, st5, 0, false));
    lemma_parse_advances(st1, 9, false);
    assert(parse_spec(st0, 0) == parse_loop(nx, sto, 0, false));
}

/// The text `a o1 (b) o2 c`.
pub open spec fn grouped_middle_text(a: Seq<char>, o1: Tok, b: Seq<char>, o2: Tok, c: Seq<char>) -> Seq<char> {
    a + seq![' '] + op_chars(o1) + seq![' ', '('] + b + seq![')', ' '] + op_chars(o2) + seq![' ']
        + c
}

/// Parentheses around a single name change nothing: `a o1 (b) o2 c` parses
/// as `a o1 b o2 c` does, whatever the two binary operators. (In particular
/// the operator after `)` still obeys the binding power of `o1`.)
#[verifier::rlimit(100)]
#[verifier::spinoff_prover]
pub proof fn law_grouped_name_parses_as_name(a: Seq<char>, o1: Tok, b: Seq<char>, o2: Tok, c: Seq<char>)
    requires
        is_name(a),
        is_name(b),
        is_name(c),
        is_binary_op(o1),
        is_binary_op(o2),
    ensures
        parse_spec(LexState { text: grouped_middle_text(a, o1, b, o2, c), pos: 0, pending: None }, 0).0
            == parse_spec(LexState { text: infix_text(a, o1, b, o2, c), pos: 0, pending: None }, 0).0,
{
    law_infix_grouping(a, o1, b, o2, c);
    let s = grouped_middle_text(a, o1, b, o2, c);
    let (x, y, z) = (atom_of(a), atom_of(b), atom_of(c));
    let la = a.len() as int;
    let e1 = la + 1 + op_chars(o1).len();
    let pb = e1 + 2 + b.len();
    let e2 = pb + 2 + op_chars(o2).len();
    let n = s.len() as int;
    assert(n == e2 + 1 + c.len());
    // The tokens, where they are.
    assert(s.subrange(0, la) =~= a);
    assert(s[la] == ' ');
    lemma_scan_name(s, 0, a);
    assert(s.subrange(la + 1, e1) =~= op_chars(o1));
    lemma_scan_op(s, la, o1);
    assert(s[e1] == ' ');
    assert(s[e1 + 1] == '(');
    assert(!is_white_space('('));
    law_scan_reads_operators(s, e1, e1 + 1);
    assert forall|j: int| e1 + 2 <= j < pb implies is_name_char(#[trigger] s[j]) by {
        assert(s[j] == b[j - e1 - 2]);
    }
    assert(s[pb] == ')');
    assert(!is_name_char(')'));
    assert(!is_white_space(')'));
    law_scan_reads_names(s, e1 + 2, e1 + 2, pb);
    assert(s.subrange(e1 + 2, pb) =~= b);
    law_scan_reads_operators(s, pb, pb);
    assert(s[pb + 1] == ' ');
    assert(s.subrange(pb + 2, e2) =~= op_chars(o2));
    lemma_scan_op(s, pb + 1, o2);
    assert(s[e2] == ' ');
    assert(s.subrange(e2 + 1, n) =~= c);
    lemma_scan_name(s, e2 + 1, c);
    assert(skip_white(s, e2) == e2 + 1) by {
        assert(s[e2 + 1] == c[0]);
    }
    assert(scan(s, e2) == scan(s, e2 + 1));
    assert(scan(s, n).0 == Ok::<Option<Tok>, LexError>(None));
    let (l1, r1) = infix_bp(o1).unwrap();
    let (l2, r2) = infix_bp(o2).unwrap();
    // The lexer states along the way.
    let st0 = LexState { text: s, pos: 0, pending: None };
    let st1 = LexState { text: s, pos: la as nat, pending: None };
    let st2 = LexState { text: s, pos: e1 as nat, pending: None };
    let stb = LexState { text: s, pos: (e1 + 2) as nat, pending: None };
    let stp = LexState { text: s, pos: pb as nat, pending: None };
    let stc = LexState { text: s, pos: (pb + 1) as nat, pending: Some(Tok::RParen) };
    let st3 = LexState { text: s, pos: (pb + 1) as nat, pending: None };
    let sto = LexState { text: s, pos: e2 as nat, pending: Some(o2) };
    let st4 = LexState { text: s, pos: e2 as nat, pending: None };
    let st5 = LexState { text: s, pos: n as nat, pending: None };
    assert(parse_spec(st0, 0) == parse_loop(x, st1, 0, false));
    // Inside the parentheses: the name, ended by `)`.
    assert(parse_loop(y, stp, 0, true) == (Ok::<Prop, crate::parser::ParseError>(y), stc));
    assert(parse_in(stb, 0, true) == parse_loop(y, stp, 0, true));
    assert(parse_in(st2, r1, false) == parse_loop(y, st3, r1, false));
    // The last operand.
    assert(parse_in(st4, r2, false) == parse_loop(z, st5, r2, false));
    assert(parse_loop(z, st5, r2, false) == (Ok::<Prop, crate::parser::ParseError>(z), st5));
    lemma_parse_advances(st4, r2, false);
    if l2 < r1 {
        // The group alone is the right operand of `o1`.
        assert(parse_loop(y, st3, r1, false) == (Ok::<Prop, crate::parser::ParseError>(y), sto));
        let xy = Prop::Bin(tok_op(o1), Box::new(x), Box::new(y));
        lemma_parse_advances(st2, r1, false);
        assert(parse_loop(x, st1, 0, false) == parse_loop(xy, sto, 0, false));
        let xyz = Prop::Bin(tok_op(o2), Box::new(xy), Box::new(z));
        assert(parse_loop(xyz, st5, 0, false) == (Ok::<Prop, crate::parser::ParseError>(xyz), st5));
        assert(parse_loop(xy, sto, 0, false) == parse_loop(xyz, st5, 0, false));
    } else {
        // `o2` binds more tightly: `(b) o2 c` is the right operand of `o1`.
        let yz = Prop::Bin(tok_op(o2), Box::new(y), Box::new(z));
        assert(parse_loop(yz, st5, r1, false) == (Ok::<Prop, crate::parser::ParseError>(yz), st5));
        assert(parse_loop(y, st3, r1, false) == parse_loop(yz, st5, r1, false));
        let xyz = Prop::Bin(tok_op(o1), Box::new(x), Box::new(yz));
        assert(parse_loop(xyz, st5, 0, false) == (Ok::<Prop, crate::parser::ParseError>(xyz), st5));
        lemma_parse_advances(st2, r1, false);
        assert(parse_loop(x, st1, 0, false) == parse_loop(xyz, st5, 0, false));
    }
}

/// Every text that `validate_formula` accepts can be loaded into an engine:
/// it is not empty and it parses.
pub proof fn law_valid_formulas_load(s: Seq<char>)
    requires
        crate::formula_accepted(s),
    ensures
        s.len() > 0,
        parse_spec(LexState { text: s, pos: 0, pending: None }, 0).0 is Ok,
{
}

/// What `get_state` returns (or any other snapshot) has reduced nodes, read
/// on its public fields: node `i` has id `i`; nodes 0 and 1 test nothing; every
/// other node tests a variable and has two different children before it; and
/// no two nodes test the same variable with the same children.
pub proof fn law_snapshot_nodes_reduced(e: EngineV, k: int, s: OBDDEngineState)
    requires
        engine_wf(e),
        0 <= k < e.history.len(),
        s@ == e.history[k],
    ensures
        s.nodes@.len() >= 2,
        forall|i: int| 0 <= i < s.nodes@.len() ==> (#[trigger] s.nodes@[i]).id == i,
        s.nodes@[0].var is None && s.nodes@[0].left is None && s.nodes@[0].right is None,
        s.nodes@[1].var is None && s.nodes@[1].left is None && s.nodes@[1].right is None,
        forall|i: int|
            2 <= i < s.nodes@.len() ==> {
                let n = #[trigger] s.nodes@[i];
                &&& n.var is Some
                &&& n.left matches Some(l) && l < i
                &&& n.right matches Some(r) && r < i
                &&& n.left != n.right
            },
        forall|i: int, j: int|
            2 <= i < j < s.nodes@.len() ==> (#[trigger] s.nodes@[i]).var.unwrap()@ != (
            #[trigger] s.nodes@[j]).var.unwrap()@ || s.nodes@[i].left != s.nodes@[j].left
                || s.nodes@[i].right != s.nodes@[j].right,
{
    law_nodes_reduced(e, k);
    s.lemma_view_fields();
    let nodes = e.history[k].nodes;
    assert forall|i: int| 0 <= i < s.nodes@.len() implies (#[trigger] s.nodes@[i]).id == i by {
        assert(nodes[i] == s.nodes@[i]@);
        if i >= 2 {
            assert(crate::wellformed::inner_node_ok(nodes, i));
        }
    }
    assert(nodes[0] == s.nodes@[0]@);
    assert(nodes[1] == s.nodes@[1]@);
    assert forall|i: int| 2 <= i < s.nodes@.len() implies {
        let n = #[trigger] s.nodes@[i];
        &&& n.var is Some
        &&& n.left matches Some(l) && l < i
        &&& n.right matches Some(r) && r < i
        &&& n.left != n.right
    } by {
        assert(nodes[i] == s.nodes@[i]@);
        assert(crate::wellformed::inner_node_ok(nodes, i));
    }
    assert forall|i: int, j: int| 2 <= i < j < s.nodes@.len() implies (
    #[trigger] s.nodes@[i]).var.unwrap()@ != (#[trigger] s.nodes@[j]).var.unwrap()@
        || s.nodes@[i].left != s.nodes@[j].left || s.nodes@[i].right != s.nodes@[j].right by {
        assert(nodes[i] == s.nodes@[i]@);
        assert(nodes[j] == s.nodes@[j]@);
        assert(crate::wellformed::inner_node_ok(nodes, i));
        assert(crate::wellformed::inner_node_ok(nodes, j));
    }
}

/// What `get_state` returns (or any other snapshot) is ordered, read on its
/// public fields: every node past the terminals tests a variable of the
/// ordering, and each child that is not a terminal tests a variable whose
/// first occurrence in the ordering comes later than that of its parent's.
pub proof fn law_snapshot_nodes_ordered(e: EngineV, k: int, s: OBDDEngineState)
    requires
        engine_wf(e),
        0 <= k < e.history.len(),
        s@ == e.history[k],
    ensures
        forall|i: int|
            2 <= i < s.nodes@.len() ==> {
                let n = #[trigger] s.nodes@[i];
                let q = n.var.unwrap()@;
                &&& e.order.contains(q)
                &&& n.left.unwrap() >= 2 ==> e.order.contains(
                    s.nodes@[n.left.unwrap() as int].var.unwrap()@,
                ) && first_index(e.order, s.nodes@[n.left.unwrap() as int].var.unwrap()@)
                    > first_index(e.order, q)
                &&& n.right.unwrap() >= 2 ==> e.order.contains(
                    s.nodes@[n.right.unwrap() as int].var.unwrap()@,
                ) && first_index(e.order, s.nodes@[n.right.unwrap() as int].var.unwrap()@)
                    > first_index(e.order, q)
            },
{
    law_nodes_reduced(e, k);
    law_nodes_ordered(e, k);
    s.lemma_view_fields();
    let nodes = e.history[k].nodes;
    assert forall|i: int| 2 <= i < s.nodes@.len() implies {
        let n = #[trigger] s.nodes@[i];
        let q = n.var.unwrap()@;
        &&& e.order.contains(q)
        &&& n.left.unwrap() >= 2 ==> e.order.contains(
            s.nodes@[n.left.unwrap() as int].var.unwrap()@,
        ) && first_index(e.order, s.nodes@[n.left.unwrap() as int].var.unwrap()@) > first_index(e.order, q)
        &&& n.right.unwrap() >= 2 ==> e.order.contains(
            s.nodes@[n.right.unwrap() as int].var.unwrap()@,
        ) && first_index(e.order, s.nodes@[n.right.unwrap() as int].var.unwrap()@) > first_index(e.order, q)
    } by {
        assert(nodes[i] == s.nodes@[i]@);
        assert(crate::wellformed::inner_node_ok(nodes, i));
        assert(crate::wellformed::node_ordered(nodes, e.order, i));
        let l = s.nodes@[i].left.unwrap() as int;
        let r = s.nodes@[i].right.unwrap() as int;
        assert(nodes[l] == s.nodes@[l]@);
        assert(nodes[r] == s.nodes@[r]@);
        assert(nodes[i].var.unwrap() == s.nodes@[i].var.unwrap()@);
        if l >= 2 {
            assert(crate::wellformed::inner_node_ok(nodes, l));
            assert(nodes[l].var.unwrap() == s.nodes@[l].var.unwrap()@);
        }
        if r >= 2 {
            assert(crate::wellformed::inner_node_ok(nodes, r));
            assert(nodes[r].var.unwrap() == s.nodes@[r].var.unwrap()@);
        }
    }
}

/// The names `xs` joined by the operator `o`, with single spaces around it.
pub open spec fn chain_text(xs: Seq<Seq<char>>, o: Tok) -> Seq<char>
    decreases xs.len(),
{
    if xs.len() <= 1 {
        if xs.len() == 1 {
            xs[0]
        } else {
            Seq::empty()
        }
    } else {
        chain_text(xs.drop_last(), o) + seq![' '] + op_chars(o) + seq![' '] + xs.last()
    }
}

/// The atoms of `xs` combined by `o` from the left.
pub open spec fn left_fold(xs: Seq<Seq<char>>, o: Tok) -> Prop
    decreases xs.len(),
{
    if xs.len() <= 1 {
        atom_of(xs[0])
    } else {
        Prop::Bin(tok_op(o), Box::new(left_fold(xs.drop_last(), o)), Box::new(atom_of(xs.last())))
    }
}

proof fn lemma_chain_prefix(xs: Seq<Seq<char>>, o: Tok, m: int)
    requires
        1 <= m <= xs.len(),
    ensures
        chain_text(xs.take(m), o).len() <= chain_text(xs, o).len(),
        chain_text(xs, o).subrange(0, chain_text(xs.take(m), o).len() as int) == chain_text(
            xs.take(m),
            o,
        ),
    decreases xs.len(),
{
    if m == xs.len() {
        assert(xs.take(m) =~= xs);
        assert(chain_text(xs, o).subrange(0, chain_text(xs, o).len() as int) =~= chain_text(xs, o));
    } else {
        lemma_chain_prefix(xs.drop_last(), o, m);
        assert(xs.drop_last().take(m) =~= xs.take(m));
        let a = chain_text(xs.drop_last(), o);
        let t = chain_text(xs.take(m), o);
        assert(chain_text(xs, o).subrange(0, t.len() as int) =~= a.subrange(0, t.len() as int));
    }
}

/// The states of the lexer along a chain.
spec fn chain_at(s: Seq<char>, pos: int) -> LexState {
    LexState { text: s, pos: pos as nat, pending: None }
}

spec fn chain_peeked(s: Seq<char>, pos: int, o: Tok) -> LexState {
    LexState { text: s, pos: pos as nat, pending: Some(o) }
}

/// The characters of a chain after the prefix of its first `m` names: a
/// space, the operator, a space and name `m`.
#[verifier::rlimit(60)]
#[verifier::spinoff_prover]
proof fn lemma_chain_chars(xs: Seq<Seq<char>>, o: Tok, m: int)
    requires
        1 <= m < xs.len(),
    ensures
        ({
            let s = chain_text(xs, o);
            let lo = op_chars(o).len() as int;
            let pm = chain_text(xs.take(m), o).len() as int;
            let pn = chain_text(xs.take(m + 1), o).len() as int;
            &&& pn == pm + 2 + lo + xs[m].len()
            &&& pn <= s.len()
            &&& s[pm] == ' '
            &&& s.subrange(pm + 1, pm + 1 + lo) == op_chars(o)
            &&& s[pm + 1 + lo] == ' '
            &&& s.subrange(pm + 2 + lo, pn) == xs[m]
        }),
{
    let s = chain_text(xs, o);
    let lo = op_chars(o).len() as int;
    lemma_chain_prefix(xs, o, m + 1);
    let t = chain_text(xs.take(m + 1), o);
    let pm = chain_text(xs.take(m), o).len() as int;
    let pn = t.len() as int;
    assert(xs.take(m + 1).drop_last() =~= xs.take(m));
    assert(xs.take(m + 1).last() == xs[m]);
    assert(t == chain_text(xs.take(m), o) + seq![' '] + op_chars(o) + seq![' '] + xs[m]);
    assert forall|q: int| 0 <= q < pn implies s[q] == t[q] by {
        assert(s.subrange(0, pn)[q] == s[q]);
    }
    assert(s.subrange(pm + 1, pm + 1 + lo) =~= op_chars(o));
    assert(s.subrange(pm + 2 + lo, pn) =~= xs[m]);
}

/// What the lexer reads after name `j` of a chain: the operator, then name
/// `j + 1`, then the operator again or the end.
#[verifier::rlimit(100)]
#[verifier::spinoff_prover]
proof fn lemma_chain_scans(xs: Seq<Seq<char>>, o: Tok, j: int)
    requires
        forall|i: int| 0 <= i < xs.len() ==> is_name(#[trigger] xs[i]),
        is_binary_op(o),
        0 <= j,
        j + 1 < xs.len(),
    ensures
        ({
            let s = chain_text(xs, o);
            let lo = op_chars(o).len() as int;
            let pj = chain_text(xs.take(j + 1), o).len() as int;
            let pk = chain_text(xs.take(j + 2), o).len() as int;
            &&& pk == pj + 2 + lo + xs[j + 1].len()
            &&& pk <= s.len()
            &&& scan(s, pj) == (Ok::<Option<Tok>, crate::lexer::LexError>(Some(o)), pj + 1 + lo)
            &&& scan(s, pj + 1 + lo) == (Ok::<Option<Tok>, crate::lexer::LexError>(
                Some(Tok::Ident(xs[j + 1])),
            ), pk)
            &&& j + 2 == xs.len() ==> pk == s.len()
            &&& j + 2 < xs.len() ==> scan(s, pk) == (Ok::<Option<Tok>, crate::lexer::LexError>(
                Some(o),
            ), pk + 1 + lo)
        }),
{
    let s = chain_text(xs, o);
    let lo = op_chars(o).len() as int;
    let pj = chain_text(xs.take(j + 1), o).len() as int;
    let pk = chain_text(xs.take(j + 2), o).len() as int;
    let x = xs[j + 1];
    lemma_chain_chars(xs, o, j + 1);
    lemma_scan_op(s, pj, o);
    if j + 2 == xs.len() {
        assert(xs.take(j + 2) =~= xs);
    } else {
        lemma_chain_chars(xs, o, j + 2);
        lemma_scan_op(s, pk, o);
    }
    lemma_scan_name(s, pj + 2 + lo, x);
    assert(skip_white(s, pj + 1 + lo) == pj + 2 + lo) by {
        assert(s.subrange(pj + 2 + lo, pk)[0] == s[pj + 2 + lo]);
        assert(s[pj + 2 + lo] == x[0]);
        assert(is_name_char(x[0]));
    }
}

/// From name `j` of the chain on, the parser combines the rest from the left.
#[verifier::rlimit(60)]
#[verifier::spinoff_prover]
proof fn lemma_chain_loop(xs: Seq<Seq<char>>, o: Tok, j: int)
    requires
        xs.len() >= 1,
        forall|i: int| 0 <= i < xs.len() ==> is_name(#[trigger] xs[i]),
        is_binary_op(o),
        0 <= j < xs.len(),
    ensures
        ({
            let s = chain_text(xs, o);
            let pj = chain_text(xs.take(j + 1), o).len() as int;
            let acc = left_fold(xs.take(j + 1), o);
            let fin = (Ok::<Prop, crate::parser::ParseError>(left_fold(xs, o)), chain_at(
                s,
                s.len() as int,
            ));
            &&& parse_loop(acc, chain_at(s, pj), 0, false) == fin
            &&& j + 1 < xs.len() ==> parse_loop(
                acc,
                chain_peeked(s, pj + 1 + op_chars(o).len(), o),
                0,
                false,
            ) == fin
        }),
    decreases xs.len() - j,
{
    let s = chain_text(xs, o);
    let lo = op_chars(o).len() as int;
    let pj = chain_text(xs.take(j + 1), o).len() as int;
    let acc = left_fold(xs.take(j + 1), o);
    lemma_chain_prefix(xs, o, j + 1);
    if j + 1 == xs.len() {
        assert(xs.take(j + 1) =~= xs);
        assert(scan(s, s.len() as int).0 == Ok::<Option<Tok>, crate::lexer::LexError>(None));
    } else {
        let (l_bp, r_bp) = infix_bp(o).unwrap();
        lemma_chain_scans(xs, o, j);
        let pk = chain_text(xs.take(j + 2), o).len() as int;
        let x = xs[j + 1];
        lemma_chain_loop(xs, o, j + 1);
        let acc2 = left_fold(xs.take(j + 2), o);
        assert(xs.take(j + 2).drop_last() =~= xs.take(j + 1));
        assert(acc2 == Prop::Bin(tok_op(o), Box::new(acc), Box::new(atom_of(x))));
        let c = chain_at(s, pj + 1 + lo);
        let a2 = chain_at(s, pk);
        let b2 = chain_peeked(s, pk + 1 + lo, o);
        // The right operand is name j + 1 alone.
        if j + 2 == xs.len() {
            assert(scan(s, pk).0 == Ok::<Option<Tok>, crate::lexer::LexError>(None));
            assert(parse_loop(atom_of(x), a2, r_bp, false) == (Ok::<
                Prop,
                crate::parser::ParseError,
            >(atom_of(x)), a2));
        } else {
            assert(parse_loop(atom_of(x), a2, r_bp, false) == (Ok::<
                Prop,
                crate::parser::ParseError,
            >(atom_of(x)), b2));
        }
        assert(parse_in(c, r_bp, false) == parse_loop(atom_of(x), a2, r_bp, false));
        lemma_parse_advances(c, r_bp, false);
        assert(parse_loop(acc, chain_peeked(s, pj + 1 + lo, o), 0, false) == parse_loop(
            acc2,
            parse_in(c, r_bp, false).1,
            0,
            false,
        ));
        assert(parse_loop(acc, chain_at(s, pj), 0, false) == parse_loop(
            acc2,
            parse_in(c, r_bp, false).1,
            0,
            false,
        ));
    }
}

/// A chain of one binary operator groups to the left:
/// `x0 o x1 o ... o xn` parses as `((x0 o x1) o ...) o xn`.
pub proof fn law_chain_left_associative(xs: Seq<Seq<char>>, o: Tok)
    requires
        xs.len() >= 1,
        forall|i: int| 0 <= i < xs.len() ==> is_name(#[trigger] xs[i]),
        is_binary_op(o),
    ensures
        parse_spec(LexState { text: chain_text(xs, o), pos: 0, pending: None }, 0).0 == Ok::<
            Prop,
            crate::parser::ParseError,
        >(left_fold(xs, o)),
{
    let s = chain_text(xs, o);
    lemma_chain_prefix(xs, o, 1);
    let t1 = chain_text(xs.take(1), o);
    assert(t1 == xs[0]);
    let p0 = t1.len() as int;
    if p0 < s.len() {
        lemma_chain_prefix(xs, o, 2);
        let t2 = chain_text(xs.take(2), o);
        assert(xs.take(2).drop_last() =~= xs.take(1));
        assert(s.subrange(0, t2.len() as int)[p0] == t2[p0]);
    }
    assert(s.subrange(0, p0) == xs[0]);
    lemma_scan_name(s, 0, xs[0]);
    lemma_chain_loop(xs, o, 0);
    assert(left_fold(xs.take(1), o) == atom_of(xs[0]));
}

} // verus!
