//! Step-by-step construction of ordered binary decision diagrams from
//! propositional formulas: a lexer and a Pratt parser for formulas, and an
//! engine that records every step of the construction so that it can be
//! replayed forwards and backwards.
pub mod canonical;
pub mod engine;
pub mod formula;
pub mod laws;
pub mod lexer;
pub mod model;
pub mod parser;
pub mod rewrite;
pub mod termination;
pub mod wellformed;

use crate::lexer::{take_token, LexState, Lexer, Tok};
use crate::parser::{parse_formula, parse_spec};
use vstd::prelude::*;

verus! {

/// Whether `s` is a formula: not empty, and one formula with nothing after it.
pub open spec fn formula_accepted(s: Seq<char>) -> bool {
    &&& s.len() > 0
    &&& {
        let (r, st) = parse_spec(LexState { text: s, pos: 0, pending: None }, 0);
        &&& r is Ok
        &&& take_token(st).0 == Ok::<Option<Tok>, crate::lexer::LexError>(None)
    }
}

/// Whether `input` is a syntactically valid formula.
pub fn validate_formula(input: &str) -> (b: bool)
    ensures
        b == formula_accepted(input@),
{
    let mut lexer = match Lexer::new(input) {
        Ok(l) => l,
        Err(_) => return false,
    };
    if parse_formula(&mut lexer, 0).is_err() {
        return false;
    }
    match lexer.next_token() {
        Ok(None) => true,
        _ => false,
    }
}

} // verus!
