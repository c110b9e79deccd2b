//! A Pratt parser from the tokens of a [`Lexer`] to a [`Formula`].
//!
//! Binding powers: `~` 9; `&` (7, 8); `|` (5, 6); `->` (3, 4); `<->` (1, 2).
//! Every binary operator is left associative. `T` and `F` name the constants.
//! Outside parentheses, a token that cannot continue a formula (a name, `~`
//! or `(`) is an error; inside them, it ends the formula, and the missing `)`
//! is reported.
use crate::formula::{BinaryOp, Formula, NamedVariable, Prop, UnaryOp, Variable};
use crate::lexer::{
    lemma_scan_progress, lex_error_text, look_token, take_token, LexError, LexState, Lexer, Tok,
    Token,
};
use vstd::prelude::*;

verus! {

/// Why a text is not a formula.
pub enum ParseError {
    /// A malformed token.
    Lex(LexError),
    /// The text ended where a formula was expected.
    UnexpectedEnd,
    /// A token that cannot stand where it was found.
    Unexpected(Tok),
    /// A parenthesised formula not followed by `)`: what came instead.
    ExpectedClose(Option<Tok>),
}

/// What `format!("{:?}", t)` writes for a name token `Identifier(v)` whose
/// name is `n` (the derived `Debug` of `Token` and `NamedVariable`).
pub uninterp spec fn ident_debug(n: Seq<char>) -> Seq<char>;

/// What `format!("{:?}", t)` writes for a token `t` (its derived `Debug`):
/// the variant's name for an operator or a parenthesis.
pub open spec fn token_debug(t: Tok) -> Seq<char> {
    match t {
        Tok::Ident(n) => ident_debug(n),
        Tok::Not => "Not"@,
        Tok::Implies => "Implies"@,
        Tok::Iff => "Iff"@,
        Tok::And => "And"@,
        Tok::Or => "Or"@,
        Tok::LParen => "LeftParen"@,
        Tok::RParen => "RightParen"@,
    }
}

/// A name that the derived `Debug` writes as it is: printable ASCII other
/// than `"` and `\\`.
pub open spec fn plain_name(n: Seq<char>) -> bool {
    forall|i: int|
        0 <= i < n.len() ==> 0x21 <= (#[trigger] n[i]) as u32 <= 0x7E && n[i] != '"' && n[i]
            != '\\'
}

/// What `format!("{:?}", o)` writes for an optional token.
pub open spec fn option_token_debug(o: Option<Tok>) -> Seq<char> {
    match o {
        None => "None"@,
        Some(t) => "Some("@ + token_debug(t) + ")"@,
    }
}

pub open spec fn parse_error_text(e: ParseError) -> Seq<char> {
    match e {
        ParseError::Lex(l) => lex_error_text(l),
        ParseError::UnexpectedEnd => "Unexpected end of input"@,
        ParseError::Unexpected(t) => "Unexpected token: "@ + token_debug(t),
        ParseError::ExpectedClose(o) => "Expected ')', got "@ + option_token_debug(o),
    }
}

/// Left and right binding power of an infix operator.
pub open spec fn infix_bp(t: Tok) -> Option<(u8, u8)> {
    match t {
        Tok::And => Some((7u8, 8u8)),
        Tok::Or => Some((5u8, 6u8)),
        Tok::Implies => Some((3u8, 4u8)),
        Tok::Iff => Some((1u8, 2u8)),
        _ => None,
    }
}

/// Right binding power of a prefix operator.
pub open spec fn prefix_bp(t: Tok) -> Option<u8> {
    match t {
        Tok::Not => Some(9u8),
        _ => None,
    }
}

pub open spec fn tok_op(t: Tok) -> BinaryOp {
    match t {
        Tok::And => BinaryOp::And,
        Tok::Or => BinaryOp::Or,
        Tok::Implies => BinaryOp::Implies,
        _ => BinaryOp::Iff,
    }
}

/// The atom that a name denotes: `T` and `F` are the constants.
pub open spec fn atom_of(n: Seq<char>) -> Prop {
    if n == "T"@ {
        Prop::Top
    } else if n == "F"@ {
        Prop::Bottom
    } else {
        Prop::Var(n)
    }
}

/// Twice the characters left, plus one for a token read ahead: every token
/// taken lowers it.
pub open spec fn lex_measure(st: LexState) -> nat {
    let left = if st.pos < st.text.len() {
        (st.text.len() - st.pos) as nat
    } else {
        0nat
    };
    2 * left + if st.pending is Some {
        1nat
    } else {
        0nat
    }
}

/// Parses one formula whose operators bind at least as tightly as `min_bp`:
/// the formula or the error, and the lexer state afterwards. `nested` says
/// whether the formula stands inside parentheses: there, a token that cannot
/// continue the formula ends it (the `)` is checked by the caller); outside
/// them, such a token is an error.
pub open spec fn parse_in(st: LexState, min_bp: u8, nested: bool) -> (
    Result<Prop, ParseError>,
    LexState,
)
    decreases lex_measure(st), 1nat,
{
    let (r, st1) = take_token(st);
    proof {
        lemma_take_token(st);
    }
    match r {
        Err(e) => (Err(ParseError::Lex(e)), st1),
        Ok(None) => (Err(ParseError::UnexpectedEnd), st1),
        Ok(Some(Tok::Ident(n))) => parse_loop(atom_of(n), st1, min_bp, nested),
        Ok(Some(Tok::LParen)) => {
            let (r2, st2) = parse_in(st1, 0, true);
            match r2 {
                Err(e) => (Err(e), st2),
                Ok(inner) => {
                    let (r3, st3) = take_token(st2);
                    match r3 {
                        Err(e) => (Err(ParseError::Lex(e)), st3),
                        Ok(Some(Tok::RParen)) => {
                            proof {
                                lemma_take_token(st2);
                            }
                            // Parsing never moves the lexer back (lemma_parse_advances),
                            // so the guard always holds.
                            if lex_measure(st3) < lex_measure(st) {
                                parse_loop(inner, st3, min_bp, nested)
                            } else {
                                (Err(ParseError::UnexpectedEnd), st3)
                            }
                        },
                        Ok(o) => (Err(ParseError::ExpectedClose(o)), st3),
                    }
                },
            }
        },
        Ok(Some(t)) => match prefix_bp(t) {
            Some(r_bp) => {
                let (r2, st2) = parse_in(st1, r_bp, nested);
                match r2 {
                    Err(e) => (Err(e), st2),
                    Ok(e) => {
                        // Always true, as above.
                        if lex_measure(st2) < lex_measure(st) {
                            parse_loop(Prop::Not(Box::new(e)), st2, min_bp, nested)
                        } else {
                            (Err(ParseError::UnexpectedEnd), st2)
                        }
                    },
                }
            },
            None => (Err(ParseError::Unexpected(t)), st1),
        },
    }
}

/// Extends `lhs` with the infix operators that follow it and bind at least
/// as tightly as `min_bp`.
pub open spec fn parse_loop(lhs: Prop, st: LexState, min_bp: u8, nested: bool) -> (
    Result<Prop, ParseError>,
    LexState,
)
    decreases lex_measure(st), 0nat,
{
    let (r, st1) = look_token(st);
    proof {
        lemma_look_token(st);
    }
    match r {
        Err(e) => (Err(ParseError::Lex(e)), st1),
        Ok(None) => (Ok(lhs), st1),
        Ok(Some(t)) => match infix_bp(t) {
            None => if t is RParen || nested {
                (Ok(lhs), st1)
            } else {
                (Err(ParseError::Unexpected(t)), st1)
            },
            Some((l_bp, r_bp)) => if l_bp < min_bp {
                (Ok(lhs), st1)
            } else {
                let st2 = take_token(st1).1;
                let (r3, st3) = parse_in(st2, r_bp, nested);
                match r3 {
                    Err(e) => (Err(e), st3),
                    Ok(rhs) => {
                        // Always true (lemma_parse_advances).
                        if lex_measure(st3) < lex_measure(st) {
                            parse_loop(
                                Prop::Bin(tok_op(t), Box::new(lhs), Box::new(rhs)),
                                st3,
                                min_bp,
                                nested,
                            )
                        } else {
                            (Err(ParseError::UnexpectedEnd), st3)
                        }
                    },
                }
            },
        },
    }
}

/// Parses one formula, not inside parentheses.
pub open spec fn parse_spec(st: LexState, min_bp: u8) -> (Result<Prop, ParseError>, LexState) {
    parse_in(st, min_bp, false)
}

/// Taking a token never moves the lexer back, and taking one lowers the measure.
pub proof fn lemma_take_token(st: LexState)
    ensures
        take_token(st).1.text == st.text,
        lex_measure(take_token(st).1) <= lex_measure(st),
        take_token(st).0 matches Ok(Some(_)) ==> lex_measure(take_token(st).1) < lex_measure(st),
        take_token(st).1.pending is None,
{
    if st.pending is None {
        lemma_scan_progress(st.text, st.pos as int);
    }
}

/// Looking at a token never moves the lexer back, and a token seen is kept.
pub proof fn lemma_look_token(st: LexState)
    ensures
        look_token(st).1.text == st.text,
        lex_measure(look_token(st).1) <= lex_measure(st),
        look_token(st).0 matches Ok(Some(t)) ==> look_token(st).1.pending == Some(t),
{
    if st.pending is None {
        lemma_scan_progress(st.text, st.pos as int);
    }
}

/// Parsing never moves the lexer back, and a successful parse takes a token.
pub proof fn lemma_parse_advances(st: LexState, min_bp: u8, nested: bool)
    ensures
        parse_in(st, min_bp, nested).1.text == st.text,
        lex_measure(parse_in(st, min_bp, nested).1) < lex_measure(st) || parse_in(
            st,
            min_bp,
            nested,
        ).0 is Err,
        lex_measure(parse_in(st, min_bp, nested).1) <= lex_measure(st),
    decreases lex_measure(st), 1nat,
{
    lemma_take_token(st);
    let (r, st1) = take_token(st);
    match r {
        Err(e) => {},
        Ok(None) => {},
        Ok(Some(Tok::Ident(n))) => {
            lemma_loop_advances(atom_of(n), st1, min_bp, nested);
        },
        Ok(Some(Tok::LParen)) => {
            lemma_parse_advances(st1, 0, true);
            let (r2, st2) = parse_in(st1, 0, true);
            lemma_take_token(st2);
            match r2 {
                Ok(inner) => {
                    let (r3, st3) = take_token(st2);
                    if r3 matches Ok(Some(Tok::RParen)) {
                        lemma_loop_advances(inner, st3, min_bp, nested);
                    }
                },
                Err(_) => {},
            }
        },
        Ok(Some(t)) => {
            if let Some(r_bp) = prefix_bp(t) {
                lemma_parse_advances(st1, r_bp, nested);
                let (r2, st2) = parse_in(st1, r_bp, nested);
                if let Ok(e) = r2 {
                    lemma_loop_advances(Prop::Not(Box::new(e)), st2, min_bp, nested);
                }
            }
        },
    }
}

pub proof fn lemma_loop_advances(lhs: Prop, st: LexState, min_bp: u8, nested: bool)
    ensures
        parse_loop(lhs, st, min_bp, nested).1.text == st.text,
        lex_measure(parse_loop(lhs, st, min_bp, nested).1) <= lex_measure(st),
    decreases lex_measure(st), 0nat,
{
    lemma_look_token(st);
    let (r, st1) = look_token(st);
    if let Ok(Some(t)) = r {
        if let Some((l_bp, r_bp)) = infix_bp(t) {
            if l_bp >= min_bp {
                lemma_take_token(st1);
                let st2 = take_token(st1).1;
                lemma_parse_advances(st2, r_bp, nested);
                let (r3, st3) = parse_in(st2, r_bp, nested);
                if let Ok(rhs) = r3 {
                    if lex_measure(st3) < lex_measure(st) {
                        lemma_loop_advances(
                            Prop::Bin(tok_op(t), Box::new(lhs), Box::new(rhs)),
                            st3,
                            min_bp,
                            nested,
                        );
                    }
                }
            }
        }
    }
}

/// Whether a result of the parser is the one that the model gives.
pub open spec fn parse_result_is(r: Result<Formula, String>, m: Result<Prop, ParseError>) -> bool {
    match (r, m) {
        (Ok(f), Ok(p)) => f@ == p,
        (Err(msg), Err(e)) => msg@ == parse_error_text(e),
        _ => false,
    }
}

/// The text that `format!("{:?}", t)` (std's formatting of the derived `Debug`
/// of `Token`) writes for `t`. Trusted: the contract claims that a unit
/// variant is written as its name (`token_debug`), that the text of a name
/// token depends on nothing but the name (named `ident_debug`), and that a
/// name of printable ASCII without `"` or `\\` is written unescaped inside
/// `Identifier(NamedVariable { name: "..." })`. How other names are escaped
/// is left unsaid.
#[verifier::external_body]
fn debug_token(t: &Token) -> (s: String)
    ensures
        s@ == token_debug(t@),
        t@ matches Tok::Ident(n) ==> s@ == ident_debug(n),
        t@ matches Tok::Ident(n) ==> (plain_name(n) ==> s@ == "Identifier(NamedVariable { name: \""@
            + n + "\" })"@),
{
    format!("{:?}", t)
}

fn unexpected_token_message(t: &Token) -> (s: String)
    ensures
        s@ == parse_error_text(ParseError::Unexpected(t@)),
{
    let mut s = String::from_str("Unexpected token: ");
    let d = debug_token(t);
    s.append(d.as_str());
    s
}

fn expected_close_message(t: &Option<Token>) -> (s: String)
    ensures
        s@ == parse_error_text(
            ParseError::ExpectedClose(
                match t {
                    Some(t) => Some(t@),
                    None => None,
                },
            ),
        ),
{
    let mut s = String::from_str("Expected ')', got ");
    match t {
        Some(tok) => {
            s.append("Some(");
            let d = debug_token(tok);
            s.append(d.as_str());
            s.append(")");
        },
        None => {
            s.append("None");
        },
    }
    s
}

pub fn infix_binding_power(token: &Token) -> (r: Option<(u8, u8)>)
    ensures
        r == infix_bp(token@),
{
    match token {
        Token::And => Some((7, 8)),
        Token::Or => Some((5, 6)),
        Token::Implies => Some((3, 4)),
        Token::Iff => Some((1, 2)),
        _ => None,
    }
}

pub fn prefix_binding_power(token: &Token) -> (r: Option<u8>)
    ensures
        r == prefix_bp(token@),
{
    match token {
        Token::Not => Some(9),
        _ => None,
    }
}

/// Parses one formula whose infix operators bind at least as tightly as
/// `min_bp`, taking its tokens from `lexer`.
pub fn parse_formula(lexer: &mut Lexer, min_bp: u8) -> (r: Result<Formula, String>)
    ensures
        parse_result_is(r, parse_spec(old(lexer)@, min_bp).0),
        final(lexer)@ == parse_spec(old(lexer)@, min_bp).1,
{
    parse_expr(lexer, min_bp, false)
}

/// Parses one formula, inside parentheses when `nested` holds.
fn parse_expr(lexer: &mut Lexer, min_bp: u8, nested: bool) -> (r: Result<Formula, String>)
    ensures
        parse_result_is(r, parse_in(old(lexer)@, min_bp, nested).0),
        final(lexer)@ == parse_in(old(lexer)@, min_bp, nested).1,
    decreases lex_measure(old(lexer)@), 1nat,
{
    let ghost st0 = lexer@;
    proof {
        lemma_take_token(st0);
    }
    let first = lexer.next_token();
    let mut lhs: Formula = match first {
        Err(e) => {
            return Err(e);
        },
        Ok(None) => {
            return Err(String::from_str("Unexpected end of input"));
        },
        Ok(Some(Token::Identifier(var))) => {
            if var.name == String::from_str("T") {
                Formula::Atom(Variable::True)
            } else if var.name == String::from_str("F") {
                Formula::Atom(Variable::False)
            } else {
                Formula::Atom(Variable::Variable(var))
            }
        },
        Ok(Some(Token::LeftParen)) => {
            let ghost st1 = lexer@;
            let expr = parse_expr(lexer, 0, true)?;
            proof {
                lemma_parse_advances(st1, 0, true);
                lemma_take_token(lexer@);
            }
            let close = lexer.next_token();
            match close {
                Ok(Some(Token::RightParen)) => expr,
                Ok(t) => {
                    return Err(expected_close_message(&t));
                },
                Err(e) => {
                    return Err(e);
                },
            }
        },
        Ok(Some(tok)) => {
            if let Some(r_bp) = prefix_binding_power(&tok) {
                let ghost st1 = lexer@;
                let rhs = parse_expr(lexer, r_bp, nested)?;
                proof {
                    lemma_parse_advances(st1, r_bp, nested);
                }
                Formula::Unary { op: UnaryOp::Not, expr: Box::new(rhs) }
            } else {
                return Err(unexpected_token_message(&tok));
            }
        },
    };
    loop
        invariant_except_break
            st0 == old(lexer)@,
            lex_measure(lexer@) < lex_measure(st0),
            parse_loop(lhs@, lexer@, min_bp, nested) == parse_in(st0, min_bp, nested),
        ensures
            st0 == old(lexer)@,
            parse_in(st0, min_bp, nested) == (Ok::<Prop, ParseError>(lhs@), lexer@),
        decreases lex_measure(lexer@),
    {
        let ghost st = lexer@;
        proof {
            lemma_look_token(st);
        }
        let op = match lexer.peek_token() {
            Err(e) => {
                return Err(e);
            },
            Ok(None) => {
                break ;
            },
            Ok(Some(tok)) => tok,
        };
        let (l_bp, r_bp) = match infix_binding_power(&op) {
            Some(bp) => bp,
            None => {
                if nested || matches!(op, Token::RightParen) {
                    break ;
                } else {
                    return Err(unexpected_token_message(&op));
                }
            },
        };
        if l_bp < min_bp {
            break ;
        }
        let ghost st1 = lexer@;
        proof {
            lemma_take_token(st1);
        }
        let _ = lexer.next_token();
        let ghost st2 = lexer@;
        let rhs = parse_expr(lexer, r_bp, nested)?;
        proof {
            lemma_parse_advances(st2, r_bp, nested);
        }
        let new_op = match op {
            Token::And => BinaryOp::And,
            Token::Or => BinaryOp::Or,
            Token::Implies => BinaryOp::Implies,
            _ => BinaryOp::Iff,
        };
        lhs = Formula::Binary { op: new_op, left: Box::new(lhs), right: Box::new(rhs) };
    }
    Ok(lhs)
}

/// A variable named `name`.
pub fn atom(name: &str) -> (f: Formula)
    ensures
        f@ == Prop::Var(name@),
{
    Formula::Atom(Variable::Variable(NamedVariable { name: String::from_str(name) }))
}

/// The negation of `expr`.
pub fn not(expr: Formula) -> (f: Formula)
    ensures
        f@ == Prop::Not(Box::new(expr@)),
{
    Formula::Unary { op: UnaryOp::Not, expr: Box::new(expr) }
}

/// `l op r`.
pub fn bin(op: BinaryOp, l: Formula, r: Formula) -> (f: Formula)
    ensures
        f@ == Prop::Bin(op, Box::new(l@), Box::new(r@)),
{
    Formula::Binary { op, left: Box::new(l), right: Box::new(r) }
}

} // verus!
