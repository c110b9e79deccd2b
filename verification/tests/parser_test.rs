use obdd_engine::formula::{BinaryOp, Formula, Variable};
use obdd_engine::lexer::Lexer;
use obdd_engine::parser::{atom, bin, not, parse_formula};
use obdd_engine::validate_formula;

#[test]
fn parse_single_variable() {
    let mut lexer = Lexer::new("a").unwrap();
    let ast = parse_formula(&mut lexer, 0).unwrap();
    assert!(matches!(ast, Formula::Atom(_)));
}

#[test]
fn parse_not() {
    let mut lexer = Lexer::new("~a").unwrap();
    let ast = parse_formula(&mut lexer, 0).unwrap();
    let expected = not(atom("a"));
    assert_eq!(format!("{ast:?}"), format!("{expected:?}"));
}

#[test]
fn parse_and() {
    let mut lexer = Lexer::new("a & b").unwrap();
    let ast = parse_formula(&mut lexer, 0).unwrap();
    let expected = bin(BinaryOp::And, atom("a"), atom("b"));
    assert_eq!(format!("{ast:?}"), format!("{expected:?}"));
}

#[test]
fn precedence_and_over_or() {
    let mut lexer = Lexer::new("a & b | c").unwrap();
    let ast = parse_formula(&mut lexer, 0).unwrap();
    let expected = bin(BinaryOp::Or, bin(BinaryOp::And, atom("a"), atom("b")), atom("c"));
    assert_eq!(format!("{ast:?}"), format!("{expected:?}"));
}

#[test]
fn not_binds_tighter_than_and() {
    let mut lexer = Lexer::new("~a & b").unwrap();
    let ast = parse_formula(&mut lexer, 0).unwrap();
    let expected = bin(BinaryOp::And, not(atom("a")), atom("b"));
    assert_eq!(format!("{ast:?}"), format!("{expected:?}"));
}

#[test]
fn binary_ops_are_left_associative() {
    let mut lexer = Lexer::new("a -> b -> c").unwrap();
    let ast = parse_formula(&mut lexer, 0).unwrap();
    let expected = bin(
        BinaryOp::Implies,
        bin(BinaryOp::Implies, atom("a"), atom("b")),
        atom("c"),
    );
    assert_eq!(format!("{ast:?}"), format!("{expected:?}"));
}

#[test]
fn parentheses_override_precedence() {
    let mut lexer = Lexer::new("(a | b) & c").unwrap();
    let ast = parse_formula(&mut lexer, 0).unwrap();
    let expected = bin(BinaryOp::And, bin(BinaryOp::Or, atom("a"), atom("b")), atom("c"));
    assert_eq!(format!("{ast:?}"), format!("{expected:?}"));
}

#[test]
fn complex_expression() {
    let mut lexer = Lexer::new("~a & b -> c | d <-> e").unwrap();
    let ast = parse_formula(&mut lexer, 0).unwrap();
    let expected = bin(
        BinaryOp::Iff,
        bin(
            BinaryOp::Implies,
            bin(BinaryOp::And, not(atom("a")), atom("b")),
            bin(BinaryOp::Or, atom("c"), atom("d")),
        ),
        atom("e"),
    );
    assert_eq!(format!("{ast:?}"), format!("{expected:?}"));
}

#[test]
fn plus_incorrectly_accpeted() {
    let mut lexer = Lexer::new("(x & z) + (y & !z)").unwrap();
    let ast = parse_formula(&mut lexer, 0);
    assert!(ast.is_err());
}

#[test]
fn constants_are_named_t_and_f() {
    let mut lexer = Lexer::new("T | F").unwrap();
    let ast = parse_formula(&mut lexer, 0).unwrap();
    match ast {
        Formula::Binary { op, left, right } => {
            assert!(matches!(op, BinaryOp::Or));
            assert!(matches!(*left, Formula::Atom(Variable::True)));
            assert!(matches!(*right, Formula::Atom(Variable::False)));
        }
        _ => panic!("Expected a binary formula"),
    }
}

#[test]
fn iff_is_weakest_and_left_associative() {
    let mut lexer = Lexer::new("a <-> b <-> c & d").unwrap();
    let ast = parse_formula(&mut lexer, 0).unwrap();
    let expected = bin(
        BinaryOp::Iff,
        bin(BinaryOp::Iff, atom("a"), atom("b")),
        bin(BinaryOp::And, atom("c"), atom("d")),
    );
    assert_eq!(format!("{ast:?}"), format!("{expected:?}"));
}

#[test]
fn double_negation_nests() {
    let mut lexer = Lexer::new("~!a").unwrap();
    let ast = parse_formula(&mut lexer, 0).unwrap();
    let expected = not(not(atom("a")));
    assert_eq!(format!("{ast:?}"), format!("{expected:?}"));
}

#[test]
fn error_unexpected_end() {
    let mut lexer = Lexer::new("a &").unwrap();
    assert_eq!(parse_formula(&mut lexer, 0).unwrap_err(), "Unexpected end of input");
}

#[test]
fn error_unexpected_token_shows_the_token() {
    let mut lexer = Lexer::new("a b").unwrap();
    assert_eq!(
        parse_formula(&mut lexer, 0).unwrap_err(),
        "Unexpected token: Identifier(NamedVariable { name: \"b\" })"
    );
    let mut lexer = Lexer::new("& a").unwrap();
    assert_eq!(parse_formula(&mut lexer, 0).unwrap_err(), "Unexpected token: And");
}

#[test]
fn error_missing_close_paren() {
    let mut lexer = Lexer::new("(a & b").unwrap();
    assert_eq!(parse_formula(&mut lexer, 0).unwrap_err(), "Expected ')', got None");
    let mut lexer = Lexer::new("(a (").unwrap();
    assert_eq!(
        parse_formula(&mut lexer, 0).unwrap_err(),
        "Expected ')', got Some(LeftParen)"
    );
    let mut lexer = Lexer::new("(a b)").unwrap();
    assert_eq!(
        parse_formula(&mut lexer, 0).unwrap_err(),
        "Expected ')', got Some(Identifier(NamedVariable { name: \"b\" }))"
    );
}

#[test]
fn error_from_the_lexer_passes_through() {
    let mut lexer = Lexer::new("a <-b").unwrap();
    assert_eq!(parse_formula(&mut lexer, 0).unwrap_err(), "Expected <->");
}

#[test]
fn validate_accepts_formulas() {
    assert!(validate_formula("(a & b) -> c"));
    assert!(validate_formula("~a & b -> c"));
    assert!(validate_formula("T"));
}

#[test]
fn validate_rejects_non_formulas() {
    assert!(!validate_formula(""));
    assert!(!validate_formula("a &"));
    assert!(!validate_formula("(a"));
    assert!(!validate_formula("a)"));
    assert!(!validate_formula("a b"));
    assert!(!validate_formula("a - b"));
    assert!(!validate_formula("(x & z) + (y & !z)"));
}

#[test]
fn printed_form_uses_logic_symbols() {
    let mut lexer = Lexer::new("~a & T -> b <-> F | c").unwrap();
    let ast = parse_formula(&mut lexer, 0).unwrap();
    assert_eq!(ast.to_string(), "(((¬a ∧ ⊤) → b) ↔ (⊥ ∨ c))");
}

#[test]
fn grouping_of_every_pair_of_operators() {
    // (text, binding power, operator) for each binary operator.
    let ops = [
        ("&", 7, BinaryOp::And),
        ("|", 5, BinaryOp::Or),
        ("->", 3, BinaryOp::Implies),
        ("<->", 1, BinaryOp::Iff),
    ];
    for (t1, p1, o1) in ops.iter() {
        for (t2, p2, o2) in ops.iter() {
            let text = format!("a {} b {} c", t1, t2);
            let mut lexer = Lexer::new(&text).unwrap();
            let ast = parse_formula(&mut lexer, 0).unwrap();
            let expected = if p2 <= p1 {
                bin(*o2, bin(*o1, atom("a"), atom("b")), atom("c"))
            } else {
                bin(*o1, atom("a"), bin(*o2, atom("b"), atom("c")))
            };
            assert_eq!(format!("{ast:?}"), format!("{expected:?}"), "{}", text);
        }
    }
}

#[test]
fn long_chains_group_to_the_left() {
    let mut lexer = Lexer::new("a | b | c | d").unwrap();
    let ast = parse_formula(&mut lexer, 0).unwrap();
    let expected = bin(
        BinaryOp::Or,
        bin(BinaryOp::Or, bin(BinaryOp::Or, atom("a"), atom("b")), atom("c")),
        atom("d"),
    );
    assert_eq!(format!("{ast:?}"), format!("{expected:?}"));
}

#[test]
fn non_operator_inside_parentheses_reports_the_missing_paren() {
    let mut lexer = Lexer::new("(a ~b)").unwrap();
    assert_eq!(parse_formula(&mut lexer, 0).unwrap_err(), "Expected ')', got Some(Not)");
}

#[test]
fn error_texts_name_the_operator_tokens() {
    let mut lexer = Lexer::new(")").unwrap();
    assert_eq!(parse_formula(&mut lexer, 0).unwrap_err(), "Unexpected token: RightParen");
    let mut lexer = Lexer::new("-> a").unwrap();
    assert_eq!(parse_formula(&mut lexer, 0).unwrap_err(), "Unexpected token: Implies");
    let mut lexer = Lexer::new("(a ~").unwrap();
    assert_eq!(parse_formula(&mut lexer, 0).unwrap_err(), "Expected ')', got Some(Not)");
}
