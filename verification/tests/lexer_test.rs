use obdd_engine::lexer::{lex_string, Lexer, Token};

#[test]
fn test_empty_input() {
    assert!(lex_string("").is_err());
}

#[test]
fn test_single_variable() {
    let tokens = lex_string("x").unwrap();
    assert_eq!(tokens.len(), 1);
    assert!(matches!(tokens[0], Token::Identifier(_)));
    match &tokens[0] {
        Token::Identifier(var) => {
            assert_eq!(var.name, "x");
        }
        _ => panic!("Expected Identifier"),
    }
}

#[test]
fn test_multi_character_variable() {
    let tokens = lex_string("foo").unwrap();
    assert_eq!(tokens.len(), 1);
    assert!(matches!(tokens[0], Token::Identifier(_)));
    match &tokens[0] {
        Token::Identifier(var) => {
            assert_eq!(var.name, "foo");
        }
        _ => panic!("Expected Identifier"),
    }
}

#[test]
fn test_operators() {
    let tokens = lex_string("~x & y | z").unwrap();
    assert_eq!(tokens.len(), 6);
    assert!(matches!(tokens[0], Token::Not));
    assert!(matches!(tokens[1], Token::Identifier(_)));
    assert!(matches!(tokens[2], Token::And));
    assert!(matches!(tokens[3], Token::Identifier(_)));
    assert!(matches!(tokens[4], Token::Or));
    assert!(matches!(tokens[5], Token::Identifier(_)));
}

#[test]
fn test_implication_and_iff() {
    let tokens = lex_string("a -> b <-> c").unwrap();
    assert!(matches!(tokens[0], Token::Identifier(_)));
    assert!(matches!(tokens[1], Token::Implies));
    assert!(matches!(tokens[2], Token::Identifier(_)));
    assert!(matches!(tokens[3], Token::Iff));
    assert!(matches!(tokens[4], Token::Identifier(_)));
}

#[test]
fn test_parentheses() {
    let tokens = lex_string("(x & y)").unwrap();
    assert!(matches!(tokens[0], Token::LeftParen));
    assert!(matches!(tokens[1], Token::Identifier(_)));
    assert!(matches!(tokens[2], Token::And));
    assert!(matches!(tokens[3], Token::Identifier(_)));
    assert!(matches!(tokens[4], Token::RightParen));
}

#[test]
fn empty_input_message() {
    assert_eq!(lex_string("").unwrap_err(), "Input should not be empty");
    assert_eq!(Lexer::new("").unwrap_err(), "Input should not be empty");
}

#[test]
fn bang_is_negation_too() {
    let tokens = lex_string("!a").unwrap();
    assert_eq!(tokens.len(), 2);
    assert!(matches!(tokens[0], Token::Not));
}

#[test]
fn broken_iff_is_an_error() {
    assert_eq!(lex_string("a <- b").unwrap_err(), "Expected <->");
    assert_eq!(lex_string("a <").unwrap_err(), "Expected <->");
}

#[test]
fn broken_implies_is_an_error() {
    assert_eq!(lex_string("a - b").unwrap_err(), "Expected ->");
    assert_eq!(lex_string("a -").unwrap_err(), "Expected ->");
}

#[test]
fn unicode_white_space_separates_names() {
    // U+00A0 (no-break space) and U+3000 (ideographic space) are white space.
    let tokens = lex_string("ab\u{a0}cd\u{3000}ef\t\n").unwrap();
    assert_eq!(tokens.len(), 3);
    match &tokens[2] {
        Token::Identifier(var) => assert_eq!(var.name, "ef"),
        _ => panic!("Expected Identifier"),
    }
}

#[test]
fn names_end_at_operators() {
    let tokens = lex_string("x1&y_2|é").unwrap();
    assert_eq!(tokens.len(), 5);
    match &tokens[0] {
        Token::Identifier(var) => assert_eq!(var.name, "x1"),
        _ => panic!("Expected Identifier"),
    }
    match &tokens[4] {
        Token::Identifier(var) => assert_eq!(var.name, "é"),
        _ => panic!("Expected Identifier"),
    }
}

#[test]
fn white_space_only_has_no_tokens() {
    assert_eq!(lex_string("   ").unwrap().len(), 0);
}

#[test]
fn peek_keeps_the_token() {
    let mut lexer = Lexer::new("a & b").unwrap();
    assert!(matches!(lexer.peek_token(), Ok(Some(Token::Identifier(_)))));
    assert!(matches!(lexer.peek_token(), Ok(Some(Token::Identifier(_)))));
    assert!(matches!(lexer.next_token(), Ok(Some(Token::Identifier(_)))));
    assert!(matches!(lexer.next_token(), Ok(Some(Token::And))));
    assert!(matches!(lexer.peek_token(), Ok(Some(Token::Identifier(_)))));
    assert!(matches!(lexer.next_token(), Ok(Some(Token::Identifier(_)))));
    assert!(matches!(lexer.next_token(), Ok(None)));
    assert!(matches!(lexer.peek_token(), Ok(None)));
}
