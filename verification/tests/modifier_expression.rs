use cargo_ci::modifier_expression::{evaluate, tokenize, ParseError, Token};

fn flags(names: &[&str]) -> Vec<String> {
    names.iter().map(|n| n.to_string()).collect()
}

#[test]
fn test_simple_identifier() {
    let modifiers = vec!["nightly".to_string()];
    assert!(evaluate("nightly", &modifiers).unwrap());
    assert!(!evaluate("stable", &modifiers).unwrap());
}

#[test]
fn test_and_operator() {
    let modifiers = vec!["nightly".to_string(), "experimental".to_string()];
    assert!(evaluate("nightly & experimental", &modifiers).unwrap());
    assert!(!evaluate("nightly & stable", &modifiers).unwrap());
}

#[test]
fn test_or_operator() {
    let modifiers = vec!["nightly".to_string()];
    assert!(evaluate("nightly | stable", &modifiers).unwrap());
    assert!(evaluate("stable | nightly", &modifiers).unwrap());
    assert!(!evaluate("stable | beta", &modifiers).unwrap());
}

#[test]
fn test_not_operator() {
    let modifiers = vec!["nightly".to_string()];
    assert!(!evaluate("!nightly", &modifiers).unwrap());
    assert!(evaluate("!stable", &modifiers).unwrap());
}

#[test]
fn test_parentheses() {
    let modifiers = vec!["nightly".to_string()];
    assert!(evaluate("(nightly)", &modifiers).unwrap());
    assert!(evaluate("(nightly | stable) & !beta", &modifiers).unwrap());
}

#[test]
fn test_complex_expression() {
    let modifiers = vec!["nightly".to_string(), "experimental".to_string()];
    assert!(evaluate("(nightly | beta) & experimental", &modifiers).unwrap());
    assert!(!evaluate("(nightly | beta) & windows", &modifiers).unwrap());
    assert!(evaluate("nightly & (experimental | stable)", &modifiers).unwrap());
}

#[test]
fn test_operator_precedence() {
    let modifiers = vec!["a".to_string(), "b".to_string()];
    // a | b & c should be parsed as a | (b & c)
    assert!(evaluate("a | b & c", &modifiers).unwrap()); // true because a is true
    assert!(evaluate("d | b & a", &modifiers).unwrap()); // true because b & a is true
    assert!(!evaluate("d | e & a", &modifiers).unwrap()); // false because both sides are false
}

#[test]
fn test_not_precedence() {
    let modifiers = vec!["a".to_string()];
    assert!(!evaluate("!a & b", &modifiers).unwrap()); // (!a) & b = false & false = false
    assert!(evaluate("!b & a", &modifiers).unwrap()); // (!b) & a = true & true = true
}

#[test]
fn test_empty_modifiers() {
    let modifiers = vec![];
    assert!(!evaluate("nightly", &modifiers).unwrap());
    assert!(evaluate("!nightly", &modifiers).unwrap());
}

#[test]
fn test_whitespace() {
    let modifiers = vec!["nightly".to_string()];
    assert!(evaluate("  nightly  ", &modifiers).unwrap());
    assert!(evaluate("nightly|stable", &modifiers).unwrap());
    assert!(evaluate("  ( nightly | stable )  ", &modifiers).unwrap());
}

#[test]
fn test_invalid_expressions() {
    let modifiers = vec![];
    assert!(evaluate("", &modifiers).is_err());
    assert!(evaluate("(nightly", &modifiers).is_err());
    assert!(evaluate("nightly)", &modifiers).is_err());
    assert!(evaluate("&", &modifiers).is_err());
    assert!(evaluate("nightly &", &modifiers).is_err());
}

#[test]
fn identifier_is_true_when_declared() {
    assert_eq!(evaluate("nightly", &flags(&["nightly"])), Ok(true));
    assert_eq!(evaluate("nightly", &flags(&[])), Ok(false));
    assert_eq!(evaluate("!nightly", &flags(&[])), Ok(true));
}

#[test]
fn grouping_overrides_precedence() {
    assert_eq!(evaluate("(a|b)&!c", &flags(&["a", "c"])), Ok(false));
    assert_eq!(evaluate("(a|b)&!c", &flags(&["a"])), Ok(true));
}

#[test]
fn and_binds_tighter_than_or() {
    assert_eq!(evaluate("a|b&c", &flags(&["a"])), Ok(true));
    assert_eq!(evaluate("(a|b)&c", &flags(&["a"])), Ok(false));
}

#[test]
fn negation_may_be_repeated() {
    assert_eq!(evaluate("!!a", &flags(&["a"])), Ok(true));
    assert_eq!(evaluate("!!!a", &flags(&["a"])), Ok(false));
    assert_eq!(evaluate("!(!a | b)", &flags(&["a"])), Ok(true));
}

#[test]
fn malformed_input_names_its_error() {
    let none = flags(&[]);
    assert_eq!(evaluate("(", &none), Err(ParseError::UnexpectedEnd));
    assert_eq!(evaluate("", &none), Err(ParseError::UnexpectedEnd));
    assert_eq!(evaluate("   ", &none), Err(ParseError::UnexpectedEnd));
    assert_eq!(evaluate("&", &none), Err(ParseError::ExpectedOperand { position: 0 }));
    assert_eq!(evaluate("a & | b", &none), Err(ParseError::ExpectedOperand { position: 2 }));
    assert_eq!(evaluate("nightly &", &none), Err(ParseError::UnexpectedEnd));
    assert_eq!(evaluate("!", &none), Err(ParseError::UnexpectedEnd));
    assert_eq!(
        evaluate("(nightly", &none),
        Err(ParseError::MissingClosingParenthesis { position: 2 })
    );
    assert_eq!(
        evaluate("(a b)", &none),
        Err(ParseError::MissingClosingParenthesis { position: 2 })
    );
    assert_eq!(evaluate("nightly)", &none), Err(ParseError::TrailingToken { position: 1 }));
    assert_eq!(evaluate("a b", &none), Err(ParseError::TrailingToken { position: 1 }));
    assert_eq!(
        evaluate("a & b?", &none),
        Err(ParseError::UnexpectedCharacter { character: '?', position: 5 })
    );
    assert_eq!(
        evaluate("feature:test", &none),
        Err(ParseError::UnexpectedCharacter { character: ':', position: 7 })
    );
}

#[test]
fn identifiers_are_ascii_words() {
    let declared = flags(&["my-flag_2", "X"]);
    assert_eq!(evaluate("my-flag_2", &declared), Ok(true));
    assert_eq!(evaluate("X & !x", &declared), Ok(true));
    assert_eq!(
        evaluate("caf\u{e9}", &declared),
        Err(ParseError::UnexpectedCharacter { character: '\u{e9}', position: 3 })
    );
}

#[test]
fn tokens_follow_the_text() {
    assert_eq!(
        tokenize("(a|!b-c)\t& d\n").unwrap(),
        vec![
            Token::LParen,
            Token::Identifier("a".to_string()),
            Token::Or,
            Token::Not,
            Token::Identifier("b-c".to_string()),
            Token::RParen,
            Token::And,
            Token::Identifier("d".to_string()),
        ]
    );
    assert_eq!(tokenize("").unwrap(), vec![]);
    assert_eq!(
        tokenize("a $"),
        Err(ParseError::UnexpectedCharacter { character: '$', position: 2 })
    );
}

#[test]
fn operands_in_parentheses_are_read_as_they_stand() {
    let declared = flags(&["a", "c"]);
    assert_eq!(evaluate("(a)&(c)", &declared), Ok(true));
    assert_eq!(evaluate("((a)&(b))|(!(c))", &declared), Ok(false));
    assert_eq!(evaluate("((a)&(b))|(!(d))", &declared), Ok(true));
    assert_eq!(evaluate("!((a)|(b))", &declared), Ok(false));
    assert_eq!(evaluate("(((((a)))))", &declared), Ok(true));
}
