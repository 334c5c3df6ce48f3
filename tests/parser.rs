use apl::array::Error;
use apl::token::{parse, Token};

#[test]
fn test_parser() {
    assert_eq!(parse(""), Ok(vec![]));
    assert_eq!(parse("a"), Ok(vec![Token::Variable("a".to_string())]));
    assert_eq!(parse("abc"), Ok(vec![Token::Variable("abc".to_string())]));
    assert_eq!(parse("1"), Ok(vec![Token::Number(1)]));
    assert_eq!(parse("123"), Ok(vec![Token::Number(123)]));
    assert_eq!(
        parse("1+2"),
        Ok(vec![Token::Number(1), Token::Verb('+'), Token::Number(2)])
    );
    assert!(parse("1.2").is_err());
}

#[test]
fn empty_line_has_no_tokens() {
    assert_eq!(parse(""), Ok(vec![]));
}

#[test]
fn letters_form_one_variable() {
    assert_eq!(parse("abc"), Ok(vec![Token::Variable("abc".to_string())]));
}

#[test]
fn dot_is_rejected() {
    assert_eq!(parse("1.2"), Err(Error::Lex('.')));
}

#[test]
fn space_is_rejected() {
    assert_eq!(parse("1 2"), Err(Error::Lex(' ')));
}

#[test]
fn uppercase_is_rejected() {
    assert_eq!(parse("aB"), Err(Error::Lex('B')));
}

#[test]
fn runs_are_maximal() {
    assert_eq!(
        parse("ab12cd#,"),
        Ok(vec![
            Token::Variable("ab".to_string()),
            Token::Number(12),
            Token::Variable("cd".to_string()),
            Token::Verb('#'),
            Token::Verb(','),
        ])
    );
}

#[test]
fn every_verb_symbol_is_a_token() {
    assert_eq!(
        parse("+{~<#,="),
        Ok(vec![
            Token::Verb('+'),
            Token::Verb('{'),
            Token::Verb('~'),
            Token::Verb('<'),
            Token::Verb('#'),
            Token::Verb(','),
            Token::Verb('='),
        ])
    );
}

#[test]
fn largest_number_literal() {
    assert_eq!(
        parse("9223372036854775807"),
        Ok(vec![Token::Number(9223372036854775807)])
    );
}

#[test]
fn number_literal_too_large() {
    assert_eq!(parse("9223372036854775808"), Err(Error::TooLarge));
}

#[test]
fn first_error_wins() {
    assert_eq!(parse("1.99999999999999999999"), Err(Error::Lex('.')));
}
