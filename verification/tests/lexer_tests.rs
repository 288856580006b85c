use calculator::lexer::{lex, LexError, TokenType};

#[test]
fn lex_simple_expression_tokens() {
    let tokens = lex("1 + 2").unwrap();
    assert_eq!(tokens.len(), 3);
    assert_eq!(tokens[0].ttype, TokenType::Number);
    assert_eq!(tokens[0].value, "1");
    assert_eq!(tokens[0].pos, 0);
    assert_eq!(tokens[1].ttype, TokenType::Addition);
    assert_eq!(tokens[1].value, "+");
    assert_eq!(tokens[1].pos, 2);
    assert_eq!(tokens[2].ttype, TokenType::Number);
    assert_eq!(tokens[2].value, "2");
    assert_eq!(tokens[2].pos, 4);
}

#[test]
fn lex_all_operator_kinds() {
    let tokens = lex("(-*)+").unwrap();
    let kinds: Vec<TokenType> = tokens.iter().map(|t| t.ttype).collect();
    assert_eq!(
        kinds,
        vec![
            TokenType::OpeningParen,
            TokenType::Subtraction,
            TokenType::Multiplication,
            TokenType::ClosingParen,
            TokenType::Addition,
        ]
    );
}

#[test]
fn lex_maximal_digit_run() {
    let tokens = lex("123 45").unwrap();
    assert_eq!(tokens.len(), 2);
    assert_eq!(tokens[0].value, "123");
    assert_eq!(tokens[0].pos, 0);
    assert_eq!(tokens[1].value, "45");
    assert_eq!(tokens[1].pos, 4);
}

#[test]
fn lex_identifier_run_takes_nonspace_ascii() {
    let tokens = lex("a+b 7").unwrap();
    assert_eq!(tokens.len(), 2);
    assert_eq!(tokens[0].ttype, TokenType::Identifier);
    assert_eq!(tokens[0].value, "a+b");
    assert_eq!(tokens[1].ttype, TokenType::Number);
    assert_eq!(tokens[1].value, "7");
}

#[test]
fn lex_empty_and_blank_input_yield_no_tokens() {
    assert_eq!(lex("").unwrap().len(), 0);
    assert_eq!(lex(" \t  ").unwrap().len(), 0);
}

#[test]
fn lex_rejects_non_ascii_character() {
    match lex("1+\u{20ac}") {
        Err(LexError::InvalidCharacter(c)) => assert_eq!(c, '\u{20ac}'),
        other => panic!("expected an invalid-character error, got {:?}", other),
    }
}

#[test]
fn lex_skips_unicode_whitespace() {
    let tokens = lex("1\u{a0}+\u{2003}2").unwrap();
    assert_eq!(tokens.len(), 3);
    assert_eq!(tokens[0].value, "1");
    assert_eq!(tokens[1].value, "+");
    assert_eq!(tokens[2].value, "2");
    assert_eq!(tokens[2].pos, 4);
}
