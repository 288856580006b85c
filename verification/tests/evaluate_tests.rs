use calculator::evaluate::{evaluate, EvalError};
use calculator::lexer::{lex, TokenType};
use calculator::parser::{parse, Expr, ExprOperation, Factor, ParseError, Term, TermOpt};

fn value(text: &str) -> i64 {
    evaluate(text).unwrap()
}

fn parse_error(text: &str) -> ParseError {
    match evaluate(text) {
        Err(EvalError::Parse(pe)) => pe,
        other => panic!("expected a parse error for {:?}, got {:?}", text, other),
    }
}

#[test]
fn operators_compose_as_on_the_parts() {
    // Each composite line equals the operator applied to its parts' values.
    assert_eq!(value("(1+2)+(3+4)"), value("1+2") + value("3+4"));
    assert_eq!(value("(2*5)-(3*3)"), value("2*5") - value("3*3"));
    assert_eq!(value("(1+2)*(3+4)"), value("1+2") * value("3+4"));
    assert_eq!(value("7-2-3"), (7 - 2) - 3);
    assert_eq!(value("100-10+5"), (100 - 10) + 5);
    // Composing two accepted lines whose combined value leaves i64's range
    // is the range error.
    assert!(matches!(
        evaluate("(9223372036854775806)+(9)"),
        Err(EvalError::OutOfRange)
    ));
}

#[test]
fn precedence_respected() {
    assert_eq!(value("(1+2)*3"), 9);
    assert_eq!(value("1+2*3"), 7);
    assert_eq!(value("2*3+4*5"), 26);
}

#[test]
fn unary_minus_distributes_over_groups() {
    assert_eq!(value("-(1+2)"), -3);
    assert_eq!(value("-(1-2)"), 1);
    assert_eq!(value("--5"), 5);
    assert_eq!(value("-(2*3)-1"), -7);
    assert_eq!(value("2*-3"), -6);
}

#[test]
fn unary_plus_is_accepted() {
    assert_eq!(value("+5"), 5);
    assert_eq!(value("1++2"), 3);
}

#[test]
fn whitespace_insignificant() {
    assert_eq!(value("1 + 2"), value("1+2"));
    assert_eq!(value("1+2"), 3);
    assert_eq!(value(" ( 1 + 2 ) * 3 "), 9);
    assert_eq!(value("1\t+\u{a0}2"), 3);
}

#[test]
fn trailing_tokens_rejected() {
    match parse_error("1 2") {
        ParseError::TrailingTokens { remaining } => assert_eq!(remaining, "2"),
        other => panic!("expected trailing tokens, got {:?}", other),
    }
    match parse_error("1 2 3") {
        ParseError::TrailingTokens { remaining } => assert_eq!(remaining, "2 3"),
        other => panic!("expected trailing tokens, got {:?}", other),
    }
}

#[test]
fn unbalanced_parentheses_rejected() {
    match parse_error("(1+2") {
        ParseError::UnexpectedEof { expected } => assert_eq!(expected, TokenType::ClosingParen),
        other => panic!("expected end-of-input error, got {:?}", other),
    }
    match parse_error("1+2)") {
        ParseError::TrailingTokens { remaining } => assert_eq!(remaining, ")"),
        other => panic!("expected trailing tokens, got {:?}", other),
    }
}

#[test]
fn empty_and_blank_input_fail_for_want_of_a_number() {
    for text in ["", "   ", " \t "] {
        match parse_error(text) {
            ParseError::UnexpectedEof { expected } => assert_eq!(expected, TokenType::Number),
            other => panic!("expected end-of-input error, got {:?}", other),
        }
    }
}

#[test]
fn evaluation_is_repeatable() {
    let line = "(1+2)*3-4";
    assert_eq!(evaluate(line).unwrap(), evaluate(line).unwrap());
    let bad = "1 2";
    let first = format!("{:?}", evaluate(bad));
    let second = format!("{:?}", evaluate(bad));
    assert_eq!(first, second);
}

#[test]
fn unexpected_token_reports_kind_and_position() {
    match parse_error("1**2") {
        ParseError::UnexpectedToken { expected, found } => {
            assert_eq!(expected, TokenType::Number);
            assert_eq!(found.ttype, TokenType::Multiplication);
            assert_eq!(found.value, "*");
            assert_eq!(found.pos, 2);
        },
        other => panic!("expected an unexpected-token error, got {:?}", other),
    }
    match parse_error("()") {
        ParseError::UnexpectedToken { expected, found } => {
            assert_eq!(expected, TokenType::Number);
            assert_eq!(found.ttype, TokenType::ClosingParen);
            assert_eq!(found.pos, 1);
        },
        other => panic!("expected an unexpected-token error, got {:?}", other),
    }
}

#[test]
fn identifiers_lex_but_do_not_parse() {
    match parse_error("x") {
        ParseError::UnexpectedToken { expected, found } => {
            assert_eq!(expected, TokenType::Number);
            assert_eq!(found.ttype, TokenType::Identifier);
            assert_eq!(found.value, "x");
        },
        other => panic!("expected an unexpected-token error, got {:?}", other),
    }
}

#[test]
fn invalid_character_reported_from_evaluate() {
    match evaluate("1+\u{20ac}") {
        Err(EvalError::Lex(le)) => {
            assert_eq!(format!("{:?}", le), "InvalidCharacter('\u{20ac}')");
        },
        other => panic!("expected a lex error, got {:?}", other),
    }
}

#[test]
fn largest_literal_evaluates_and_larger_is_rejected() {
    assert_eq!(value("9223372036854775807"), i64::MAX);
    match parse_error("9223372036854775808") {
        ParseError::InvalidNumber { text } => assert_eq!(text, "9223372036854775808"),
        other => panic!("expected an invalid-number error, got {:?}", other),
    }
}

#[test]
fn out_of_range_evaluation_is_reported() {
    match evaluate("9223372036854775807+1") {
        Err(EvalError::OutOfRange) => {},
        other => panic!("expected an out-of-range error, got {:?}", other),
    }
    match evaluate("-9223372036854775807-2") {
        Err(EvalError::OutOfRange) => {},
        other => panic!("expected an out-of-range error, got {:?}", other),
    }
}

#[test]
fn parse_builds_the_grammar_tree() {
    let e = parse(lex("1+2*3").unwrap()).unwrap();
    assert!(matches!(e.term.factor, Factor::Number(1)));
    assert!(matches!(e.term.opt, TermOpt::Empty));
    assert_eq!(e.opts.len(), 1);
    assert_eq!(e.opts[0].0, ExprOperation::Addition);
    assert!(matches!(e.opts[0].1.factor, Factor::Number(2)));
    match &e.opts[0].1.opt {
        TermOpt::TermOpt(f, rest) => {
            assert!(matches!(f, Factor::Number(3)));
            assert!(matches!(**rest, TermOpt::Empty));
        },
        other => panic!("expected a product chain, got {:?}", other),
    }
}

#[test]
fn eval_walks_a_hand_built_tree() {
    // 2 * 3 - 4
    let product = Term {
        factor: Factor::Number(2),
        opt: TermOpt::TermOpt(Factor::Number(3), Box::new(TermOpt::Empty)),
    };
    assert_eq!(product.eval(), Some(6));
    let e = Expr {
        term: product,
        opts: vec![(
            ExprOperation::Subtraction,
            Term { factor: Factor::Number(4), opt: TermOpt::Empty },
        )],
    };
    assert_eq!(e.eval(), Some(2));
}

#[test]
fn termopt_eval_is_the_chain_product() {
    let chain = TermOpt::TermOpt(
        Factor::Number(3),
        Box::new(TermOpt::TermOpt(Factor::Number(4), Box::new(TermOpt::Empty))),
    );
    assert_eq!(chain.eval(), Some(12));
    assert_eq!(TermOpt::Empty.eval(), Some(1));
}

#[test]
fn factor_eval_and_neg() {
    assert_eq!(Factor::Number(5).eval(), Some(5));
    let negated = Factor::Number(5).neg();
    assert_eq!(negated.eval(), Some(-5));
    let back = negated.neg();
    assert_eq!(back.eval(), Some(5));
    let group = parse(lex("(1+2)").unwrap()).unwrap();
    let negated_group = group.term.factor.neg();
    assert_eq!(negated_group.eval(), Some(-3));
}

#[test]
fn deep_nesting_and_mixed_chains() {
    assert_eq!(value("((((5))))"), 5);
    assert_eq!(value("2*(3+4*(5-3))-1"), 21);
    assert_eq!(value("0*9223372036854775807"), 0);
}
