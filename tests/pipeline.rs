use calc::evaluate::{evaluate, EvalError};
use calc::lexer::Lexer;
use calc::parser::{Expr, ParseErrorKind, Parser};
use calc::token::TokenType;

fn parse_source(source: &str) -> Result<Expr, calc::parser::ParseError> {
    let mut l = Lexer::from_string(String::from(source));
    let tokens = l.lex_tokens().unwrap();
    let mut p = Parser::new(tokens);
    p.parse()
}

fn eval_source(source: &str) -> Result<isize, EvalError> {
    evaluate(parse_source(source).unwrap())
}

#[test]
fn precedence_of_product_over_sum() {
    assert_eq!(eval_source("2 + 3 * 4"), Ok(14));
}

#[test]
fn grouping_overrides_precedence() {
    assert_eq!(eval_source("(2 + 3) * 4"), Ok(20));
}

#[test]
fn power_is_right_associative() {
    assert_eq!(eval_source("2 ** 3 ** 2"), Ok(512));
}

#[test]
fn unary_minus_applies_to_power() {
    assert_eq!(eval_source("-2 ** 2"), Ok(-4));
    assert_eq!(eval_source("+3"), Ok(3));
}

#[test]
fn division_truncates() {
    assert_eq!(eval_source("7 / 2"), Ok(3));
    assert_eq!(eval_source("-7 / 2"), Ok(-3));
    assert_eq!(eval_source("7 / -2"), Ok(-3));
}

#[test]
fn division_by_zero_fails() {
    assert_eq!(eval_source("7 / 0"), Err(EvalError::DivisionByZero));
}

#[test]
fn subtraction_is_left_associative() {
    assert_eq!(eval_source("10 - 3 - 2"), Ok(5));
    assert_eq!(eval_source("100 / 10 / 5"), Ok(2));
}

#[test]
fn negative_exponent_fails() {
    assert_eq!(eval_source("2 ** -1"), Err(EvalError::NegativeExponent));
}

#[test]
fn powers_of_small_bases() {
    assert_eq!(eval_source("0 ** 0"), Ok(1));
    assert_eq!(eval_source("0 ** 5"), Ok(0));
    assert_eq!(eval_source("1 ** 1000000"), Ok(1));
    assert_eq!(eval_source("(0 - 1) ** 1000001"), Ok(-1));
    assert_eq!(eval_source("(0 - 2) ** 63"), Ok(isize::MIN));
}

#[test]
fn overflow_fails() {
    assert_eq!(eval_source("2 ** 63"), Err(EvalError::Overflow));
    assert_eq!(eval_source("9223372036854775807 + 1"), Err(EvalError::Overflow));
    assert_eq!(eval_source("3037000500 * 3037000500"), Err(EvalError::Overflow));
    assert_eq!(eval_source("-9223372036854775807 - 1"), Ok(isize::MIN));
    assert_eq!(eval_source("-(-9223372036854775807 - 1)"), Err(EvalError::Overflow));
}

#[test]
fn unsupported_operator_fails() {
    let e = Expr::Binary {
        left: Box::new(Expr::Int(1)),
        op: TokenType::Comma,
        right: Box::new(Expr::Int(2)),
    };
    assert_eq!(evaluate(e), Err(EvalError::UnsupportedOperator));
    let u = Expr::Unary { op: TokenType::Bang, right: Box::new(Expr::Int(2)) };
    assert_eq!(evaluate(u), Err(EvalError::UnsupportedOperator));
}

#[test]
fn unmatched_open_paren_is_syntax_error() {
    let err = parse_source("(").unwrap_err();
    assert_eq!(err.kind, ParseErrorKind::ExpectedParenOrInteger);
    assert_eq!(err.token.token_type, TokenType::Leftparen);
    assert_eq!(err.token.line, 1);
}

#[test]
fn missing_close_paren_is_syntax_error() {
    let err = parse_source("(1 + 2\n").unwrap_err();
    assert_eq!(err.kind, ParseErrorKind::ExpectedClosingParen);
    assert_eq!(err.token.token_type, TokenType::Eof);
    assert_eq!(err.token.line, 2);
}

#[test]
fn leaf_that_is_not_a_number_is_syntax_error() {
    let err = parse_source("1 + *").unwrap_err();
    assert_eq!(err.kind, ParseErrorKind::ExpectedParenOrInteger);
    assert_eq!(err.token.token_type, TokenType::Star);
    let err = parse_source("").unwrap_err();
    assert_eq!(err.kind, ParseErrorKind::ExpectedParenOrInteger);
    assert_eq!(err.token.token_type, TokenType::Eof);
}

#[test]
fn too_large_literal_is_syntax_error() {
    let err = parse_source("9223372036854775808").unwrap_err();
    assert_eq!(err.kind, ParseErrorKind::InvalidInteger);
    assert_eq!(err.token.lexeme, "9223372036854775808");
}

#[test]
fn trailing_tokens_are_left_unread() {
    assert_eq!(eval_source("1 + 2 )"), Ok(3));
}

#[test]
fn tree_shape_keeps_grouping() {
    let e = parse_source("(1)").unwrap();
    match e {
        Expr::Grouping(inner) => assert!(matches!(*inner, Expr::Int(1))),
        _ => panic!("expected a grouping"),
    }
}
