use calc::evaluate::{evaluate_lisp, evaluate_rpn};
use calc::lexer::Lexer;
use calc::parser::{Expr, Parser};
use calc::token::TokenType;

fn tree(source: &str) -> Expr {
    let mut l = Lexer::from_string(String::from(source));
    let mut p = Parser::new(l.lex_tokens().unwrap());
    p.parse().unwrap()
}

#[test]
fn rpn_puts_operators_after_operands() {
    assert_eq!(evaluate_rpn(tree("2 + 3 * 4")), " 2 3 4 * +");
    assert_eq!(evaluate_rpn(tree("(2 + 3) * 4")), " 2 3 + 4 *");
    assert_eq!(evaluate_rpn(tree("2 ** 3 ** 2")), " 2 3 2 ^ ^");
    assert_eq!(evaluate_rpn(tree("10 / 2 - 1")), " 10 2 / 1 -");
}

#[test]
fn rpn_of_unary_and_extremes() {
    assert_eq!(evaluate_rpn(tree("-2 ** 2")), " 2 2 ^ neg");
    assert_eq!(evaluate_rpn(tree("+7")), " 7");
    assert_eq!(evaluate_rpn(Expr::Int(isize::MIN)), " -9223372036854775808");
    assert_eq!(evaluate_rpn(Expr::Int(0)), " 0");
    let odd = Expr::Binary {
        left: Box::new(Expr::Int(1)),
        op: TokenType::Comma,
        right: Box::new(Expr::Int(2)),
    };
    assert_eq!(evaluate_rpn(odd), " 1 2 ?");
}

#[test]
fn lisp_is_fully_parenthesised_prefix() {
    assert_eq!(evaluate_lisp(tree("2 + 3 * 4")), "( + 2( * 3 4))");
    assert_eq!(evaluate_lisp(tree("(2 + 3) * 4")), "( *( + 2 3) 4)");
    assert_eq!(evaluate_lisp(tree("-2 ** 2")), "( neg( ^ 2 2))");
    assert_eq!(evaluate_lisp(tree("+5")), " 5");
    assert_eq!(evaluate_lisp(Expr::Int(-42)), " -42");
}
