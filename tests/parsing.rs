use loxidize::ast::{Ast, BinOpKind, Expr, ExprKind};
use loxidize::lexer::Lexer;
use loxidize::parser::{CompileErrorKind, Parser};
use loxidize::token::Token;

fn parse_finite(text: &[u8]) -> Option<u64> {
    let text = std::str::from_utf8(text).ok()?;
    let value: f64 = text.parse().ok()?;
    if value.is_finite() {
        Some(value.to_bits())
    } else {
        None
    }
}

/// The tree written with parentheses around every binary node.
fn shape(e: &Expr) -> String {
    match &e.kind {
        ExprKind::Lit(lit) => format!("{}", f64::from_bits(lit.symbol)),
        ExprKind::Binary(op, l, r) => {
            let sign = match op {
                BinOpKind::Add => "+",
                BinOpKind::Sub => "-",
                BinOpKind::Mul => "*",
                BinOpKind::Div => "/",
            };
            format!("({} {} {})", shape(l), sign, shape(r))
        }
    }
}

fn parse(source: &str) -> Ast {
    let mut parser = Parser::new(Lexer::new(source), &parse_finite);
    parser.parse_root().expect("the source parses")
}

#[test]
fn equal_precedence_groups_left() {
    assert_eq!(shape(&parse("2 - 1 - 1").root), "((2 - 1) - 1)");
    assert_eq!(shape(&parse("1 + 2 - 3 + 4").root), "(((1 + 2) - 3) + 4)");
}

#[test]
fn tighter_operators_group_first() {
    assert_eq!(shape(&parse("1 - 2 * 3 - 4").root), "((1 - (2 * 3)) - 4)");
    assert_eq!(shape(&parse("1 * 2 / 3").root), "(1 * (2 / 3))");
    assert_eq!(shape(&parse("8 / 4 / 2 * 3 + 1").root), "((((8 / 4) / 2) * 3) + 1)");
}

#[test]
fn literal_alone() {
    assert_eq!(shape(&parse("  7.5 ").root), "7.5");
    assert_eq!(parse("\n\n3").root.line, 3);
}

#[test]
fn parse_errors_stop_the_unit() {
    let mut parser = Parser::new(Lexer::new("1 + + 2"), &parse_finite);
    let err = parser.parse_root().unwrap_err();
    assert_eq!(err.kind, CompileErrorKind::ExpectExpression);
    assert_eq!((err.span.start, err.span.end), (4, 5));
}

#[test]
fn check_and_eat() {
    let mut parser = Parser::new(Lexer::new("+ 1"), &parse_finite);
    parser.advance().unwrap();
    assert!(parser.check(Token::Plus));
    assert!(!parser.check(Token::Minus));
    assert_eq!(parser.eat(Token::Minus), Ok(false));
    assert_eq!(parser.eat(Token::Plus), Ok(true));
    assert!(parser.check(Token::Number(1.0f64.to_bits())));
}

#[test]
fn parse_num_literal_consumes_number() {
    let mut parser = Parser::new(Lexer::new("4 +"), &parse_finite);
    parser.advance().unwrap();
    let e = parser.parse_num_literal().unwrap();
    assert_eq!(shape(&e), "4");
    assert!(parser.check(Token::Plus));
    let err = parser.parse_num_literal().unwrap_err();
    assert_eq!(err.kind, CompileErrorKind::ExpectExpression);
}
