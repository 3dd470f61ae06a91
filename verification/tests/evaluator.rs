use pratt_calc::eval::{interp, EvalError};
use pratt_calc::parse::ast::{
    BinaryOpExprNode, Expr, IntegerExprNode, ParenExprNode, UnaryOpExprNode,
};
use pratt_calc::parse::{Position, Token, TokenKind};

fn token(kind: TokenKind, content: &str) -> Token {
    Token { pos: Position { ind: 0, len: 0 }, kind, content: content.to_string() }
}

fn integer(content: &str) -> Expr {
    Expr::IntegerExpr(IntegerExprNode { value: token(TokenKind::Integer, content) })
}

fn binary(left: Expr, kind: TokenKind, right: Expr) -> Expr {
    Expr::BinaryOpExpr(BinaryOpExprNode {
        left: Box::new(left),
        op: token(kind, ""),
        right: Box::new(right),
    })
}

fn unary(kind: TokenKind, operand: Expr) -> Expr {
    Expr::UnaryOpExpr(UnaryOpExprNode { operand: Box::new(operand), op: token(kind, "") })
}

fn malformed(text: &str) -> Result<i64, EvalError> {
    Err(EvalError::MalformedLiteral { text: text.to_string() })
}

#[test]
fn a_literal_may_carry_a_sign() {
    assert_eq!(interp(&integer("+5")), Ok(5));
    assert_eq!(interp(&integer("-5")), Ok(-5));
    assert_eq!(interp(&integer("-0")), Ok(0));
    assert_eq!(interp(&integer("-9223372036854775808")), Ok(i64::MIN));
    assert_eq!(interp(&integer("+9223372036854775807")), Ok(i64::MAX));
    assert_eq!(interp(&integer("-9_223_372_036_854_775_808")), Ok(i64::MIN));
}

#[test]
fn a_literal_needs_a_digit_in_front() {
    for text in ["", "+", "-", "_", "_1", "+_1", "--1", "+-1", " 1", "1 ", "1+", "a", "1a", "0x10", "1.0"]
    {
        assert_eq!(interp(&integer(text)), malformed(text));
    }
}

#[test]
fn a_literal_beyond_64_bits_is_malformed() {
    for text in [
        "9223372036854775808",
        "+9223372036854775808",
        "-9223372036854775809",
        "18446744073709551616",
        "100000000000000000000",
        "-100000000000000000000",
    ] {
        assert_eq!(interp(&integer(text)), malformed(text));
    }
}

#[test]
fn a_long_literal_that_fits_is_read() {
    assert_eq!(interp(&integer("000000000000000000000000000000009223372036854775807")), Ok(i64::MAX));
    assert_eq!(interp(&integer("0_0_0")), Ok(0));
}

#[test]
fn each_operator_does_its_arithmetic() {
    assert_eq!(interp(&binary(integer("7"), TokenKind::Plus, integer("5"))), Ok(12));
    assert_eq!(interp(&binary(integer("7"), TokenKind::Minus, integer("5"))), Ok(2));
    assert_eq!(interp(&binary(integer("7"), TokenKind::Asterisk, integer("5"))), Ok(35));
    assert_eq!(interp(&binary(integer("7"), TokenKind::Slash, integer("5"))), Ok(1));
    assert_eq!(interp(&binary(integer("7"), TokenKind::Caret, integer("5"))), Ok(16807));
    assert_eq!(interp(&unary(TokenKind::Plus, integer("7"))), Ok(7));
    assert_eq!(interp(&unary(TokenKind::Minus, integer("7"))), Ok(-7));
    assert_eq!(interp(&unary(TokenKind::Bang, integer("7"))), Ok(5040));
}

#[test]
fn parentheses_leave_the_value() {
    let tree = Expr::ParenExpr(ParenExprNode {
        lparen: token(TokenKind::LParen, "("),
        expr: Box::new(integer("12")),
        rparen: token(TokenKind::RParen, ")"),
    });
    assert_eq!(interp(&tree), Ok(12));
}

#[test]
fn each_failure_has_its_cause() {
    assert_eq!(
        interp(&binary(integer("1"), TokenKind::Slash, integer("0"))),
        Err(EvalError::DivisionByZero)
    );
    assert_eq!(
        interp(&binary(integer("1"), TokenKind::Caret, integer("-1"))),
        Err(EvalError::InvalidExponent)
    );
    assert_eq!(
        interp(&unary(TokenKind::Bang, integer("-1"))),
        Err(EvalError::InvalidFactorialOperand)
    );
    assert_eq!(
        interp(&binary(integer("9223372036854775807"), TokenKind::Plus, integer("1"))),
        Err(EvalError::Overflow)
    );
    assert_eq!(interp(&integer("one")), malformed("one"));
}

#[test]
fn the_least_integer_has_no_negative() {
    assert_eq!(
        interp(&unary(TokenKind::Minus, integer("-9223372036854775808"))),
        Err(EvalError::Overflow)
    );
    assert_eq!(
        interp(&binary(integer("-9223372036854775808"), TokenKind::Slash, integer("-1"))),
        Err(EvalError::Overflow)
    );
    assert_eq!(
        interp(&binary(integer("-9223372036854775808"), TokenKind::Asterisk, integer("-1"))),
        Err(EvalError::Overflow)
    );
    assert_eq!(
        interp(&binary(integer("-9223372036854775808"), TokenKind::Slash, integer("1"))),
        Ok(i64::MIN)
    );
    assert_eq!(
        interp(&binary(integer("-9223372036854775808"), TokenKind::Caret, integer("1"))),
        Ok(i64::MIN)
    );
}

#[test]
fn a_malformed_operand_fails_before_the_operator() {
    assert_eq!(
        interp(&binary(integer("x"), TokenKind::Slash, integer("0"))),
        malformed("x")
    );
    assert_eq!(
        interp(&binary(integer("1"), TokenKind::Slash, integer("y"))),
        malformed("y")
    );
    assert_eq!(
        interp(&binary(integer("x"), TokenKind::Plus, integer("y"))),
        malformed("x")
    );
}

#[test]
fn a_tree_is_well_formed_where_each_token_is_in_its_place() {
    assert!(integer("1").is_well_formed());
    assert!(integer("not a number").is_well_formed());
    for kind in [
        TokenKind::Plus,
        TokenKind::Minus,
        TokenKind::Asterisk,
        TokenKind::Slash,
        TokenKind::Caret,
    ] {
        assert!(binary(integer("1"), kind, integer("2")).is_well_formed());
    }
    for kind in [TokenKind::Plus, TokenKind::Minus, TokenKind::Bang] {
        assert!(unary(kind, integer("1")).is_well_formed());
    }
    for kind in
        [TokenKind::Bang, TokenKind::LParen, TokenKind::RParen, TokenKind::Integer, TokenKind::Eof]
    {
        assert!(!binary(integer("1"), kind, integer("2")).is_well_formed());
    }
    for kind in [
        TokenKind::Asterisk,
        TokenKind::Slash,
        TokenKind::Caret,
        TokenKind::LParen,
        TokenKind::RParen,
        TokenKind::Integer,
        TokenKind::Eof,
    ] {
        assert!(!unary(kind, integer("1")).is_well_formed());
    }
    assert!(!Expr::IntegerExpr(IntegerExprNode { value: token(TokenKind::Plus, "1") })
        .is_well_formed());
}

#[test]
fn a_misplaced_token_deep_in_a_tree_is_found() {
    let bad = unary(TokenKind::Eof, integer("1"));
    assert!(!binary(integer("1"), TokenKind::Plus, bad).is_well_formed());
    let bad = unary(TokenKind::Eof, integer("1"));
    assert!(!binary(bad, TokenKind::Plus, integer("1")).is_well_formed());
    let bad = unary(TokenKind::Eof, integer("1"));
    assert!(!unary(TokenKind::Minus, bad).is_well_formed());
    let paren = |lparen, rparen, inner| {
        Expr::ParenExpr(ParenExprNode {
            lparen: token(lparen, "("),
            expr: Box::new(inner),
            rparen: token(rparen, ")"),
        })
    };
    assert!(paren(TokenKind::LParen, TokenKind::RParen, integer("1")).is_well_formed());
    assert!(!paren(TokenKind::RParen, TokenKind::RParen, integer("1")).is_well_formed());
    assert!(!paren(TokenKind::LParen, TokenKind::LParen, integer("1")).is_well_formed());
    let bad = unary(TokenKind::Eof, integer("1"));
    assert!(!paren(TokenKind::LParen, TokenKind::RParen, bad).is_well_formed());
}
