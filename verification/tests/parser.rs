use pratt_calc::parse::ast::{
    BinaryOpExprNode, Expr, IntegerExprNode, ParenExprNode, UnaryOpExprNode,
};
use pratt_calc::parse::parser::{
    ParseError, Parser, PRECEDENCE_ADDITION, PRECEDENCE_EXPONENT, PRECEDENCE_FACTORIAL,
    PRECEDENCE_MULTIPLY, PRECEDENCE_UNARYNEG,
};
use pratt_calc::parse::{Position, Token, TokenKind};
use pratt_calc::repl::{lex, parse};

fn token(kind: TokenKind, ind: usize, len: usize, content: &str) -> Token {
    Token { pos: Position { ind, len }, kind, content: content.to_string() }
}

fn integer(ind: usize, content: &str) -> Expr {
    Expr::IntegerExpr(IntegerExprNode {
        value: token(TokenKind::Integer, ind, content.chars().count(), content),
    })
}

fn binary(left: Expr, op: Token, right: Expr) -> Expr {
    Expr::BinaryOpExpr(BinaryOpExprNode { left: Box::new(left), op, right: Box::new(right) })
}

fn unary_node(op: Token, operand: Expr) -> Expr {
    Expr::UnaryOpExpr(UnaryOpExprNode { operand: Box::new(operand), op })
}

fn tree_of(text: &str) -> Result<Expr, ParseError> {
    parse(lex(text.to_string()).unwrap())
}

#[test]
fn the_tiers_rise_from_addition_to_factorial() {
    assert_eq!(PRECEDENCE_ADDITION, 0);
    assert_eq!(PRECEDENCE_MULTIPLY, 1);
    assert_eq!(PRECEDENCE_UNARYNEG, 2);
    assert_eq!(PRECEDENCE_EXPONENT, 3);
    assert_eq!(PRECEDENCE_FACTORIAL, 4);
}

#[test]
fn every_kind_has_its_binding_powers() {
    let table = [
        (TokenKind::Plus, 6, 0, (1, 2)),
        (TokenKind::Minus, 6, 0, (1, 2)),
        (TokenKind::Asterisk, 0, 0, (3, 4)),
        (TokenKind::Slash, 0, 0, (3, 4)),
        (TokenKind::Caret, 0, 0, (8, 7)),
        (TokenKind::Bang, 0, 10, (0, 0)),
        (TokenKind::LParen, 0, 0, (0, 0)),
        (TokenKind::RParen, 0, 0, (0, 0)),
        (TokenKind::Integer, 0, 0, (0, 0)),
        (TokenKind::Eof, 0, 0, (0, 0)),
    ];
    for (kind, prefix, postfix, binary) in table {
        let t = token(kind, 0, 0, "");
        assert_eq!(t.get_unary_precedence_prefix(), prefix);
        assert_eq!(t.get_unary_precedence_postfix(), postfix);
        assert_eq!(t.get_binary_precedence(), binary);
    }
}

#[test]
fn a_looser_operator_takes_the_tighter_as_operand() {
    assert_eq!(
        tree_of("1 + 2 * 3"),
        Ok(binary(
            integer(0, "1"),
            token(TokenKind::Plus, 2, 1, "+"),
            binary(integer(4, "2"), token(TokenKind::Asterisk, 6, 1, "*"), integer(8, "3")),
        ))
    );
    assert_eq!(
        tree_of("1 * 2 + 3"),
        Ok(binary(
            binary(integer(0, "1"), token(TokenKind::Asterisk, 2, 1, "*"), integer(4, "2")),
            token(TokenKind::Plus, 6, 1, "+"),
            integer(8, "3"),
        ))
    );
}

#[test]
fn equal_tiers_group_by_their_associativity() {
    assert_eq!(
        tree_of("1-2-3"),
        Ok(binary(
            binary(integer(0, "1"), token(TokenKind::Minus, 1, 1, "-"), integer(2, "2")),
            token(TokenKind::Minus, 3, 1, "-"),
            integer(4, "3"),
        ))
    );
    assert_eq!(
        tree_of("1^2^3"),
        Ok(binary(
            integer(0, "1"),
            token(TokenKind::Caret, 1, 1, "^"),
            binary(integer(2, "2"), token(TokenKind::Caret, 3, 1, "^"), integer(4, "3")),
        ))
    );
}

#[test]
fn signs_and_factorials_wrap_their_operand() {
    assert_eq!(
        tree_of("-1!"),
        Ok(unary_node(
            token(TokenKind::Minus, 0, 1, "-"),
            unary_node(token(TokenKind::Bang, 2, 1, "!"), integer(1, "1")),
        ))
    );
    assert_eq!(
        tree_of("-1^2"),
        Ok(unary_node(
            token(TokenKind::Minus, 0, 1, "-"),
            binary(integer(1, "1"), token(TokenKind::Caret, 2, 1, "^"), integer(3, "2")),
        ))
    );
    assert_eq!(
        tree_of("-1*2"),
        Ok(binary(
            unary_node(token(TokenKind::Minus, 0, 1, "-"), integer(1, "1")),
            token(TokenKind::Asterisk, 2, 1, "*"),
            integer(3, "2"),
        ))
    );
}

#[test]
fn parentheses_keep_their_tokens() {
    assert_eq!(
        tree_of("(7)"),
        Ok(Expr::ParenExpr(ParenExprNode {
            lparen: token(TokenKind::LParen, 0, 1, "("),
            expr: Box::new(integer(1, "7")),
            rparen: token(TokenKind::RParen, 2, 1, ")"),
        }))
    );
}

#[test]
fn a_parser_reads_up_to_the_first_end_of_input() {
    let tokens = vec![
        token(TokenKind::Integer, 0, 1, "1"),
        token(TokenKind::Eof, 1, 0, ""),
        token(TokenKind::Integer, 2, 1, "2"),
        token(TokenKind::Eof, 3, 0, ""),
    ];
    assert_eq!(parse(tokens), Ok(integer(0, "1")));
}

#[test]
fn a_parser_goes_on_from_where_it_stopped() {
    let tokens = lex("1 2".to_string()).unwrap();
    let mut parser = Parser::new(tokens);
    assert_eq!(
        parser.parse(),
        Err(ParseError::TrailingInput { token: token(TokenKind::Integer, 2, 1, "2") })
    );
    assert_eq!(parser.parse(), Ok(integer(2, "2")));
}

#[test]
fn an_operator_cannot_start_an_operand() {
    for (text, kind, content) in [
        ("*", TokenKind::Asterisk, "*"),
        ("/", TokenKind::Slash, "/"),
        ("^", TokenKind::Caret, "^"),
        ("!", TokenKind::Bang, "!"),
        (")", TokenKind::RParen, ")"),
    ] {
        assert_eq!(
            tree_of(text),
            Err(ParseError::UnexpectedToken { token: token(kind, 0, 1, content) })
        );
    }
}

#[test]
fn a_tree_draws_a_line_for_each_node() {
    assert_eq!(
        tree_of("1 + 2").unwrap().pretty_print(),
        "\u{2514}\u{2500}\u{2500} BinaryOp +\n    \u{251c}\u{2500}\u{2500} Integer 1\n    \u{2514}\u{2500}\u{2500} Integer 2\n"
    );
    assert_eq!(tree_of("42").unwrap().pretty_print(), "\u{2514}\u{2500}\u{2500} Integer 42\n");
}

#[test]
fn a_bar_runs_down_beside_the_children_of_a_left_operand() {
    let drawing = tree_of("(1 - 2)! * -3").unwrap().pretty_print();
    let expected = [
        "\u{2514}\u{2500}\u{2500} BinaryOp *",
        "    \u{251c}\u{2500}\u{2500} UnaryOp !",
        "    |   \u{2514}\u{2500}\u{2500} ParenExpr",
        "    |       \u{2514}\u{2500}\u{2500} BinaryOp -",
        "    |           \u{251c}\u{2500}\u{2500} Integer 1",
        "    |           \u{2514}\u{2500}\u{2500} Integer 2",
        "    \u{2514}\u{2500}\u{2500} UnaryOp -",
        "        \u{2514}\u{2500}\u{2500} Integer 3",
        "",
    ];
    assert_eq!(drawing, expected.join("\n"));
}

#[test]
fn a_parsed_tree_is_well_formed() {
    for text in ["1", "-1", "1!", "(1)", "1 + 2 * 3 ^ 4 / 5 - 6", "-(8 + 8) * 2 ^ 2!"] {
        assert!(tree_of(text).unwrap().is_well_formed());
    }
}
