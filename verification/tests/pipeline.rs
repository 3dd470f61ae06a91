use pratt_calc::eval::EvalError;
use pratt_calc::parse::lexer::LexError;
use pratt_calc::parse::parser::ParseError;
use pratt_calc::parse::{Position, Token, TokenKind};
use pratt_calc::repl::{evaluate, Failure};

fn token(kind: TokenKind, ind: usize, len: usize, content: &str) -> Token {
    Token { pos: Position { ind, len }, kind, content: content.to_string() }
}

#[test]
fn literals_evaluate_to_themselves() {
    for n in [0i64, 1, 7, 10, 42, 1000, 4294967296, i64::MAX - 1, i64::MAX] {
        assert_eq!(evaluate(&n.to_string()), Ok(n));
    }
}

#[test]
fn negative_literals_evaluate_to_themselves() {
    for n in [-1i64, -9, -10, -168, -4294967296, -i64::MAX] {
        assert_eq!(evaluate(&n.to_string()), Ok(n));
    }
}

#[test]
fn the_least_integer_cannot_be_written() {
    assert_eq!(
        evaluate("-9223372036854775808"),
        Err(Failure::Eval(EvalError::MalformedLiteral {
            text: "9223372036854775808".to_string()
        }))
    );
    assert_eq!(evaluate("-9223372036854775807 - 1"), Ok(i64::MIN));
}

#[test]
fn leading_zeros_do_not_count() {
    assert_eq!(evaluate("007"), Ok(7));
    assert_eq!(evaluate("0000000000000000000000000012"), Ok(12));
}

#[test]
fn separators_do_not_count() {
    assert_eq!(evaluate("1_000"), Ok(1000));
    assert_eq!(evaluate("1__0_"), Ok(10));
    assert_eq!(evaluate("9_223_372_036_854_775_807"), Ok(i64::MAX));
}

#[test]
fn exponentiation_associates_to_the_right() {
    assert_eq!(evaluate("2 ^ 3 ^ 2"), Ok(512));
    assert_eq!(evaluate("(2 ^ 3) ^ 2"), Ok(64));
}

#[test]
fn subtraction_and_division_associate_to_the_left() {
    assert_eq!(evaluate("10 - 4 - 3"), Ok(3));
    assert_eq!(evaluate("100 / 10 / 5"), Ok(2));
}

#[test]
fn multiplication_binds_tighter_than_addition() {
    assert_eq!(evaluate("2 + 3 * 4"), Ok(14));
    assert_eq!(evaluate("2 * 3 + 4"), Ok(10));
}

#[test]
fn a_sign_binds_looser_than_exponentiation() {
    assert_eq!(evaluate("-2 ^ 2"), Ok(-4));
    assert_eq!(evaluate("(-2) ^ 2"), Ok(4));
}

#[test]
fn a_sign_binds_tighter_than_multiplication() {
    assert_eq!(evaluate("-2 * 3"), Ok(-6));
    assert_eq!(evaluate("2 * -3"), Ok(-6));
    assert_eq!(evaluate("- 2 + 3"), Ok(1));
    assert_eq!(evaluate("--2"), Ok(2));
    assert_eq!(evaluate("+-+2"), Ok(-2));
}

#[test]
fn a_sign_cannot_follow_a_caret() {
    assert_eq!(
        evaluate("2 ^ -1"),
        Err(Failure::Parse(ParseError::UnexpectedToken { token: token(TokenKind::Minus, 4, 1, "-") }))
    );
}

#[test]
fn factorials_chain() {
    assert_eq!(evaluate("2!!!"), Ok(2));
    assert_eq!(evaluate("3!!"), Ok(720));
    assert_eq!(evaluate("0!"), Ok(1));
    assert_eq!(evaluate("1!"), Ok(1));
}

#[test]
fn a_factorial_binds_tighter_than_anything() {
    assert_eq!(evaluate("-3!"), Ok(-6));
    assert_eq!(evaluate("2 ^ 3!"), Ok(64));
    assert_eq!(evaluate("1 + 3!"), Ok(7));
    assert_eq!(evaluate("(1 + 3)!"), Ok(24));
}

#[test]
fn division_rounds_toward_zero() {
    assert_eq!(evaluate("168 / -12"), Ok(-14));
    assert_eq!(evaluate("-7 / 2"), Ok(-3));
    assert_eq!(evaluate("7 / -2"), Ok(-3));
    assert_eq!(evaluate("-7 / -2"), Ok(3));
    assert_eq!(evaluate("7 / 2"), Ok(3));
    assert_eq!(evaluate("0 / 5"), Ok(0));
    assert_eq!(evaluate("1 / 2"), Ok(0));
}

#[test]
fn an_unexpected_character_fails_the_scan() {
    assert_eq!(
        evaluate("2 $ 3"),
        Err(Failure::Lex(LexError::UnexpectedCharacter { character: '$', offset: 2 }))
    );
}

#[test]
fn a_division_by_zero_fails() {
    assert_eq!(evaluate("1 / 0"), Err(Failure::Eval(EvalError::DivisionByZero)));
    assert_eq!(evaluate("0 / 0"), Err(Failure::Eval(EvalError::DivisionByZero)));
    assert_eq!(evaluate("5 / (3 - 3)"), Err(Failure::Eval(EvalError::DivisionByZero)));
}

#[test]
fn a_missing_operand_fails_the_parse() {
    assert_eq!(
        evaluate("2 +"),
        Err(Failure::Parse(ParseError::UnexpectedToken { token: token(TokenKind::Eof, 3, 0, "") }))
    );
}

#[test]
fn an_empty_line_fails_the_parse() {
    assert_eq!(
        evaluate(""),
        Err(Failure::Parse(ParseError::UnexpectedToken { token: token(TokenKind::Eof, 0, 0, "") }))
    );
    assert_eq!(
        evaluate(" \t\r\n"),
        Err(Failure::Parse(ParseError::UnexpectedToken { token: token(TokenKind::Eof, 4, 0, "") }))
    );
}

#[test]
fn whitespace_does_not_count() {
    assert_eq!(evaluate("1+2"), Ok(3));
    assert_eq!(evaluate("  1 \t+\r\n 2  \n"), Ok(3));
}

#[test]
fn a_negative_exponent_fails() {
    assert_eq!(evaluate("2 ^ (-1)"), Err(Failure::Eval(EvalError::InvalidExponent)));
    assert_eq!(evaluate("1 ^ (0 - 5)"), Err(Failure::Eval(EvalError::InvalidExponent)));
}

#[test]
fn a_negative_factorial_fails() {
    assert_eq!(evaluate("(-3)!"), Err(Failure::Eval(EvalError::InvalidFactorialOperand)));
    assert_eq!(evaluate("(0 - 1)!"), Err(Failure::Eval(EvalError::InvalidFactorialOperand)));
}

#[test]
fn results_that_do_not_fit_overflow() {
    let overflow = Err(Failure::Eval(EvalError::Overflow));
    assert_eq!(evaluate("9223372036854775807 + 1"), overflow);
    assert_eq!(evaluate("-9223372036854775807 - 2"), overflow);
    assert_eq!(evaluate("4294967296 * 4294967296"), overflow);
    assert_eq!(evaluate("(-9223372036854775807 - 1) / -1"), overflow);
    assert_eq!(evaluate("-(-9223372036854775807 - 1)"), overflow);
    assert_eq!(evaluate("21!"), overflow);
    assert_eq!(evaluate("9223372036854775807!"), overflow);
    assert_eq!(evaluate("2 ^ 63"), overflow);
    assert_eq!(evaluate("3 ^ 9223372036854775807"), overflow);
    assert_eq!(evaluate("(-2) ^ 64"), overflow);
}

#[test]
fn the_largest_results_fit() {
    assert_eq!(evaluate("20!"), Ok(2432902008176640000));
    assert_eq!(evaluate("2 ^ 62"), Ok(4611686018427387904));
    assert_eq!(evaluate("(-2) ^ 63"), Ok(i64::MIN));
    assert_eq!(evaluate("3 ^ 39"), Ok(4052555153018976267));
    assert_eq!(evaluate("3037000499 * 3037000499"), Ok(9223372030926249001));
}

#[test]
fn powers_of_zero_and_one() {
    assert_eq!(evaluate("0 ^ 0"), Ok(1));
    assert_eq!(evaluate("0 ^ 9223372036854775807"), Ok(0));
    assert_eq!(evaluate("1 ^ 9223372036854775807"), Ok(1));
    assert_eq!(evaluate("(-1) ^ 9223372036854775807"), Ok(-1));
    assert_eq!(evaluate("(-1) ^ 9223372036854775806"), Ok(1));
    assert_eq!(evaluate("7 ^ 0"), Ok(1));
    assert_eq!(evaluate("7 ^ 1"), Ok(7));
}

#[test]
fn a_literal_that_does_not_fit_is_malformed() {
    assert_eq!(
        evaluate("1 + 9223372036854775808"),
        Err(Failure::Eval(EvalError::MalformedLiteral {
            text: "9223372036854775808".to_string()
        }))
    );
    assert_eq!(
        evaluate("99999999999999999999999999"),
        Err(Failure::Eval(EvalError::MalformedLiteral {
            text: "99999999999999999999999999".to_string()
        }))
    );
}

#[test]
fn the_left_operand_fails_first() {
    assert_eq!(evaluate("(1 / 0) + (2 ^ (-1))"), Err(Failure::Eval(EvalError::DivisionByZero)));
    assert_eq!(evaluate("(2 ^ (-1)) + (1 / 0)"), Err(Failure::Eval(EvalError::InvalidExponent)));
    assert_eq!(evaluate("(-1)! * 21!"), Err(Failure::Eval(EvalError::InvalidFactorialOperand)));
}

#[test]
fn an_unclosed_parenthesis_fails_the_parse() {
    assert_eq!(
        evaluate("(1"),
        Err(Failure::Parse(ParseError::UnclosedParen { token: token(TokenKind::Eof, 2, 0, "") }))
    );
    assert_eq!(
        evaluate("(1 2)"),
        Err(Failure::Parse(ParseError::UnclosedParen { token: token(TokenKind::Integer, 3, 1, "2") }))
    );
}

#[test]
fn what_follows_an_expression_fails_the_parse() {
    assert_eq!(
        evaluate("1 2"),
        Err(Failure::Parse(ParseError::TrailingInput { token: token(TokenKind::Integer, 2, 1, "2") }))
    );
    assert_eq!(
        evaluate("1)"),
        Err(Failure::Parse(ParseError::TrailingInput { token: token(TokenKind::RParen, 1, 1, ")") }))
    );
    assert_eq!(
        evaluate("1 ("),
        Err(Failure::Parse(ParseError::TrailingInput { token: token(TokenKind::LParen, 2, 1, "(") }))
    );
}

#[test]
fn empty_parentheses_fail_the_parse() {
    assert_eq!(
        evaluate("()"),
        Err(Failure::Parse(ParseError::UnexpectedToken { token: token(TokenKind::RParen, 1, 1, ")") }))
    );
}

#[test]
fn a_scan_failure_comes_before_a_parse_failure() {
    assert_eq!(
        evaluate("+ + $"),
        Err(Failure::Lex(LexError::UnexpectedCharacter { character: '$', offset: 4 }))
    );
}
