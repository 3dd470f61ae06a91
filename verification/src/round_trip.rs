//! Numbers written out and read back: a literal evaluates to the number
//! it spells.

use crate::eval::interp::{digit_value, digits_value, eval, EvalErrorView};
use crate::parse::ast::ExprView;
use crate::parse::lexer::{
    eof_token, is_digit, is_integer_char, is_literal_body, literal_end, scan, scan_from,
    token_over, LexErrorView,
};
use crate::parse::parser::{
    atom_at, binary_tail, expr_at, parse_tokens, postfix_tail, ParseErrorView,
};
use crate::parse::token::{TokenKind, TokenView};
use crate::repl::{evaluate_text, FailureView};
use crate::text::{decimal, digit_char};
use vstd::prelude::*;

verus! {

/// `decimal(n)` is a run of digits that spells `n`.
pub proof fn lemma_decimal_spells(n: nat)
    ensures
        decimal(n).len() >= 1,
        forall|i: int| 0 <= i < decimal(n).len() ==> is_digit(#[trigger] decimal(n)[i]),
        digits_value(decimal(n)) == n,
    decreases n,
{
    let last = digit_char(n % 10);
    assert(is_digit(last) && digit_value(last) == n % 10);
    assert(decimal(n).last() == last);
    if n < 10 {
        assert(decimal(n).drop_last() =~= Seq::<char>::empty());
        assert(digits_value(Seq::<char>::empty()) == 0);
    } else {
        lemma_decimal_spells(n / 10);
        assert(decimal(n).drop_last() =~= decimal(n / 10));
    }
}

/// An integer literal runs on to the end of a text that holds nothing
/// else behind its start.
pub proof fn lemma_literal_end_of_body(text: Seq<char>, start: int, i: int)
    requires
        0 <= start < i <= text.len(),
        forall|j: int| start <= j < text.len() ==> is_integer_char(#[trigger] text[j], j - start),
    ensures
        literal_end(text, start, i) == text.len(),
    decreases text.len() - i,
{
    if i < text.len() {
        lemma_literal_end_of_body(text, start, i + 1);
    }
}

/// The tokens `first` and an end-of-input token spell the literal `first`.
pub proof fn lemma_parse_single_literal(first: TokenView, end: TokenView)
    requires
        first.kind == TokenKind::Integer,
        end.kind == TokenKind::Eof,
    ensures
        parse_tokens(seq![first, end]) == Ok::<ExprView, ParseErrorView>(
            ExprView::Integer { value: first },
        ),
{
    let tokens = seq![first, end];
    let tree = ExprView::Integer { value: first };
    assert(atom_at(tokens, 0) == Ok::<ExprView, ParseErrorView>(tree));
    assert(postfix_tail(tokens, 1, 0, tree) == tree);
    assert(binary_tail(tokens, 1, 0, tree) == Ok::<ExprView, ParseErrorView>(tree));
    assert(expr_at(tokens, 0, 0) == Ok::<ExprView, ParseErrorView>(tree));
}

/// A text that is one integer literal evaluates to the number that its
/// digits spell, if that fits in 64 bits.
pub proof fn lemma_literal_evaluates(text: Seq<char>)
    requires
        is_literal_body(text),
        digits_value(text) <= i64::MAX,
    ensures
        evaluate_text(text) == Ok::<int, FailureView>(digits_value(text)),
{
    let first = token_over(TokenKind::Integer, text, 0, text.len() as int);
    lemma_literal_end_of_body(text, 0, 1);
    assert(is_integer_char(text[0], 0));
    assert(scan_from(text, text.len() as int) == Ok::<Seq<TokenView>, LexErrorView>(
        seq![eof_token(text)],
    ));
    assert(seq![first] + seq![eof_token(text)] =~= seq![first, eof_token(text)]);
    assert(scan(text) == Ok::<Seq<TokenView>, LexErrorView>(seq![first, eof_token(text)]));
    lemma_parse_single_literal(first, eof_token(text));
    assert(text.subrange(0, text.len() as int) =~= text);
    lemma_digits_value_not_negative(text);
}

/// The digits of a text spell no negative number.
pub proof fn lemma_digits_value_not_negative(s: Seq<char>)
    ensures
        digits_value(s) >= 0,
    decreases s.len(),
{
    if s.len() > 0 {
        lemma_digits_value_not_negative(s.drop_last());
    }
}

/// A number that fits in 64 bits, written in base ten, evaluates to
/// itself.
pub proof fn lemma_decimal_round_trip(n: nat)
    requires
        n <= i64::MAX,
    ensures
        evaluate_text(decimal(n)) == Ok::<int, FailureView>(n as int),
{
    lemma_decimal_spells(n);
    lemma_literal_evaluates(decimal(n));
}

/// The tokens of a minus sign, a literal and the end of the input spell the
/// negated literal.
pub proof fn lemma_parse_negated_literal(minus: TokenView, first: TokenView, end: TokenView)
    requires
        minus.kind == TokenKind::Minus,
        first.kind == TokenKind::Integer,
        end.kind == TokenKind::Eof,
    ensures
        parse_tokens(seq![minus, first, end]) == Ok::<ExprView, ParseErrorView>(
            ExprView::Unary {
                op: minus,
                operand: Box::new(ExprView::Integer { value: first }),
            },
        ),
{
    let tokens = seq![minus, first, end];
    let literal = ExprView::Integer { value: first };
    let tree = ExprView::Unary { op: minus, operand: Box::new(literal) };
    assert(atom_at(tokens, 1) == Ok::<ExprView, ParseErrorView>(literal));
    assert(postfix_tail(tokens, 2, 6, literal) == literal);
    assert(binary_tail(tokens, 2, 6, literal) == Ok::<ExprView, ParseErrorView>(literal));
    assert(expr_at(tokens, 1, 6) == Ok::<ExprView, ParseErrorView>(literal));
    assert(postfix_tail(tokens, 2, 0, tree) == tree);
    assert(binary_tail(tokens, 2, 0, tree) == Ok::<ExprView, ParseErrorView>(tree));
    assert(expr_at(tokens, 0, 0) == Ok::<ExprView, ParseErrorView>(tree));
}

/// A minus sign in front of an integer literal evaluates to the negative
/// of the number that the digits spell, if that number fits in 64 bits.
pub proof fn lemma_negated_literal_evaluates(body: Seq<char>)
    requires
        is_literal_body(body),
        digits_value(body) <= i64::MAX,
    ensures
        evaluate_text(seq!['-'] + body) == Ok::<int, FailureView>(-digits_value(body)),
{
    let text = seq!['-'] + body;
    let end = text.len() as int;
    let minus = token_over(TokenKind::Minus, text, 0, 1);
    let first = token_over(TokenKind::Integer, text, 1, end);
    assert forall|j: int| 1 <= j < text.len() implies is_integer_char(
        #[trigger] text[j],
        j - 1,
    ) by {
        assert(text[j] == body[j - 1]);
    }
    assert(is_integer_char(body[0], 0));
    assert(text[1] == body[0]);
    lemma_literal_end_of_body(text, 1, 2);
    assert(scan_from(text, end) == Ok::<Seq<TokenView>, LexErrorView>(seq![eof_token(text)]));
    assert(seq![first] + seq![eof_token(text)] =~= seq![first, eof_token(text)]);
    assert(scan_from(text, 1) == Ok::<Seq<TokenView>, LexErrorView>(seq![first, eof_token(text)]));
    assert(seq![minus] + seq![first, eof_token(text)] =~= seq![minus, first, eof_token(text)]);
    assert(scan(text) == Ok::<Seq<TokenView>, LexErrorView>(seq![minus, first, eof_token(text)]));
    lemma_parse_negated_literal(minus, first, eof_token(text));
    assert(text.subrange(1, end) =~= body);
    lemma_digits_value_not_negative(body);
    let literal = ExprView::Integer { value: first };
    assert(eval(literal) == Ok::<int, EvalErrorView>(digits_value(body)));
}

/// A negative number whose magnitude fits in 64 bits, written in base ten
/// behind a minus sign, evaluates to itself.
pub proof fn lemma_negative_decimal_round_trip(n: nat)
    requires
        n <= i64::MAX,
    ensures
        evaluate_text(seq!['-'] + decimal(n)) == Ok::<int, FailureView>(-(n as int)),
{
    lemma_decimal_spells(n);
    lemma_negated_literal_evaluates(decimal(n));
}

} // verus!
