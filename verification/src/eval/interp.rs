//! The evaluator: from an expression tree to its integer value.

use crate::parse::ast::{
    is_binary_operator, is_postfix_operator, is_prefix_operator, Expr, ExprView,
};
use crate::parse::lexer::{is_digit, is_integer_char, is_literal_body};
use crate::parse::token::TokenKind;
use crate::text::chars_of;
use vstd::arithmetic::div_mod::{lemma_fundamental_div_mod, lemma_mod_bound};
use vstd::arithmetic::power::pow;
use vstd::prelude::*;

verus! {

/// Why an expression has no value.
#[derive(Debug, PartialEq, Eq)]
pub enum EvalError {
    /// A literal whose text is no decimal integer, or one too large for 64
    /// bits.
    MalformedLiteral { text: String },
    /// A division by zero.
    DivisionByZero,
    /// A negative exponent.
    InvalidExponent,
    /// The factorial of a negative number.
    InvalidFactorialOperand,
    /// A result that does not fit in 64 bits.
    Overflow,
}

/// The mathematical value of an [`EvalError`].
pub enum EvalErrorView {
    MalformedLiteral { text: Seq<char> },
    DivisionByZero,
    InvalidExponent,
    InvalidFactorialOperand,
    Overflow,
}

impl View for EvalError {
    type V = EvalErrorView;

    open spec fn view(&self) -> EvalErrorView {
        match self {
            EvalError::MalformedLiteral { text } => EvalErrorView::MalformedLiteral { text: text@ },
            EvalError::DivisionByZero => EvalErrorView::DivisionByZero,
            EvalError::InvalidExponent => EvalErrorView::InvalidExponent,
            EvalError::InvalidFactorialOperand => EvalErrorView::InvalidFactorialOperand,
            EvalError::Overflow => EvalErrorView::Overflow,
        }
    }
}

/// Whether `v` fits in a signed 64-bit integer.
pub open spec fn in_range(v: int) -> bool {
    i64::MIN <= v <= i64::MAX
}

/// `v` where it fits in 64 bits, an overflow where it does not.
pub open spec fn checked(v: int) -> Result<int, EvalErrorView> {
    if in_range(v) {
        Ok(v)
    } else {
        Err(EvalErrorView::Overflow)
    }
}

/// The value of a decimal digit.
pub open spec fn digit_value(c: char) -> int {
    c as int - '0' as int
}

/// The number that the digits of `s` spell in base ten. Characters that are
/// no digits do not count.
pub open spec fn digits_value(s: Seq<char>) -> int
    decreases s.len(),
{
    if s.len() == 0 {
        0
    } else if is_digit(s.last()) {
        10 * digits_value(s.drop_last()) + digit_value(s.last())
    } else {
        digits_value(s.drop_last())
    }
}

/// Whether `text` starts with a sign.
pub open spec fn has_sign(text: Seq<char>) -> bool {
    text.len() > 0 && (text[0] == '+' || text[0] == '-')
}

/// `text` without its sign.
pub open spec fn literal_body(text: Seq<char>) -> Seq<char> {
    if has_sign(text) {
        text.skip(1)
    } else {
        text
    }
}

/// The value of the literal `text`: an optional sign, a digit, then digits
/// and separators, read in base ten. `None` where `text` is not of that
/// form or its value does not fit in 64 bits.
pub open spec fn literal_value(text: Seq<char>) -> Option<int> {
    let body = literal_body(text);
    let value = if has_sign(text) && text[0] == '-' {
        -digits_value(body)
    } else {
        digits_value(body)
    };
    if is_literal_body(body) && in_range(value) {
        Some(value)
    } else {
        None
    }
}

/// The quotient of `l` by `r`, rounded toward zero.
pub open spec fn truncated_quotient(l: int, r: int) -> int
    recommends
        r != 0,
{
    if l >= 0 && r > 0 {
        l / r
    } else if l < 0 && r < 0 {
        (-l) / (-r)
    } else if l < 0 {
        -((-l) / r)
    } else {
        -(l / (-r))
    }
}

/// The product of the numbers from 1 to `n`.
pub open spec fn factorial(n: nat) -> nat
    decreases n,
{
    if n == 0 {
        1
    } else {
        n * factorial((n - 1) as nat)
    }
}

/// The result of the binary operator `kind` on `l` and `r`.
pub open spec fn apply_binary(kind: TokenKind, l: int, r: int) -> Result<int, EvalErrorView>
    recommends
        is_binary_operator(kind),
{
    match kind {
        TokenKind::Plus => checked(l + r),
        TokenKind::Minus => checked(l - r),
        TokenKind::Asterisk => checked(l * r),
        TokenKind::Slash => if r == 0 {
            Err(EvalErrorView::DivisionByZero)
        } else {
            checked(truncated_quotient(l, r))
        },
        TokenKind::Caret => if r < 0 {
            Err(EvalErrorView::InvalidExponent)
        } else {
            checked(pow(l, r as nat))
        },
        _ => arbitrary(),
    }
}

/// The result of the unary operator `kind` on `v`.
pub open spec fn apply_unary(kind: TokenKind, v: int) -> Result<int, EvalErrorView>
    recommends
        is_prefix_operator(kind) || is_postfix_operator(kind),
{
    match kind {
        TokenKind::Plus => Ok(v),
        TokenKind::Minus => checked(-v),
        TokenKind::Bang => if v < 0 {
            Err(EvalErrorView::InvalidFactorialOperand)
        } else {
            checked(factorial(v as nat) as int)
        },
        _ => arbitrary(),
    }
}

/// The value of a tree: the value of its literal, or the result of its
/// operator on the values of its operands. The first failure, operands from
/// left to right, is the failure of the whole.
pub open spec fn eval(tree: ExprView) -> Result<int, EvalErrorView>
    recommends
        tree.well_formed(),
    decreases tree,
{
    match tree {
        ExprView::Integer { value } => match literal_value(value.content) {
            Some(v) => Ok(v),
            None => Err(EvalErrorView::MalformedLiteral { text: value.content }),
        },
        ExprView::Binary { left, op, right } => match eval(*left) {
            Ok(l) => match eval(*right) {
                Ok(r) => apply_binary(op.kind, l, r),
                Err(e) => Err(e),
            },
            Err(e) => Err(e),
        },
        ExprView::Unary { op, operand } => match eval(*operand) {
            Ok(v) => apply_unary(op.kind, v),
            Err(e) => Err(e),
        },
        ExprView::Paren { lparen, inner, rparen } => eval(*inner),
    }
}

/// Whether the computed result `r` is the result `s` of the model.
pub open spec fn agrees(r: Result<i64, EvalError>, s: Result<int, EvalErrorView>) -> bool {
    match r {
        Ok(v) => s == Ok::<int, EvalErrorView>(v as int),
        Err(e) => s == Err::<int, EvalErrorView>(e@),
    }
}

/// The digits of a prefix spell a number that is not negative and not
/// larger than the number that the whole spells.
proof fn lemma_digits_value_prefix(s: Seq<char>, k: int)
    requires
        0 <= k <= s.len(),
    ensures
        0 <= digits_value(s.take(k)) <= digits_value(s),
    decreases s.len(),
{
    if k == s.len() {
        assert(s.take(k) =~= s);
        if s.len() > 0 {
            lemma_digits_value_prefix(s.drop_last(), k - 1);
        }
    } else {
        lemma_digits_value_prefix(s.drop_last(), k);
        assert(s.drop_last().take(k) =~= s.take(k));
    }
}

/// Reading one more character: a digit shifts the number and adds to it, a
/// separator leaves it.
proof fn lemma_digits_value_step(s: Seq<char>, k: int)
    requires
        0 <= k < s.len(),
    ensures
        digits_value(s.take(k + 1)) == if is_digit(s[k]) {
            10 * digits_value(s.take(k)) + digit_value(s[k])
        } else {
            digits_value(s.take(k))
        },
{
    assert(s.take(k + 1).drop_last() =~= s.take(k));
    assert(s.take(k + 1).last() == s[k]);
}

/// Reads a literal: the number that `text` spells, if it spells one that
/// fits in 64 bits.
fn parse_literal(text: &str) -> (r: Option<i64>)
    ensures
        r matches Some(v) ==> literal_value(text@) == Some(v as int),
        r is None ==> literal_value(text@) is None,
{
    let chars = chars_of(text);
    let n = chars.len();
    let negative = n > 0 && chars[0] == '-';
    let start: usize = if n > 0 && (chars[0] == '+' || chars[0] == '-') {
        1
    } else {
        0
    };
    if start >= n {
        return None;
    }
    let ghost body = literal_body(text@);
    assert(body == text@.skip(start as int));
    let limit: u64 = if negative {
        0x8000_0000_0000_0000
    } else {
        0x7fff_ffff_ffff_ffff
    };
    let mut acc: u64 = 0;
    let mut i: usize = start;
    assert(body.take(0) =~= Seq::<char>::empty());
    while i < n
        invariant
            chars@ == text@,
            n == chars.len(),
            body == text@.skip(start as int),
            body == literal_body(text@),
            negative == (has_sign(text@) && text@[0] == '-'),
            start <= i <= n,
            start < n,
            limit == if negative {
                0x8000_0000_0000_0000u64
            } else {
                0x7fff_ffff_ffff_ffffu64
            },
            forall|j: int| 0 <= j < i - start ==> is_integer_char(#[trigger] body[j], j),
            acc == digits_value(body.take(i - start)),
            acc <= limit,
        decreases n - i,
    {
        let c = chars[i];
        proof {
            assert(body[i - start] == c);
            lemma_digits_value_step(body, i - start);
            lemma_digits_value_prefix(body, i - start + 1);
        }
        if c >= '0' && c <= '9' {
            let d: u64 = (c as u32 - '0' as u32) as u64;
            if acc > (limit - d) / 10 {
                return None;
            }
            acc = acc * 10 + d;
        } else if c == '_' && i > start {
        } else {
            return None;
        }
        i += 1;
    }
    proof {
        assert(body.take(i - start) =~= body);
    }
    if negative {
        if acc == 0x8000_0000_0000_0000 {
            Some(i64::MIN)
        } else {
            Some(-(acc as i64))
        }
    } else {
        Some(acc as i64)
    }
}

/// The distance of `v` from zero.
pub open spec fn magnitude(v: int) -> int {
    if v < 0 {
        -v
    } else {
        v
    }
}

/// Between numbers that are not negative, what a division leaves is not
/// negative and less than the divisor.
proof fn lemma_division_leaves(a: int, b: int)
    requires
        a >= 0,
        b > 0,
    ensures
        0 <= a - (a / b) * b < b,
{
    lemma_fundamental_div_mod(a, b);
    lemma_mod_bound(a, b);
    assert(b * (a / b) == (a / b) * b) by (nonlinear_arith);
}

/// The quotient is rounded toward zero: what the division leaves is less
/// in magnitude than the divisor, and is on the side of zero on which the
/// dividend is.
pub proof fn lemma_quotient_truncates(l: int, r: int)
    requires
        r != 0,
    ensures
        magnitude(l - truncated_quotient(l, r) * r) < magnitude(r),
        l >= 0 ==> l - truncated_quotient(l, r) * r >= 0,
        l <= 0 ==> l - truncated_quotient(l, r) * r <= 0,
{
    let a = magnitude(l);
    let b = magnitude(r);
    let q = a / b;
    lemma_division_leaves(a, b);
    if l >= 0 && r > 0 {
    } else if l < 0 && r < 0 {
        assert(q * r == -(q * b)) by (nonlinear_arith)
            requires
                r == -b,
        ;
    } else if l < 0 {
        assert((-q) * r == -(q * b)) by (nonlinear_arith)
            requires
                r == b,
        ;
    } else {
        assert((-q) * r == q * b) by (nonlinear_arith)
            requires
                r == -b,
        ;
    }
}

/// Every value fits in 64 bits: a result that does not is an overflow, and
/// never a value.
pub proof fn lemma_eval_fits(tree: ExprView)
    requires
        tree.well_formed(),
    ensures
        eval(tree) matches Ok(value) ==> in_range(value),
    decreases tree,
{
    match tree {
        ExprView::Integer { value } => {},
        ExprView::Binary { left, op, right } => {
            lemma_eval_fits(*left);
            lemma_eval_fits(*right);
        },
        ExprView::Unary { op, operand } => {
            lemma_eval_fits(*operand);
        },
        ExprView::Paren { lparen, inner, rparen } => {
            lemma_eval_fits(*inner);
        },
    }
}

/// A factor of magnitude two or more at least doubles a magnitude.
proof fn lemma_product_doubles(b: int, x: int)
    by (nonlinear_arith)
    requires
        b >= 2 || b <= -2,
    ensures
        b >= 2 && x >= 0 ==> b * x >= 2 * x,
        b >= 2 && x < 0 ==> b * x <= 2 * x,
        b <= -2 && x >= 0 ==> b * x <= -2 * x,
        b <= -2 && x < 0 ==> b * x >= -2 * x,
{
}

/// The powers of a base of magnitude two or more at least double from one
/// exponent to the next.
proof fn lemma_pow_doubles(base: int, i: nat, j: nat)
    requires
        base >= 2 || base <= -2,
        i < j,
    ensures
        magnitude(pow(base, j)) >= 2 * magnitude(pow(base, i)),
    decreases j - i,
{
    reveal(pow);
    lemma_product_doubles(base, pow(base, (j - 1) as nat));
    if j > i + 1 {
        lemma_pow_doubles(base, i, (j - 1) as nat);
    }
}

/// Once a power of a base of magnitude two or more has left the 64-bit
/// range, every higher power is outside it too.
proof fn lemma_pow_escapes(base: int, i: nat, j: nat)
    requires
        base >= 2 || base <= -2,
        i <= j,
        !in_range(pow(base, i)),
    ensures
        !in_range(pow(base, j)),
{
    if i < j {
        lemma_pow_doubles(base, i, j);
    }
}

/// The powers of 0, 1 and -1.
proof fn lemma_pow_of_unit(e: nat)
    ensures
        pow(1, e) == 1,
        e > 0 ==> pow(0, e) == 0,
        pow(-1, e) == if e % 2 == 0 {
            1int
        } else {
            -1int
        },
    decreases e,
{
    reveal(pow);
    if e > 0 {
        lemma_pow_of_unit((e - 1) as nat);
    }
}

/// The factorial is at least 1 and grows with its argument.
proof fn lemma_factorial_increases(i: nat, n: nat)
    requires
        i <= n,
    ensures
        1 <= factorial(i) <= factorial(n),
    decreases n,
{
    if i < n {
        lemma_factorial_increases(i, (n - 1) as nat);
        assert(n * factorial((n - 1) as nat) >= factorial((n - 1) as nat)) by (nonlinear_arith)
            requires
                n >= 1,
                factorial((n - 1) as nat) >= 1,
        ;
    } else if n > 0 {
        lemma_factorial_increases((n - 1) as nat, (n - 1) as nat);
        assert(n * factorial((n - 1) as nat) >= 1) by (nonlinear_arith)
            requires
                n >= 1,
                factorial((n - 1) as nat) >= 1,
        ;
    }
}

/// `base` to the power of `exponent`, which must not be negative.
fn power(base: i64, exponent: i64) -> (r: Result<i64, EvalError>)
    requires
        exponent >= 0,
    ensures
        agrees(r, checked(pow(base as int, exponent as nat))),
{
    proof {
        reveal(pow);
        lemma_pow_of_unit(exponent as nat);
    }
    if exponent == 0 {
        Ok(1)
    } else if base == 0 {
        Ok(0)
    } else if base == 1 {
        Ok(1)
    } else if base == -1 {
        if exponent % 2 == 0 {
            Ok(1)
        } else {
            Ok(-1)
        }
    } else {
        let mut acc: i64 = 1;
        let mut i: i64 = 0;
        while i < exponent
            invariant
                base >= 2 || base <= -2,
                0 <= i <= exponent,
                acc == pow(base as int, i as nat),
            decreases exponent - i,
        {
            proof {
                reveal(pow);
                assert(pow(base as int, (i + 1) as nat) == acc * base) by (nonlinear_arith)
                    requires
                        pow(base as int, (i + 1) as nat) == base * pow(base as int, i as nat),
                        acc == pow(base as int, i as nat),
                ;
            }
            match acc.checked_mul(base) {
                Some(next) => {
                    acc = next;
                    i = i + 1;
                },
                None => {
                    proof {
                        lemma_pow_escapes(base as int, (i + 1) as nat, exponent as nat);
                    }
                    return Err(EvalError::Overflow);
                },
            }
        }
        Ok(acc)
    }
}

/// The factorial of `n`, which must not be negative.
fn factorial_of(n: i64) -> (r: Result<i64, EvalError>)
    requires
        n >= 0,
    ensures
        agrees(r, checked(factorial(n as nat) as int)),
{
    let mut acc: i64 = 1;
    let mut i: i64 = 0;
    while i < n
        invariant
            0 <= i <= n,
            acc == factorial(i as nat),
        decreases n - i,
    {
        i = i + 1;
        proof {
            assert(factorial(i as nat) == acc * i) by (nonlinear_arith)
                requires
                    factorial(i as nat) == (i as nat) * factorial((i - 1) as nat),
                    acc == factorial((i - 1) as nat),
                    i >= 1,
            ;
        }
        match acc.checked_mul(i) {
            Some(next) => {
                acc = next;
            },
            None => {
                proof {
                    lemma_factorial_increases(i as nat, n as nat);
                }
                return Err(EvalError::Overflow);
            },
        }
    }
    Ok(acc)
}

/// `v` as a result, an overflow where there is none.
fn checked_result(v: Option<i64>) -> (r: Result<i64, EvalError>)
    ensures
        r == match v {
            Some(v) => Ok::<i64, EvalError>(v),
            None => Err::<i64, EvalError>(EvalError::Overflow),
        },
{
    match v {
        Some(v) => Ok(v),
        None => Err(EvalError::Overflow),
    }
}

/// Applies a binary operator.
fn apply_binary_op(kind: TokenKind, left: i64, right: i64) -> (r: Result<i64, EvalError>)
    requires
        is_binary_operator(kind),
    ensures
        agrees(r, apply_binary(kind, left as int, right as int)),
{
    match kind {
        TokenKind::Plus => checked_result(left.checked_add(right)),
        TokenKind::Minus => checked_result(left.checked_sub(right)),
        TokenKind::Asterisk => checked_result(left.checked_mul(right)),
        TokenKind::Slash => {
            if right != 0 {
                checked_result(left.checked_div(right))
            } else {
                Err(EvalError::DivisionByZero)
            }
        },
        TokenKind::Caret => {
            if right < 0 {
                Err(EvalError::InvalidExponent)
            } else {
                power(left, right)
            }
        },
        _ => unreached(),
    }
}

/// Applies a unary operator.
fn apply_unary_op(kind: TokenKind, operand: i64) -> (r: Result<i64, EvalError>)
    requires
        is_prefix_operator(kind) || is_postfix_operator(kind),
    ensures
        agrees(r, apply_unary(kind, operand as int)),
{
    match kind {
        TokenKind::Plus => Ok(operand),
        TokenKind::Minus => checked_result(0i64.checked_sub(operand)),
        TokenKind::Bang => {
            if operand < 0 {
                Err(EvalError::InvalidFactorialOperand)
            } else {
                factorial_of(operand)
            }
        },
        _ => unreached(),
    }
}

/// Evaluates a tree. Operands are evaluated from left to right, and the
/// first failure is the result. Every result is exact: one that does not
/// fit in 64 bits is an overflow.
pub fn interp(expr: &Expr) -> (r: Result<i64, EvalError>)
    requires
        expr@.well_formed(),
    ensures
        agrees(r, eval(expr@)),
    decreases expr,
{
    match expr {
        Expr::IntegerExpr(exp) => {
            match parse_literal(exp.value.content.as_str()) {
                Some(i) => Ok(i),
                None => Err(EvalError::MalformedLiteral { text: exp.value.content.clone() }),
            }
        },
        Expr::BinaryOpExpr(exp) => {
            let left = match interp(&exp.left) {
                Ok(left) => left,
                Err(e) => {
                    return Err(e);
                },
            };
            let right = match interp(&exp.right) {
                Ok(right) => right,
                Err(e) => {
                    return Err(e);
                },
            };
            apply_binary_op(exp.op.kind, left, right)
        },
        Expr::UnaryOpExpr(exp) => {
            let operand = match interp(&exp.operand) {
                Ok(operand) => operand,
                Err(e) => {
                    return Err(e);
                },
            };
            apply_unary_op(exp.op.kind, operand)
        },
        Expr::ParenExpr(exp) => interp(&exp.expr),
    }
}

} // verus!
