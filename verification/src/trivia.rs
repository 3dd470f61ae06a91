//! What does not count: where a token stands. Scanning drops whitespace and
//! leaves each token its place in the text; parsing and evaluation go by
//! the kinds and the texts of the tokens alone.

use crate::eval::interp::{eval, EvalErrorView};
use crate::parse::ast::ExprView;
use crate::parse::lexer::{
    eof_token, is_integer_char, lemma_literal_end_run, lemma_scan_from_well_scanned, lexical,
    literal_end, scan, scan_from, token_over, LexErrorView,
};
use crate::parse::parser::{
    atom_at, binary_power, binary_tail, expr_at, kind_at, parse_tokens, postfix_power,
    postfix_tail, prefix_power, remaining, ParseErrorView,
};
use crate::parse::token::{TokenKind, TokenView};
use vstd::prelude::*;

verus! {

/// Whether two tokens are of the same kind and have the same text.
pub open spec fn alike(a: TokenView, b: TokenView) -> bool {
    a.kind == b.kind && a.content == b.content
}

/// Whether two runs of tokens are alike token by token.
pub open spec fn all_alike(a: Seq<TokenView>, b: Seq<TokenView>) -> bool {
    &&& a.len() == b.len()
    &&& forall|i: int| 0 <= i < a.len() ==> alike(#[trigger] a[i], b[i])
}

/// Whether two trees have the same shape and alike tokens in the same
/// places.
pub open spec fn trees_alike(a: ExprView, b: ExprView) -> bool
    decreases a,
{
    match a {
        ExprView::Binary { left, op, right } => {
            &&& b matches ExprView::Binary { left: left_b, op: op_b, right: right_b }
            &&& alike(op, op_b)
            &&& trees_alike(*left, *left_b)
            &&& trees_alike(*right, *right_b)
        },
        ExprView::Unary { op, operand } => {
            &&& b matches ExprView::Unary { op: op_b, operand: operand_b }
            &&& alike(op, op_b)
            &&& trees_alike(*operand, *operand_b)
        },
        ExprView::Integer { value } => {
            &&& b matches ExprView::Integer { value: value_b }
            &&& alike(value, value_b)
        },
        ExprView::Paren { lparen, inner, rparen } => {
            &&& b matches ExprView::Paren { lparen: lparen_b, inner: inner_b, rparen: rparen_b }
            &&& alike(lparen, lparen_b)
            &&& alike(rparen, rparen_b)
            &&& trees_alike(*inner, *inner_b)
        },
    }
}

/// Whether two parses both fail, or both give a tree and the trees are
/// alike.
pub open spec fn parses_alike(
    a: Result<ExprView, ParseErrorView>,
    b: Result<ExprView, ParseErrorView>,
) -> bool {
    match a {
        Ok(tree) => b matches Ok(tree_b) && trees_alike(tree, tree_b),
        Err(_) => b is Err,
    }
}

/// The value of the expression that `tokens` spell; `None` where they
/// spell none.
pub open spec fn value_of(tokens: Seq<TokenView>) -> Option<Result<int, EvalErrorView>> {
    match parse_tokens(tokens) {
        Ok(tree) => Some(eval(tree)),
        Err(_) => None,
    }
}

/// Trees that are alike hold equally many tokens.
pub proof fn lemma_alike_token_count(a: ExprView, b: ExprView)
    requires
        trees_alike(a, b),
    ensures
        a.token_count() == b.token_count(),
    decreases a,
{
    match a {
        ExprView::Binary { left, op, right } => {
            lemma_alike_token_count(*left, *b->Binary_left);
            lemma_alike_token_count(*right, *b->Binary_right);
        },
        ExprView::Unary { op, operand } => {
            lemma_alike_token_count(*operand, *b->Unary_operand);
        },
        ExprView::Integer { value } => {},
        ExprView::Paren { lparen, inner, rparen } => {
            lemma_alike_token_count(*inner, *b->Paren_inner);
        },
    }
}

/// Trees that are alike have the same value.
pub proof fn lemma_alike_eval(a: ExprView, b: ExprView)
    requires
        trees_alike(a, b),
    ensures
        eval(a) == eval(b),
    decreases a,
{
    match a {
        ExprView::Binary { left, op, right } => {
            lemma_alike_eval(*left, *b->Binary_left);
            lemma_alike_eval(*right, *b->Binary_right);
        },
        ExprView::Unary { op, operand } => {
            lemma_alike_eval(*operand, *b->Unary_operand);
        },
        ExprView::Integer { value } => {},
        ExprView::Paren { lparen, inner, rparen } => {
            lemma_alike_eval(*inner, *b->Paren_inner);
        },
    }
}

/// Postfix operators from alike tokens behind alike trees give alike
/// trees.
pub proof fn lemma_alike_postfix_tail(
    a: Seq<TokenView>,
    b: Seq<TokenView>,
    pos: int,
    min_bp: nat,
    left_a: ExprView,
    left_b: ExprView,
)
    requires
        all_alike(a, b),
        trees_alike(left_a, left_b),
    ensures
        trees_alike(postfix_tail(a, pos, min_bp, left_a), postfix_tail(b, pos, min_bp, left_b)),
    decreases remaining(a, pos),
{
    let power = postfix_power(kind_at(a, pos));
    if !(power == 0 || power < min_bp) {
        lemma_alike_postfix_tail(
            a,
            b,
            pos + 1,
            min_bp,
            ExprView::Unary { op: a[pos], operand: Box::new(left_a) },
            ExprView::Unary { op: b[pos], operand: Box::new(left_b) },
        );
    }
}

/// Alike tokens spell alike expressions from any token on.
pub proof fn lemma_alike_expr_at(a: Seq<TokenView>, b: Seq<TokenView>, pos: int, min_bp: nat)
    requires
        all_alike(a, b),
    ensures
        parses_alike(expr_at(a, pos, min_bp), expr_at(b, pos, min_bp)),
    decreases remaining(a, pos), 2nat,
{
    let power = prefix_power(kind_at(a, pos));
    let head_a = if power != 0 && power >= min_bp {
        match expr_at(a, pos + 1, power) {
            Ok(operand) => Ok(ExprView::Unary { op: a[pos], operand: Box::new(operand) }),
            Err(e) => Err(e),
        }
    } else {
        atom_at(a, pos)
    };
    let head_b = if power != 0 && power >= min_bp {
        match expr_at(b, pos + 1, power) {
            Ok(operand) => Ok(ExprView::Unary { op: b[pos], operand: Box::new(operand) }),
            Err(e) => Err(e),
        }
    } else {
        atom_at(b, pos)
    };
    if power != 0 && power >= min_bp {
        lemma_alike_expr_at(a, b, pos + 1, power);
    } else {
        lemma_alike_atom_at(a, b, pos);
    }
    if let Ok(head_a) = head_a {
        let head_b = head_b->Ok_0;
        lemma_alike_token_count(head_a, head_b);
        let after = pos + head_a.token_count();
        let left_a = postfix_tail(a, after, min_bp, head_a);
        let left_b = postfix_tail(b, after, min_bp, head_b);
        lemma_alike_postfix_tail(a, b, after, min_bp, head_a, head_b);
        lemma_alike_token_count(left_a, left_b);
        lemma_alike_binary_tail(a, b, pos + left_a.token_count(), min_bp, left_a, left_b);
    }
}

/// Alike tokens spell alike operands from any token on.
pub proof fn lemma_alike_atom_at(a: Seq<TokenView>, b: Seq<TokenView>, pos: int)
    requires
        all_alike(a, b),
    ensures
        parses_alike(atom_at(a, pos), atom_at(b, pos)),
    decreases remaining(a, pos), 1nat,
{
    if kind_at(a, pos) == TokenKind::LParen {
        lemma_alike_expr_at(a, b, pos + 1, 0);
        if let Ok(inner) = expr_at(a, pos + 1, 0) {
            lemma_alike_token_count(inner, expr_at(b, pos + 1, 0)->Ok_0);
        }
    }
}

/// Binary operators and their operands from alike tokens behind alike
/// trees give alike trees.
pub proof fn lemma_alike_binary_tail(
    a: Seq<TokenView>,
    b: Seq<TokenView>,
    pos: int,
    min_bp: nat,
    left_a: ExprView,
    left_b: ExprView,
)
    requires
        all_alike(a, b),
        trees_alike(left_a, left_b),
    ensures
        parses_alike(binary_tail(a, pos, min_bp, left_a), binary_tail(b, pos, min_bp, left_b)),
    decreases remaining(a, pos), 0nat,
{
    let (left_power, right_power) = binary_power(kind_at(a, pos));
    if !(left_power == 0 || left_power < min_bp) {
        lemma_alike_expr_at(a, b, pos + 1, right_power);
        if let Ok(right_a) = expr_at(a, pos + 1, right_power) {
            let right_b = expr_at(b, pos + 1, right_power)->Ok_0;
            lemma_alike_token_count(right_a, right_b);
            lemma_alike_binary_tail(
                a,
                b,
                pos + 1 + right_a.token_count(),
                min_bp,
                ExprView::Binary {
                    left: Box::new(left_a),
                    op: a[pos],
                    right: Box::new(right_a),
                },
                ExprView::Binary {
                    left: Box::new(left_b),
                    op: b[pos],
                    right: Box::new(right_b),
                },
            );
        }
    }
}

/// Where a token stands does not count: two runs of tokens that are alike
/// both spell no expression, or spell expressions with the same value.
pub proof fn lemma_value_ignores_places(a: Seq<TokenView>, b: Seq<TokenView>)
    requires
        all_alike(a, b),
    ensures
        value_of(a) == value_of(b),
{
    lemma_alike_expr_at(a, b, 0, 0);
    if let Ok(tree_a) = expr_at(a, 0, 0) {
        let tree_b = expr_at(b, 0, 0)->Ok_0;
        lemma_alike_token_count(tree_a, tree_b);
        lemma_alike_eval(tree_a, tree_b);
    }
}

/// The value of the expression that `text` spells; `None` where it spells
/// none.
pub open spec fn text_value(text: Seq<char>) -> Option<Result<int, EvalErrorView>> {
    match scan(text) {
        Ok(tokens) => value_of(tokens),
        Err(_) => None,
    }
}

/// The texts of `tokens` in a row, a space behind each.
pub open spec fn spell(tokens: Seq<TokenView>) -> Seq<char>
    decreases tokens.len(),
{
    if tokens.len() == 0 {
        Seq::empty()
    } else {
        tokens[0].content + seq![' '] + spell(tokens.skip(1))
    }
}

/// Whether `tokens` could come from a scan: each has text of its kind, and
/// the last one, and only that, marks the end of the input.
pub open spec fn scannable(tokens: Seq<TokenView>) -> bool {
    &&& tokens.len() >= 1
    &&& tokens.last().kind == TokenKind::Eof
    &&& forall|k: int| 0 <= k < tokens.len() ==> lexical(#[trigger] tokens[k])
    &&& forall|k: int| 0 <= k < tokens.len() - 1 ==> (#[trigger] tokens[k]).kind != TokenKind::Eof
}

/// Tokens that are spelled out behind any text scan, from there on, to
/// tokens like themselves.
pub proof fn lemma_scan_spelled(front: Seq<char>, tokens: Seq<TokenView>)
    requires
        scannable(tokens),
    ensures
        scan_from(front + spell(tokens), front.len() as int) matches Ok(again) && all_alike(
            again,
            tokens,
        ),
    decreases tokens.len(),
{
    let text = front + spell(tokens);
    let n = front.len() as int;
    let first = tokens[0];
    let rest = tokens.skip(1);
    if tokens.len() == 1 {
        assert(spell(rest) =~= Seq::<char>::empty());
        assert(text =~= front + seq![' ']);
        assert(text[n] == ' ');
        assert(scan_from(text, n + 1) == Ok::<Seq<TokenView>, LexErrorView>(seq![eof_token(text)]));
        assert(first.content =~= Seq::<char>::empty());
    } else {
        let m = first.content.len() as int;
        let front_next = front + first.content + seq![' '];
        assert(text =~= front_next + spell(rest));
        assert(scannable(rest)) by {
            assert forall|k: int| 0 <= k < rest.len() implies lexical(#[trigger] rest[k]) by {
                assert(rest[k] == tokens[k + 1]);
            }
            assert forall|k: int| 0 <= k < rest.len() - 1 implies (#[trigger] rest[k]).kind
                != TokenKind::Eof by {
                assert(rest[k] == tokens[k + 1]);
            }
            assert(rest.last() == tokens.last());
        }
        lemma_scan_spelled(front_next, rest);
        let again_rest = scan_from(text, n + m + 1)->Ok_0;
        assert(lexical(first));
        assert(first.kind != TokenKind::Eof);
        assert forall|j: int| 0 <= j < m implies text[n + j] == first.content[j] by {}
        assert(text[n + m] == ' ');
        assert(scan_from(text, n + m) == scan_from(text, n + m + 1));
        let end = if first.kind == TokenKind::Integer {
            assert(is_integer_char(first.content[0], 0));
            lemma_literal_end_run(text, n, n + 1);
            let end = literal_end(text, n, n + 1);
            if end < n + m {
                assert(is_integer_char(first.content[end - n], end - n));
            } else if end > n + m {
                assert(is_integer_char(text[n + m], m));
            }
            end
        } else {
            n + 1
        };
        assert(end == n + m);
        let scanned = token_over(first.kind, text, n, end);
        assert(scanned.content =~= first.content);
        let again = seq![scanned] + again_rest;
        assert(scan_from(text, n) == Ok::<Seq<TokenView>, LexErrorView>(again));
        assert forall|k: int| 0 <= k < again.len() implies alike(
            #[trigger] again[k],
            tokens[k],
        ) by {
            if k > 0 {
                assert(again[k] == again_rest[k - 1]);
                assert(rest[k - 1] == tokens[k]);
            }
        }
    }
}

/// Only the value of a text comes back, not the text: what a scan has made
/// of a text, spelled out again, scans to tokens like those it was spelled
/// from, which may stand elsewhere, and has the value of the text.
pub proof fn lemma_respelled_value(text: Seq<char>)
    requires
        scan(text) is Ok,
    ensures
        scan(spell(scan(text)->Ok_0)) matches Ok(again) && all_alike(again, scan(text)->Ok_0),
        text_value(spell(scan(text)->Ok_0)) == text_value(text),
{
    let tokens = scan(text)->Ok_0;
    lemma_scan_from_well_scanned(text, 0);
    assert(scannable(tokens)) by {
        assert(lexical(tokens.last()));
    }
    lemma_scan_spelled(Seq::empty(), tokens);
    assert(Seq::<char>::empty() + spell(tokens) =~= spell(tokens));
    let again = scan(spell(tokens))->Ok_0;
    lemma_value_ignores_places(again, tokens);
}

} // verus!
