//! The tree that the parser finds is the only one: any tree that holds the
//! tokens in their order and whose operators stand as their binding powers
//! ask is the tree that the parser builds.

use super::ast::{is_binary_operator, is_postfix_operator, is_prefix_operator, ExprView};
use super::parser::{
    atom_at, binary_power, binary_tail, ends_tightly, expr_at, kind_at, lemma_expr_at_respects,
    lemma_expr_at_spans, parse_tokens, postfix_power, postfix_tail, prefix_power, read_rightly,
    respects_powers, spans, starts_tightly, unary_power, ParseErrorView, PRECEDENCE_ADDITION,
    PRECEDENCE_EXPONENT, PRECEDENCE_FACTORIAL, PRECEDENCE_MULTIPLY,
};
use super::token::{TokenKind, TokenView};
use vstd::prelude::*;

verus! {

/// Whether `part` is `tree` or a left operand of it, of its left operand,
/// and so on.
pub open spec fn on_left_spine(tree: ExprView, part: ExprView) -> bool
    decreases tree,
{
    ||| tree == part
    ||| tree matches ExprView::Binary { left, op, right } && on_left_spine(*left, part)
}

/// The node of `tree` whose left operand is `part`.
pub open spec fn spine_parent(tree: ExprView, part: ExprView) -> ExprView
    decreases tree,
{
    match tree {
        ExprView::Binary { left, op, right } => if *left == part {
            tree
        } else {
            spine_parent(*left, part)
        },
        _ => tree,
    }
}

/// Whether `part` is `tree` or the operand of a postfix operator that is
/// `tree`, or the operand of that operand, and so on.
pub open spec fn on_postfix_chain(tree: ExprView, part: ExprView) -> bool
    decreases tree,
{
    ||| tree == part
    ||| tree matches ExprView::Unary { op, operand } && is_postfix_operator(op.kind)
        && on_postfix_chain(*operand, part)
}

/// The node of `tree` whose operand is `part`.
pub open spec fn chain_parent(tree: ExprView, part: ExprView) -> ExprView
    decreases tree,
{
    match tree {
        ExprView::Unary { op, operand } => if *operand == part {
            tree
        } else {
            chain_parent(*operand, part)
        },
        _ => tree,
    }
}

/// Whether `tree` holds the tokens from `pos` on and stands as the binding
/// powers ask where it is read with the threshold `min_bp`, whatever
/// follows it but a postfix operator.
pub open spec fn reads_on(tokens: Seq<TokenView>, pos: int, min_bp: nat, tree: ExprView) -> bool {
    let next = kind_at(tokens, pos + tree.token_count());
    &&& spans(tokens, pos, tree)
    &&& respects_powers(tree)
    &&& starts_tightly(tree, min_bp)
    &&& ends_tightly(tree, binary_power(next).0)
    &&& postfix_power(next) == 0
}

/// The operands of a binary operator hold the tokens on its two sides.
pub proof fn lemma_binary_spans(tokens: Seq<TokenView>, pos: int, tree: ExprView)
    requires
        spans(tokens, pos, tree),
        tree is Binary,
    ensures
        spans(tokens, pos, *tree->Binary_left),
        tokens[pos + tree->Binary_left.token_count()] == tree->Binary_op,
        spans(tokens, pos + tree->Binary_left.token_count() + 1, *tree->Binary_right),
{
    let left = *tree->Binary_left;
    let right = *tree->Binary_right;
    let lc = left.token_count() as int;
    let rc = right.token_count() as int;
    left.lemma_token_count();
    right.lemma_token_count();
    let all = tree.tokens();
    assert(all == left.tokens().push(tree->Binary_op) + right.tokens());
    assert forall|i: int| 0 <= i < lc implies left.tokens()[i] == tokens.subrange(
        pos,
        pos + lc,
    )[i] by {
        assert(all[i] == left.tokens()[i]);
        assert(all[i] == tokens[pos + i]);
    }
    assert(left.tokens() =~= tokens.subrange(pos, pos + lc));
    assert(all[lc] == tree->Binary_op);
    assert(all[lc] == tokens[pos + lc]);
    assert forall|i: int| 0 <= i < rc implies right.tokens()[i] == tokens.subrange(
        pos + lc + 1,
        pos + lc + 1 + rc,
    )[i] by {
        assert(all[lc + 1 + i] == right.tokens()[i]);
        assert(all[lc + 1 + i] == tokens[pos + lc + 1 + i]);
    }
    assert(right.tokens() =~= tokens.subrange(pos + lc + 1, pos + lc + 1 + rc));
}

/// The operand of a prefix operator holds the tokens behind it, that of a
/// postfix operator the tokens in front of it.
pub proof fn lemma_unary_spans(tokens: Seq<TokenView>, pos: int, tree: ExprView)
    requires
        spans(tokens, pos, tree),
        tree is Unary,
    ensures
        is_postfix_operator(tree->Unary_op.kind) ==> {
            &&& spans(tokens, pos, *tree->Unary_operand)
            &&& tokens[pos + tree->Unary_operand.token_count()] == tree->Unary_op
        },
        !is_postfix_operator(tree->Unary_op.kind) ==> {
            &&& spans(tokens, pos + 1, *tree->Unary_operand)
            &&& tokens[pos] == tree->Unary_op
        },
{
    let operand = *tree->Unary_operand;
    let c = operand.token_count() as int;
    operand.lemma_token_count();
    let all = tree.tokens();
    if is_postfix_operator(tree->Unary_op.kind) {
        assert forall|i: int| 0 <= i < c implies operand.tokens()[i] == tokens.subrange(
            pos,
            pos + c,
        )[i] by {
            assert(all[i] == operand.tokens()[i]);
            assert(all[i] == tokens[pos + i]);
        }
        assert(operand.tokens() =~= tokens.subrange(pos, pos + c));
        assert(all[c] == tokens[pos + c]);
    } else {
        assert forall|i: int| 0 <= i < c implies operand.tokens()[i] == tokens.subrange(
            pos + 1,
            pos + 1 + c,
        )[i] by {
            assert(all[i + 1] == operand.tokens()[i]);
            assert(all[i + 1] == tokens[pos + 1 + i]);
        }
        assert(operand.tokens() =~= tokens.subrange(pos + 1, pos + 1 + c));
        assert(all[0] == tokens[pos]);
    }
}

/// The expression between parentheses holds the tokens between them.
pub proof fn lemma_paren_spans(tokens: Seq<TokenView>, pos: int, tree: ExprView)
    requires
        spans(tokens, pos, tree),
        tree is Paren,
    ensures
        tokens[pos] == tree->Paren_lparen,
        spans(tokens, pos + 1, *tree->Paren_inner),
        tokens[pos + 1 + tree->Paren_inner.token_count()] == tree->Paren_rparen,
{
    let inner = *tree->Paren_inner;
    let c = inner.token_count() as int;
    inner.lemma_token_count();
    let all = tree.tokens();
    assert forall|i: int| 0 <= i < c implies inner.tokens()[i] == tokens.subrange(
        pos + 1,
        pos + 1 + c,
    )[i] by {
        assert(all[i + 1] == inner.tokens()[i]);
        assert(all[i + 1] == tokens[pos + 1 + i]);
    }
    assert(inner.tokens() =~= tokens.subrange(pos + 1, pos + 1 + c));
    assert(all[0] == tokens[pos]);
    assert(all[c + 1] == tokens[pos + c + 1]);
}

/// The lowest left operand of `tree`: what the parser reads first.
pub open spec fn spine_root(tree: ExprView) -> ExprView
    decreases tree,
{
    match tree {
        ExprView::Binary { left, op, right } => spine_root(*left),
        _ => tree,
    }
}

/// The operand under all the postfix operators of `tree`.
pub open spec fn chain_root(tree: ExprView) -> ExprView
    decreases tree,
{
    match tree {
        ExprView::Unary { op, operand } => if is_postfix_operator(op.kind) {
            chain_root(*operand)
        } else {
            tree
        },
        _ => tree,
    }
}

/// The lowest left operand is on the left spine, and is no binary
/// operator.
pub proof fn lemma_spine_root(tree: ExprView)
    ensures
        on_left_spine(tree, spine_root(tree)),
        !(spine_root(tree) is Binary),
    decreases tree,
{
    if let ExprView::Binary { left, op, right } = tree {
        lemma_spine_root(*left);
    }
}

/// The operand under all postfix operators is on the postfix chain, and is
/// no postfix operator.
pub proof fn lemma_chain_root(tree: ExprView)
    ensures
        on_postfix_chain(tree, chain_root(tree)),
        !(chain_root(tree) matches ExprView::Unary { op, operand } && is_postfix_operator(op.kind)),
    decreases tree,
{
    if let ExprView::Unary { op, operand } = tree {
        if is_postfix_operator(op.kind) {
            lemma_chain_root(*operand);
        }
    }
}

/// A part of the left spine has a parent on the left spine, unless it is
/// the whole tree.
pub proof fn lemma_spine_parent(tree: ExprView, part: ExprView)
    requires
        on_left_spine(tree, part),
        tree != part,
    ensures
        spine_parent(tree, part) is Binary,
        *spine_parent(tree, part)->Binary_left == part,
        on_left_spine(tree, spine_parent(tree, part)),
        part.token_count() < spine_parent(tree, part).token_count() <= tree.token_count(),
    decreases tree,
{
    let left = *tree->Binary_left;
    if left != part {
        lemma_spine_parent(left, part);
    }
}

/// A part of the postfix chain has a parent on the chain, unless it is the
/// whole tree.
pub proof fn lemma_chain_parent(tree: ExprView, part: ExprView)
    requires
        on_postfix_chain(tree, part),
        tree != part,
    ensures
        spine_is_postfix(chain_parent(tree, part)),
        *chain_parent(tree, part)->Unary_operand == part,
        on_postfix_chain(tree, chain_parent(tree, part)),
        part.token_count() < chain_parent(tree, part).token_count() <= tree.token_count(),
    decreases tree,
{
    let operand = *tree->Unary_operand;
    if operand != part {
        lemma_chain_parent(operand, part);
    }
}

/// Whether `tree` is a postfix operator with its operand.
pub open spec fn spine_is_postfix(tree: ExprView) -> bool {
    tree matches ExprView::Unary { op, operand } && is_postfix_operator(op.kind)
}

/// Every part of the left spine of a tree that reads on reads on.
pub proof fn lemma_spine_reads_on(
    tokens: Seq<TokenView>,
    pos: int,
    min_bp: nat,
    tree: ExprView,
    part: ExprView,
)
    requires
        reads_on(tokens, pos, min_bp, tree),
        on_left_spine(tree, part),
    ensures
        reads_on(tokens, pos, min_bp, part),
    decreases tree,
{
    if tree != part {
        lemma_binary_spans(tokens, pos, tree);
        lemma_spine_reads_on(tokens, pos, min_bp, *tree->Binary_left, part);
    }
}

/// Every part of the postfix chain of a tree that holds the tokens from
/// `pos` on does so too.
pub proof fn lemma_chain_spans(tokens: Seq<TokenView>, pos: int, tree: ExprView, part: ExprView)
    requires
        spans(tokens, pos, tree),
        on_postfix_chain(tree, part),
    ensures
        spans(tokens, pos, part),
    decreases tree,
{
    if tree != part {
        lemma_unary_spans(tokens, pos, tree);
        lemma_chain_spans(tokens, pos, *tree->Unary_operand, part);
    }
}

/// Any threshold of zero is met, and any operator binds more tightly than
/// not at all.
pub proof fn lemma_loosely(tree: ExprView)
    requires
        tree.well_formed(),
    ensures
        starts_tightly(tree, 0),
        ends_tightly(tree, 0),
    decreases tree,
{
    match tree {
        ExprView::Binary { left, op, right } => {
            lemma_loosely(*left);
            lemma_loosely(*right);
        },
        ExprView::Unary { op, operand } => {
            lemma_loosely(*operand);
        },
        _ => {},
    }
}

/// The postfix operators behind an operand are read one by one, up to the
/// whole chain.
pub proof fn lemma_postfix_tail_finds(
    tokens: Seq<TokenView>,
    pos: int,
    min_bp: nat,
    tree: ExprView,
    part: ExprView,
)
    requires
        min_bp <= unary_power(PRECEDENCE_FACTORIAL as nat),
        spans(tokens, pos, tree),
        on_postfix_chain(tree, part),
        postfix_power(kind_at(tokens, pos + tree.token_count())) == 0,
    ensures
        postfix_tail(tokens, pos + part.token_count(), min_bp, part) == tree,
    decreases tree.token_count() - part.token_count(),
{
    if tree != part {
        let parent = chain_parent(tree, part);
        lemma_chain_parent(tree, part);
        lemma_chain_spans(tokens, pos, tree, parent);
        lemma_unary_spans(tokens, pos, parent);
        lemma_postfix_tail_finds(tokens, pos, min_bp, tree, parent);
    }
}

/// A tree that holds the tokens from `pos` on and is read rightly with the
/// threshold `min_bp` is the tree that is read there.
pub proof fn lemma_expr_at_finds(tokens: Seq<TokenView>, pos: int, min_bp: nat, tree: ExprView)
    requires
        min_bp <= unary_power(PRECEDENCE_FACTORIAL as nat),
        spans(tokens, pos, tree),
        read_rightly(tree, min_bp, kind_at(tokens, pos + tree.token_count())),
    ensures
        expr_at(tokens, pos, min_bp) == Ok::<ExprView, ParseErrorView>(tree),
    decreases tree.token_count(), tree.token_count() + 1,
{
    let root = spine_root(tree);
    lemma_spine_root(tree);
    lemma_spine_reads_on(tokens, pos, min_bp, tree, root);
    let after = kind_at(tokens, pos + root.token_count());
    if root is Unary && !is_postfix_operator(root->Unary_op.kind) {
        lemma_unary_spans(tokens, pos, root);
        lemma_spine_count(tree, root);
        lemma_expr_at_finds(
            tokens,
            pos + 1,
            prefix_power(root->Unary_op.kind),
            *root->Unary_operand,
        );
        assert(postfix_tail(tokens, pos + root.token_count(), min_bp, root) == root);
    } else {
        let atom = chain_root(root);
        lemma_chain_root(root);
        lemma_chain_spans(tokens, pos, root, atom);
        lemma_chain_atom(root);
        lemma_spine_count(tree, root);
        lemma_chain_count(root, atom);
        if let ExprView::Paren { lparen, inner, rparen } = atom {
            lemma_paren_spans(tokens, pos, atom);
            lemma_loosely(*inner);
            assert(kind_at(tokens, pos + 1 + inner.token_count()) == TokenKind::RParen);
            lemma_expr_at_finds(tokens, pos + 1, 0, *inner);
            assert(kind_at(tokens, pos) == TokenKind::LParen);
        } else {
            assert(atom.tokens()[0] == tokens[pos]);
            assert(kind_at(tokens, pos) == TokenKind::Integer);
        }
        assert(atom_at(tokens, pos) == Ok::<ExprView, ParseErrorView>(atom));
        lemma_postfix_tail_finds(tokens, pos, min_bp, root, atom);
    }
    lemma_binary_tail_finds(tokens, pos, min_bp, tree, root);
}

/// The binary operators behind a left operand are read one by one, each
/// with its right operand, up to the whole tree.
pub proof fn lemma_binary_tail_finds(
    tokens: Seq<TokenView>,
    pos: int,
    min_bp: nat,
    tree: ExprView,
    part: ExprView,
)
    requires
        min_bp <= unary_power(PRECEDENCE_FACTORIAL as nat),
        spans(tokens, pos, tree),
        read_rightly(tree, min_bp, kind_at(tokens, pos + tree.token_count())),
        on_left_spine(tree, part),
    ensures
        binary_tail(tokens, pos + part.token_count(), min_bp, part) == Ok::<
            ExprView,
            ParseErrorView,
        >(tree),
    decreases tree.token_count(), tree.token_count() - part.token_count(),
{
    if tree != part {
        let parent = spine_parent(tree, part);
        lemma_spine_parent(tree, part);
        lemma_spine_reads_on(tokens, pos, min_bp, tree, parent);
        lemma_binary_spans(tokens, pos, parent);
        let right = *parent->Binary_right;
        let op = parent->Binary_op;
        right.lemma_token_count();
        lemma_expr_at_finds(tokens, pos + part.token_count() + 1, binary_power(op.kind).1, right);
        lemma_binary_tail_finds(tokens, pos, min_bp, tree, parent);
    }
}

/// A part of the left spine is no larger than the tree.
pub proof fn lemma_spine_count(tree: ExprView, part: ExprView)
    requires
        on_left_spine(tree, part),
    ensures
        part.token_count() <= tree.token_count(),
    decreases tree,
{
    if tree != part {
        lemma_spine_count(*tree->Binary_left, part);
    }
}

/// A part of the postfix chain is no larger than the tree.
pub proof fn lemma_chain_count(tree: ExprView, part: ExprView)
    requires
        on_postfix_chain(tree, part),
    ensures
        part.token_count() <= tree.token_count(),
    decreases tree,
{
    if tree != part {
        lemma_chain_count(*tree->Unary_operand, part);
    }
}

/// Under the postfix operators of a tree whose operators stand as their
/// binding powers ask, and which is no prefix or binary operator itself,
/// stands a literal or a parenthesis.
pub proof fn lemma_chain_atom(tree: ExprView)
    requires
        respects_powers(tree),
        tree.well_formed(),
        !(tree is Binary),
        !(tree matches ExprView::Unary { op, operand } && !is_postfix_operator(op.kind)),
    ensures
        chain_root(tree) is Integer || chain_root(tree) is Paren,
        respects_powers(chain_root(tree)),
    decreases tree,
{
    if let ExprView::Unary { op, operand } = tree {
        lemma_chain_atom(*operand);
    }
}

/// Whether `tree` is an expression that `tokens` spell: it is well formed,
/// holds the tokens in front of an end-of-input token in their order, and
/// its operators stand as their binding powers ask.
pub open spec fn spells(tokens: Seq<TokenView>, tree: ExprView) -> bool {
    &&& spans(tokens, 0, tree)
    &&& respects_powers(tree)
    &&& kind_at(tokens, tree.token_count() as int) == TokenKind::Eof
}

/// The parser finds the expression that the tokens spell, and there is no
/// other: a tree is the result of parsing if and only if the tokens spell
/// it. So parsing fails exactly where the tokens spell no expression.
pub proof fn lemma_parse_finds_what_is_spelled(tokens: Seq<TokenView>, tree: ExprView)
    ensures
        parse_tokens(tokens) == Ok::<ExprView, ParseErrorView>(tree) <==> spells(tokens, tree),
{
    if parse_tokens(tokens) == Ok::<ExprView, ParseErrorView>(tree) {
        lemma_expr_at_spans(tokens, 0, 0);
        lemma_expr_at_respects(tokens, 0, 0);
    }
    if spells(tokens, tree) {
        lemma_loosely(tree);
        lemma_expr_at_finds(tokens, 0, 0, tree);
    }
}

/// Tokens spell at most one expression.
pub proof fn lemma_spelled_once(tokens: Seq<TokenView>, one: ExprView, other: ExprView)
    requires
        spells(tokens, one),
        spells(tokens, other),
    ensures
        one == other,
{
    lemma_parse_finds_what_is_spelled(tokens, one);
    lemma_parse_finds_what_is_spelled(tokens, other);
}

/// The tier of a binary operator: the higher, the tighter it binds.
pub open spec fn tier(kind: TokenKind) -> nat
    recommends
        is_binary_operator(kind),
{
    match kind {
        TokenKind::Plus | TokenKind::Minus => PRECEDENCE_ADDITION as nat,
        TokenKind::Asterisk | TokenKind::Slash => PRECEDENCE_MULTIPLY as nat,
        _ => PRECEDENCE_EXPONENT as nat,
    }
}

/// A binary operator that stands without parentheses as the right operand
/// of another is of a tighter tier, or both are `^`: operators of one tier
/// nest to the left, but for `^`, which nests to the right; and a looser
/// operator is never the operand of a tighter one.
pub proof fn lemma_right_operand_binds_tighter(tree: ExprView)
    requires
        tree.well_formed(),
        respects_powers(tree),
        tree is Binary,
        (*tree->Binary_right) is Binary,
    ensures
        ({
            let outer = tree->Binary_op.kind;
            let inner = (*tree->Binary_right)->Binary_op.kind;
            tier(inner) > tier(outer) || (inner == TokenKind::Caret && outer == TokenKind::Caret)
        }),
{
}

/// A binary operator that stands without parentheses as the left operand
/// of another is of a tier at least as tight, and they are not both `^`.
pub proof fn lemma_left_operand_binds_as_tight(tree: ExprView)
    requires
        tree.well_formed(),
        respects_powers(tree),
        tree is Binary,
        (*tree->Binary_left) is Binary,
    ensures
        ({
            let outer = tree->Binary_op.kind;
            let inner = (*tree->Binary_left)->Binary_op.kind;
            tier(inner) >= tier(outer) && !(inner == TokenKind::Caret && outer == TokenKind::Caret)
        }),
{
}

/// Whether `tree` is a sign with its operand.
pub open spec fn is_signed(tree: ExprView) -> bool {
    tree is Unary && is_prefix_operator(tree->Unary_op.kind)
}

/// A sign binds more loosely than `^` and more tightly than the other
/// binary operators: without parentheses, the operand of a sign is no
/// binary operator but `^`, and a signed operand is no operand of `^`.
pub proof fn lemma_sign_binds_between(tree: ExprView)
    requires
        tree.well_formed(),
        respects_powers(tree),
    ensures
        is_signed(tree) && (*tree->Unary_operand) is Binary ==> (
        *tree->Unary_operand)->Binary_op.kind == TokenKind::Caret,
        tree is Binary && tree->Binary_op.kind == TokenKind::Caret ==> !is_signed(
            *tree->Binary_left,
        ) && !is_signed(*tree->Binary_right),
{
}

/// Without parentheses, the operand of a postfix operator is a literal or
/// another postfix operator with its operand.
pub proof fn lemma_postfix_binds_tightest(tree: ExprView)
    requires
        tree.well_formed(),
        respects_powers(tree),
        spine_is_postfix(tree),
    ensures
        ({
            let operand = *tree->Unary_operand;
            operand is Integer || operand is Paren || spine_is_postfix(operand)
        }),
{
}

} // verus!
