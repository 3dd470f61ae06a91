//! The parser: from tokens to an expression tree, by precedence climbing.

use super::ast::{
    is_postfix_operator, BinaryOpExprNode, Expr, ExprView, IntegerExprNode, ParenExprNode,
    UnaryOpExprNode,
};
use super::token::{tokens_view, Token, TokenKind, TokenView};
use vstd::prelude::*;

verus! {

/// The tier of `+` and `-` between two operands: the loosest.
pub const PRECEDENCE_ADDITION: u32 = 0;

/// The tier of `*` and `/`.
pub const PRECEDENCE_MULTIPLY: u32 = 1;

/// The tier of `+` and `-` in front of one operand.
pub const PRECEDENCE_UNARYNEG: u32 = 2;

/// The tier of `^`.
pub const PRECEDENCE_EXPONENT: u32 = 3;

/// The tier of `!`: the tightest.
pub const PRECEDENCE_FACTORIAL: u32 = 4;

/// The binding powers of a left-associative tier: the right one is the
/// higher, so an operator of the same tier to the right does not bind.
pub open spec fn left_associative_powers(level: nat) -> (nat, nat) {
    (((level + 1) * 2 - 1) as nat, (level + 1) * 2)
}

/// The binding powers of a right-associative tier: the left one is the
/// higher, so an operator of the same tier to the right binds.
pub open spec fn right_associative_powers(level: nat) -> (nat, nat) {
    ((level + 1) * 2, ((level + 1) * 2 - 1) as nat)
}

/// The binding power of a prefix or postfix tier.
pub open spec fn unary_power(level: nat) -> nat {
    (level + 1) * 2
}

/// The power with which a token binds the operand behind it; 0 where the
/// token is no prefix operator.
pub open spec fn prefix_power(kind: TokenKind) -> nat {
    match kind {
        TokenKind::Plus | TokenKind::Minus => unary_power(PRECEDENCE_UNARYNEG as nat),
        _ => 0,
    }
}

/// The power with which a token binds the operand in front of it; 0 where
/// the token is no postfix operator.
pub open spec fn postfix_power(kind: TokenKind) -> nat {
    match kind {
        TokenKind::Bang => unary_power(PRECEDENCE_FACTORIAL as nat),
        _ => 0,
    }
}

/// The powers with which a token binds the operands on its left and on its
/// right; `(0, 0)` where the token is no binary operator.
pub open spec fn binary_power(kind: TokenKind) -> (nat, nat) {
    match kind {
        TokenKind::Plus | TokenKind::Minus => left_associative_powers(PRECEDENCE_ADDITION as nat),
        TokenKind::Asterisk | TokenKind::Slash => left_associative_powers(
            PRECEDENCE_MULTIPLY as nat,
        ),
        TokenKind::Caret => right_associative_powers(PRECEDENCE_EXPONENT as nat),
        _ => (0, 0),
    }
}

/// The binding powers of the left-associative tier `level`.
fn left_associative(level: u32) -> (r: (u32, u32))
    requires
        level < 0x7fff_ffff,
    ensures
        (r.0 as nat, r.1 as nat) == left_associative_powers(level as nat),
{
    ((level + 1) * 2 - 1, (level + 1) * 2)
}

/// The binding powers of the right-associative tier `level`.
fn right_associative(level: u32) -> (r: (u32, u32))
    requires
        level < 0x7fff_ffff,
    ensures
        (r.0 as nat, r.1 as nat) == right_associative_powers(level as nat),
{
    ((level + 1) * 2, (level + 1) * 2 - 1)
}

/// The binding power of the prefix or postfix tier `level`.
fn unary(level: u32) -> (r: u32)
    requires
        level < 0x7fff_ffff,
    ensures
        r as nat == unary_power(level as nat),
{
    (level + 1) * 2
}

impl Token {
    /// The power with which this token binds the operand behind it; 0 where
    /// it is no prefix operator.
    pub fn get_unary_precedence_prefix(&self) -> (r: u32)
        ensures
            r as nat == prefix_power(self.kind),
    {
        match self.kind {
            TokenKind::Plus | TokenKind::Minus => unary(PRECEDENCE_UNARYNEG),
            _ => 0,
        }
    }

    /// The power with which this token binds the operand in front of it; 0
    /// where it is no postfix operator.
    pub fn get_unary_precedence_postfix(&self) -> (r: u32)
        ensures
            r as nat == postfix_power(self.kind),
    {
        match self.kind {
            TokenKind::Bang => unary(PRECEDENCE_FACTORIAL),
            _ => 0,
        }
    }

    /// The powers with which this token binds the operands on its left and
    /// on its right; `(0, 0)` where it is no binary operator.
    pub fn get_binary_precedence(&self) -> (r: (u32, u32))
        ensures
            (r.0 as nat, r.1 as nat) == binary_power(self.kind),
    {
        match self.kind {
            TokenKind::Plus | TokenKind::Minus => left_associative(PRECEDENCE_ADDITION),
            TokenKind::Asterisk | TokenKind::Slash => left_associative(PRECEDENCE_MULTIPLY),
            TokenKind::Caret => right_associative(PRECEDENCE_EXPONENT),
            _ => (0, 0),
        }
    }
}

/// Why a run of tokens is no expression.
#[derive(Debug, PartialEq, Eq)]
pub enum ParseError {
    /// A token that cannot start an operand.
    UnexpectedToken { token: Token },
    /// A token that follows a complete expression.
    TrailingInput { token: Token },
    /// The token that stands where a `)` should close a parenthesis.
    UnclosedParen { token: Token },
}

/// The mathematical value of a [`ParseError`].
pub enum ParseErrorView {
    UnexpectedToken { token: TokenView },
    TrailingInput { token: TokenView },
    UnclosedParen { token: TokenView },
}

impl ParseErrorView {
    /// The token at which the failure shows.
    pub open spec fn token(self) -> TokenView {
        match self {
            ParseErrorView::UnexpectedToken { token } => token,
            ParseErrorView::TrailingInput { token } => token,
            ParseErrorView::UnclosedParen { token } => token,
        }
    }
}

impl View for ParseError {
    type V = ParseErrorView;

    open spec fn view(&self) -> ParseErrorView {
        match self {
            ParseError::UnexpectedToken { token } => ParseErrorView::UnexpectedToken {
                token: token@,
            },
            ParseError::TrailingInput { token } => ParseErrorView::TrailingInput { token: token@ },
            ParseError::UnclosedParen { token } => ParseErrorView::UnclosedParen { token: token@ },
        }
    }
}

/// The kind of the token at `i`. Past the last token the input has ended.
pub open spec fn kind_at(tokens: Seq<TokenView>, i: int) -> TokenKind {
    if 0 <= i < tokens.len() {
        tokens[i].kind
    } else {
        TokenKind::Eof
    }
}

/// The number of tokens from `i` on.
pub open spec fn remaining(tokens: Seq<TokenView>, i: int) -> nat {
    if i < tokens.len() {
        (tokens.len() - i) as nat
    } else {
        0
    }
}

/// `left` with every postfix operator from `pos` on that binds at least as
/// tightly as `min_bp`.
pub open spec fn postfix_tail(
    tokens: Seq<TokenView>,
    pos: int,
    min_bp: nat,
    left: ExprView,
) -> ExprView
    decreases remaining(tokens, pos),
{
    let power = postfix_power(kind_at(tokens, pos));
    if power == 0 || power < min_bp {
        left
    } else {
        postfix_tail(
            tokens,
            pos + 1,
            min_bp,
            ExprView::Unary { op: tokens[pos], operand: Box::new(left) },
        )
    }
}

/// The expression that starts at `pos` and holds no operator that binds
/// more loosely than `min_bp`, as far as it reaches. It spans as many tokens
/// as its tree holds.
pub open spec fn expr_at(tokens: Seq<TokenView>, pos: int, min_bp: nat) -> Result<
    ExprView,
    ParseErrorView,
>
    decreases remaining(tokens, pos), 2nat,
{
    let power = prefix_power(kind_at(tokens, pos));
    let head = if power != 0 && power >= min_bp {
        match expr_at(tokens, pos + 1, power) {
            Ok(operand) => Ok(ExprView::Unary { op: tokens[pos], operand: Box::new(operand) }),
            Err(e) => Err(e),
        }
    } else {
        atom_at(tokens, pos)
    };
    match head {
        Ok(head) => {
            let left = postfix_tail(tokens, pos + head.token_count(), min_bp, head);
            binary_tail(tokens, pos + left.token_count(), min_bp, left)
        },
        Err(e) => Err(e),
    }
}

/// The operand that starts at `pos`: an integer literal, or an expression
/// between parentheses.
pub open spec fn atom_at(tokens: Seq<TokenView>, pos: int) -> Result<ExprView, ParseErrorView>
    decreases remaining(tokens, pos), 1nat,
{
    match kind_at(tokens, pos) {
        TokenKind::Integer => Ok(ExprView::Integer { value: tokens[pos] }),
        TokenKind::LParen => match expr_at(tokens, pos + 1, 0) {
            Ok(inner) => {
                let close = pos + 1 + inner.token_count();
                if kind_at(tokens, close) == TokenKind::RParen {
                    Ok(
                        ExprView::Paren {
                            lparen: tokens[pos],
                            inner: Box::new(inner),
                            rparen: tokens[close],
                        },
                    )
                } else {
                    Err(ParseErrorView::UnclosedParen { token: tokens[close] })
                }
            },
            Err(e) => Err(e),
        },
        _ => Err(ParseErrorView::UnexpectedToken { token: tokens[pos] }),
    }
}

/// `left` with every binary operator from `pos` on that binds at least as
/// tightly as `min_bp`, each with its right operand.
pub open spec fn binary_tail(
    tokens: Seq<TokenView>,
    pos: int,
    min_bp: nat,
    left: ExprView,
) -> Result<ExprView, ParseErrorView>
    decreases remaining(tokens, pos), 0nat,
{
    let (left_power, right_power) = binary_power(kind_at(tokens, pos));
    if left_power == 0 || left_power < min_bp {
        Ok(left)
    } else {
        match expr_at(tokens, pos + 1, right_power) {
            Ok(right) => binary_tail(
                tokens,
                pos + 1 + right.token_count(),
                min_bp,
                ExprView::Binary {
                    left: Box::new(left),
                    op: tokens[pos],
                    right: Box::new(right),
                },
            ),
            Err(e) => Err(e),
        }
    }
}

/// The one expression that starts at `pos` and reaches to the end of the
/// input.
pub open spec fn parse_at(tokens: Seq<TokenView>, pos: int) -> Result<ExprView, ParseErrorView> {
    match expr_at(tokens, pos, 0) {
        Ok(tree) => {
            let end = pos + tree.token_count();
            if kind_at(tokens, end) == TokenKind::Eof {
                Ok(tree)
            } else {
                Err(ParseErrorView::TrailingInput { token: tokens[end] })
            }
        },
        Err(e) => Err(e),
    }
}

/// The expression that `tokens` spell.
pub open spec fn parse_tokens(tokens: Seq<TokenView>) -> Result<ExprView, ParseErrorView> {
    parse_at(tokens, 0)
}

/// Whether `tree` is well formed and holds exactly the tokens of `tokens`
/// that start at `pos`, in their order.
pub open spec fn spans(tokens: Seq<TokenView>, pos: int, tree: ExprView) -> bool {
    &&& tree.well_formed()
    &&& 0 <= pos
    &&& pos + tree.token_count() <= tokens.len()
    &&& tree.tokens() == tokens.subrange(pos, pos + tree.token_count())
}

/// Postfix operators behind a tree that spans the tokens from `start` on
/// give a tree that does so too.
pub proof fn lemma_postfix_tail_spans(
    tokens: Seq<TokenView>,
    start: int,
    pos: int,
    min_bp: nat,
    left: ExprView,
)
    requires
        spans(tokens, start, left),
        pos == start + left.token_count(),
    ensures
        spans(tokens, start, postfix_tail(tokens, pos, min_bp, left)),
    decreases remaining(tokens, pos),
{
    let power = postfix_power(kind_at(tokens, pos));
    if !(power == 0 || power < min_bp) {
        let next = ExprView::Unary { op: tokens[pos], operand: Box::new(left) };
        assert(next.tokens() =~= tokens.subrange(start, start + next.token_count()));
        lemma_postfix_tail_spans(tokens, start, pos + 1, min_bp, next);
    }
}

/// The expression read at `pos` is well formed and holds exactly the tokens
/// it was read from, in their order.
pub proof fn lemma_expr_at_spans(tokens: Seq<TokenView>, pos: int, min_bp: nat)
    requires
        0 <= pos,
    ensures
        expr_at(tokens, pos, min_bp) matches Ok(tree) ==> spans(tokens, pos, tree),
    decreases remaining(tokens, pos), 2nat,
{
    let power = prefix_power(kind_at(tokens, pos));
    let head = if power != 0 && power >= min_bp {
        match expr_at(tokens, pos + 1, power) {
            Ok(operand) => Ok(ExprView::Unary { op: tokens[pos], operand: Box::new(operand) }),
            Err(e) => Err(e),
        }
    } else {
        atom_at(tokens, pos)
    };
    if power != 0 && power >= min_bp {
        lemma_expr_at_spans(tokens, pos + 1, power);
        if let Ok(head) = head {
            assert(head.tokens() =~= tokens.subrange(pos, pos + head.token_count()));
        }
    } else {
        lemma_atom_at_spans(tokens, pos);
    }
    if let Ok(head) = head {
        let left = postfix_tail(tokens, pos + head.token_count(), min_bp, head);
        lemma_postfix_tail_spans(tokens, pos, pos + head.token_count(), min_bp, head);
        lemma_binary_tail_spans(tokens, pos, pos + left.token_count(), min_bp, left);
    }
}

/// The operand read at `pos` is well formed and holds exactly the tokens it
/// was read from, in their order.
pub proof fn lemma_atom_at_spans(tokens: Seq<TokenView>, pos: int)
    requires
        0 <= pos,
    ensures
        atom_at(tokens, pos) matches Ok(tree) ==> spans(tokens, pos, tree),
    decreases remaining(tokens, pos), 1nat,
{
    if kind_at(tokens, pos) == TokenKind::LParen {
        lemma_expr_at_spans(tokens, pos + 1, 0);
        if let Ok(tree) = atom_at(tokens, pos) {
            assert(tree.tokens() =~= tokens.subrange(pos, pos + tree.token_count()));
        }
    } else if let Ok(tree) = atom_at(tokens, pos) {
        assert(tree.tokens() =~= tokens.subrange(pos, pos + tree.token_count()));
    }
}

/// Binary operators and their right operands behind a tree that spans the
/// tokens from `start` on give a tree that does so too.
pub proof fn lemma_binary_tail_spans(
    tokens: Seq<TokenView>,
    start: int,
    pos: int,
    min_bp: nat,
    left: ExprView,
)
    requires
        spans(tokens, start, left),
        pos == start + left.token_count(),
    ensures
        binary_tail(tokens, pos, min_bp, left) matches Ok(tree) ==> spans(tokens, start, tree),
    decreases remaining(tokens, pos), 0nat,
{
    let (left_power, right_power) = binary_power(kind_at(tokens, pos));
    if !(left_power == 0 || left_power < min_bp) {
        lemma_expr_at_spans(tokens, pos + 1, right_power);
        if let Ok(right) = expr_at(tokens, pos + 1, right_power) {
            let next = ExprView::Binary {
                left: Box::new(left),
                op: tokens[pos],
                right: Box::new(right),
            };
            assert(next.tokens() =~= tokens.subrange(start, start + next.token_count()));
            lemma_binary_tail_spans(tokens, start, pos + 1 + right.token_count(), min_bp, next);
        }
    }
}

/// Whether every operator on the left edge of `tree` binds at least as
/// tightly as `min_bp`: the tree can stand as the right operand of an
/// operator with that right binding power.
pub open spec fn starts_tightly(tree: ExprView, min_bp: nat) -> bool
    decreases tree,
{
    match tree {
        ExprView::Binary { left, op, right } => {
            &&& binary_power(op.kind).0 >= min_bp
            &&& starts_tightly(*left, min_bp)
        },
        ExprView::Unary { op, operand } => if is_postfix_operator(op.kind) {
            postfix_power(op.kind) >= min_bp && starts_tightly(*operand, min_bp)
        } else {
            prefix_power(op.kind) >= min_bp
        },
        _ => true,
    }
}

/// Whether every operator on the right edge of `tree` binds its right
/// operand more tightly than `power`: the tree can stand as the left
/// operand of an operator with that left binding power.
pub open spec fn ends_tightly(tree: ExprView, power: nat) -> bool
    decreases tree,
{
    match tree {
        ExprView::Binary { left, op, right } => {
            &&& binary_power(op.kind).1 > power
            &&& ends_tightly(*right, power)
        },
        ExprView::Unary { op, operand } => if is_postfix_operator(op.kind) {
            true
        } else {
            prefix_power(op.kind) > power && ends_tightly(*operand, power)
        },
        _ => true,
    }
}

/// Whether the operators of `tree` stand as their binding powers ask: at
/// every operator, the operand on a side binds more tightly on the edge
/// that faces the operator than the operator binds on that side (on the
/// right: at least as tightly). So an operator of a looser tier is never an
/// operand of one of a tighter tier without parentheses; operators of a
/// left-associative tier nest to the left, those of a right-associative
/// tier to the right; and the operand of a postfix operator is a literal, a
/// parenthesis or another postfix operator.
pub open spec fn respects_powers(tree: ExprView) -> bool
    decreases tree,
{
    match tree {
        ExprView::Binary { left, op, right } => {
            &&& respects_powers(*left)
            &&& respects_powers(*right)
            &&& ends_tightly(*left, binary_power(op.kind).0)
            &&& starts_tightly(*right, binary_power(op.kind).1)
        },
        ExprView::Unary { op, operand } => {
            &&& respects_powers(*operand)
            &&& if is_postfix_operator(op.kind) {
                ends_tightly(*operand, postfix_power(op.kind))
            } else {
                starts_tightly(*operand, prefix_power(op.kind))
            }
        },
        ExprView::Integer { value } => true,
        ExprView::Paren { lparen, inner, rparen } => respects_powers(*inner),
    }
}

/// Whether `tree`, read with the threshold `min_bp` up to the token of kind
/// `next`, stands as the binding powers ask and ends where it must: no
/// operator on its left edge binds more loosely than `min_bp`, and `next`
/// is no operator that could still join it.
pub open spec fn read_rightly(tree: ExprView, min_bp: nat, next: TokenKind) -> bool {
    &&& respects_powers(tree)
    &&& starts_tightly(tree, min_bp)
    &&& ends_tightly(tree, binary_power(next).0)
    &&& binary_power(next).0 == 0 || binary_power(next).0 < min_bp
    &&& postfix_power(next) == 0
}

/// Postfix operators behind a tree that stands as the binding powers ask
/// give a tree that does so too.
pub proof fn lemma_postfix_tail_respects(
    tokens: Seq<TokenView>,
    pos: int,
    min_bp: nat,
    left: ExprView,
)
    requires
        min_bp <= unary_power(PRECEDENCE_FACTORIAL as nat),
        respects_powers(left),
        starts_tightly(left, min_bp),
        ends_tightly(left, binary_power(kind_at(tokens, pos)).0),
        ends_tightly(left, unary_power(PRECEDENCE_FACTORIAL as nat)) || postfix_power(
            kind_at(tokens, pos),
        ) == 0,
    ensures
        ({
            let tree = postfix_tail(tokens, pos, min_bp, left);
            let next = kind_at(tokens, pos + tree.token_count() - left.token_count());
            &&& respects_powers(tree)
            &&& starts_tightly(tree, min_bp)
            &&& ends_tightly(tree, binary_power(next).0)
            &&& postfix_power(next) == 0
        }),
    decreases remaining(tokens, pos),
{
    let power = postfix_power(kind_at(tokens, pos));
    if !(power == 0 || power < min_bp) {
        let next = ExprView::Unary { op: tokens[pos], operand: Box::new(left) };
        lemma_postfix_tail_respects(tokens, pos + 1, min_bp, next);
    }
}

/// The expression read at `pos` stands as the binding powers ask.
pub proof fn lemma_expr_at_respects(tokens: Seq<TokenView>, pos: int, min_bp: nat)
    requires
        min_bp <= unary_power(PRECEDENCE_FACTORIAL as nat),
    ensures
        expr_at(tokens, pos, min_bp) matches Ok(tree) ==> read_rightly(
            tree,
            min_bp,
            kind_at(tokens, pos + tree.token_count()),
        ),
    decreases remaining(tokens, pos), 2nat,
{
    let power = prefix_power(kind_at(tokens, pos));
    let head = if power != 0 && power >= min_bp {
        match expr_at(tokens, pos + 1, power) {
            Ok(operand) => Ok(ExprView::Unary { op: tokens[pos], operand: Box::new(operand) }),
            Err(e) => Err(e),
        }
    } else {
        atom_at(tokens, pos)
    };
    if power != 0 && power >= min_bp {
        lemma_expr_at_respects(tokens, pos + 1, power);
    } else {
        lemma_atom_at_respects(tokens, pos);
    }
    if let Ok(head) = head {
        let after = pos + head.token_count();
        let left = postfix_tail(tokens, after, min_bp, head);
        lemma_postfix_tail_respects(tokens, after, min_bp, head);
        lemma_binary_tail_respects(tokens, pos + left.token_count(), min_bp, left);
    }
}

/// The expression between the parentheses of an operand stands as the
/// binding powers ask.
pub proof fn lemma_atom_at_respects(tokens: Seq<TokenView>, pos: int)
    ensures
        atom_at(tokens, pos) matches Ok(tree) ==> {
            &&& respects_powers(tree)
            &&& forall|power: nat| #[trigger] starts_tightly(tree, power)
            &&& forall|power: nat| #[trigger] ends_tightly(tree, power)
        },
    decreases remaining(tokens, pos), 1nat,
{
    if kind_at(tokens, pos) == TokenKind::LParen {
        lemma_expr_at_respects(tokens, pos + 1, 0);
    }
}

/// Binary operators and their right operands behind a tree that stands as
/// the binding powers ask give a tree that does so too.
pub proof fn lemma_binary_tail_respects(
    tokens: Seq<TokenView>,
    pos: int,
    min_bp: nat,
    left: ExprView,
)
    requires
        min_bp <= unary_power(PRECEDENCE_FACTORIAL as nat),
        respects_powers(left),
        starts_tightly(left, min_bp),
        ends_tightly(left, binary_power(kind_at(tokens, pos)).0),
        postfix_power(kind_at(tokens, pos)) == 0,
    ensures
        binary_tail(tokens, pos, min_bp, left) matches Ok(tree) ==> read_rightly(
            tree,
            min_bp,
            kind_at(tokens, pos + tree.token_count() - left.token_count()),
        ),
    decreases remaining(tokens, pos), 0nat,
{
    let (left_power, right_power) = binary_power(kind_at(tokens, pos));
    if !(left_power == 0 || left_power < min_bp) {
        lemma_expr_at_respects(tokens, pos + 1, right_power);
        if let Ok(right) = expr_at(tokens, pos + 1, right_power) {
            let next = ExprView::Binary {
                left: Box::new(left),
                op: tokens[pos],
                right: Box::new(right),
            };
            lemma_binary_tail_respects(tokens, pos + 1 + right.token_count(), min_bp, next);
        }
    }
}

/// A parser over one run of tokens, which it reads from left to right.
pub struct Parser {
    tokens: Vec<Token>,
    pos: usize,
}

impl Parser {
    /// The tokens that this parser reads.
    pub closed spec fn input(&self) -> Seq<TokenView> {
        tokens_view(self.tokens@)
    }

    /// The index of the next token to read.
    pub closed spec fn cursor(&self) -> int {
        self.pos as int
    }

    /// The input ends with an end-of-input token, and the cursor stands on a
    /// token.
    pub closed spec fn well_formed(&self) -> bool {
        &&& 0 <= self.pos < self.tokens.len()
        &&& self.tokens[self.tokens.len() - 1].kind == TokenKind::Eof
    }

    /// Whether the parser `after` stands where this one failed with `e`: at
    /// the token at which the failure shows, not in front of where this one
    /// stood.
    pub open spec fn stopped_at(&self, after: &Parser, e: ParseErrorView) -> bool {
        &&& self.cursor() <= after.cursor() < self.input().len()
        &&& self.input()[after.cursor()] == e.token()
    }

    /// A parser at the first of `tokens`, the last of which must mark the
    /// end of the input.
    pub fn new(tokens: Vec<Token>) -> (r: Self)
        requires
            tokens.len() > 0,
            tokens[tokens.len() - 1].kind == TokenKind::Eof,
        ensures
            r.well_formed(),
            r.input() == tokens_view(tokens@),
            r.cursor() == 0,
    {
        Parser { tokens, pos: 0 }
    }

    /// Parses one expression that reaches from the cursor to the end of the
    /// input. The tree is well formed, holds the tokens from the cursor to
    /// the end-of-input token in their order, and its operators stand as
    /// their binding powers ask.
    pub fn parse(&mut self) -> (r: Result<Expr, ParseError>)
        requires
            old(self).well_formed(),
        ensures
            final(self).well_formed(),
            final(self).input() == old(self).input(),
            match r {
                Ok(tree) => {
                    &&& parse_at(old(self).input(), old(self).cursor()) == Ok::<
                        ExprView,
                        ParseErrorView,
                    >(tree@)
                    &&& final(self).cursor() == old(self).cursor() + tree@.token_count()
                    &&& spans(old(self).input(), old(self).cursor(), tree@)
                    &&& respects_powers(tree@)
                    &&& kind_at(old(self).input(), final(self).cursor()) == TokenKind::Eof
                },
                Err(e) => {
                    &&& parse_at(old(self).input(), old(self).cursor()) == Err::<
                        ExprView,
                        ParseErrorView,
                    >(e@)
                    &&& old(self).stopped_at(final(self), e@)
                },
            },
    {
        proof {
            lemma_expr_at_spans(self.input(), self.cursor(), 0);
            lemma_expr_at_respects(self.input(), self.cursor(), 0);
        }
        let exp = match self.parse_expr() {
            Ok(exp) => exp,
            Err(e) => {
                return Err(e);
            },
        };
        if self.peek().kind != TokenKind::Eof {
            Err(ParseError::TrailingInput { token: self.peek().clone() })
        } else {
            Ok(exp)
        }
    }

    /// Parses one expression from the cursor on, as far as it reaches.
    fn parse_expr(&mut self) -> (r: Result<Expr, ParseError>)
        requires
            old(self).well_formed(),
        ensures
            final(self).well_formed(),
            final(self).input() == old(self).input(),
            match r {
                Ok(tree) => {
                    &&& expr_at(old(self).input(), old(self).cursor(), 0) == Ok::<
                        ExprView,
                        ParseErrorView,
                    >(tree@)
                    &&& final(self).cursor() == old(self).cursor() + tree@.token_count()
                },
                Err(e) => {
                    &&& expr_at(old(self).input(), old(self).cursor(), 0) == Err::<
                        ExprView,
                        ParseErrorView,
                    >(e@)
                    &&& old(self).stopped_at(final(self), e@)
                },
            },
        decreases remaining(old(self).input(), old(self).cursor()), 3nat,
    {
        self.parse_expr_bind(0)
    }

    /// Parses one operand: an integer literal, or an expression between
    /// parentheses. A parenthesis that is not closed is an error.
    fn parse_atomic_expr(&mut self) -> (r: Result<Expr, ParseError>)
        requires
            old(self).well_formed(),
        ensures
            final(self).well_formed(),
            final(self).input() == old(self).input(),
            match r {
                Ok(tree) => {
                    &&& atom_at(old(self).input(), old(self).cursor()) == Ok::<
                        ExprView,
                        ParseErrorView,
                    >(tree@)
                    &&& final(self).cursor() == old(self).cursor() + tree@.token_count()
                },
                Err(e) => {
                    &&& atom_at(old(self).input(), old(self).cursor()) == Err::<
                        ExprView,
                        ParseErrorView,
                    >(e@)
                    &&& old(self).stopped_at(final(self), e@)
                },
            },
        decreases remaining(old(self).input(), old(self).cursor()), 1nat,
    {
        let kind = self.peek().kind;
        match kind {
            TokenKind::Integer => Ok(self.emit_integer()),
            TokenKind::LParen => {
                let left = self.consume();
                let expr = match self.parse_expr() {
                    Ok(expr) => expr,
                    Err(e) => {
                        return Err(e);
                    },
                };
                if self.peek().kind != TokenKind::RParen {
                    return Err(ParseError::UnclosedParen { token: self.peek().clone() });
                }
                let right = self.consume();
                Ok(
                    Expr::ParenExpr(
                        ParenExprNode { lparen: left, expr: Box::new(expr), rparen: right },
                    ),
                )
            },
            _ => Err(ParseError::UnexpectedToken { token: self.peek().clone() }),
        }
    }

    /// Parses one expression from the cursor on that holds no operator
    /// which binds more loosely than `min_bp`.
    fn parse_expr_bind(&mut self, min_bp: u32) -> (r: Result<Expr, ParseError>)
        requires
            old(self).well_formed(),
        ensures
            final(self).well_formed(),
            final(self).input() == old(self).input(),
            match r {
                Ok(tree) => {
                    &&& expr_at(old(self).input(), old(self).cursor(), min_bp as nat) == Ok::<
                        ExprView,
                        ParseErrorView,
                    >(tree@)
                    &&& final(self).cursor() == old(self).cursor() + tree@.token_count()
                },
                Err(e) => {
                    &&& expr_at(old(self).input(), old(self).cursor(), min_bp as nat) == Err::<
                        ExprView,
                        ParseErrorView,
                    >(e@)
                    &&& old(self).stopped_at(final(self), e@)
                },
            },
        decreases remaining(old(self).input(), old(self).cursor()), 2nat,
    {
        let ghost tokens = self.input();
        let ghost start = self.cursor();
        let prefix_prec = self.peek().get_unary_precedence_prefix();
        let mut left: Expr;

        if prefix_prec != 0 && prefix_prec >= min_bp {
            let op = self.consume();
            let operand = match self.parse_expr_bind(prefix_prec) {
                Ok(operand) => operand,
                Err(e) => {
                    return Err(e);
                },
            };
            left = Expr::UnaryOpExpr(UnaryOpExprNode { op: op, operand: Box::new(operand) });
        } else {
            left =
            match self.parse_atomic_expr() {
                Ok(atom) => atom,
                Err(e) => {
                    return Err(e);
                },
            };
        }

        let ghost head = left@;
        loop
            invariant
                self.well_formed(),
                self.input() == tokens,
                self.cursor() == start + left@.token_count(),
                postfix_tail(tokens, self.cursor(), min_bp as nat, left@) == postfix_tail(
                    tokens,
                    start + head.token_count(),
                    min_bp as nat,
                    head,
                ),
            ensures
                left@ == postfix_tail(tokens, start + head.token_count(), min_bp as nat, head),
            decreases remaining(tokens, self.cursor()),
        {
            let postfix_prec = self.peek().get_unary_precedence_postfix();
            if postfix_prec == 0 || postfix_prec < min_bp {
                break ;
            }
            let op = self.consume();
            let operand = left;
            left = Expr::UnaryOpExpr(UnaryOpExprNode { op: op, operand: Box::new(operand) });
        }

        loop
            invariant
                self.well_formed(),
                self.input() == tokens,
                tokens == old(self).input(),
                start == old(self).cursor(),
                self.cursor() == start + left@.token_count(),
                expr_at(tokens, start, min_bp as nat) == binary_tail(
                    tokens,
                    self.cursor(),
                    min_bp as nat,
                    left@,
                ),
            ensures
                expr_at(tokens, start, min_bp as nat) == Ok::<ExprView, ParseErrorView>(left@),
            decreases remaining(tokens, self.cursor()),
        {
            let (left_prec, right_prec) = self.peek().get_binary_precedence();
            if left_prec == 0 || left_prec < min_bp {
                break ;
            }
            let op = self.consume();
            let right: Expr = match self.parse_expr_bind(right_prec) {
                Ok(right) => right,
                Err(e) => {
                    return Err(e);
                },
            };
            left =
            Expr::BinaryOpExpr(
                BinaryOpExprNode { left: Box::new(left), op: op, right: Box::new(right) },
            );
        }

        Ok(left)
    }

    /// Takes the integer literal under the cursor.
    fn emit_integer(&mut self) -> (r: Expr)
        requires
            old(self).well_formed(),
            kind_at(old(self).input(), old(self).cursor()) == TokenKind::Integer,
        ensures
            final(self).well_formed(),
            final(self).input() == old(self).input(),
            final(self).cursor() == old(self).cursor() + 1,
            r@ == (ExprView::Integer { value: old(self).input()[old(self).cursor()] }),
    {
        let consumed = self.consume();
        Expr::IntegerExpr(IntegerExprNode { value: consumed })
    }

    /// The token under the cursor.
    fn peek(&self) -> (r: &Token)
        requires
            self.well_formed(),
        ensures
            0 <= self.cursor() < self.input().len(),
            r@ == self.input()[self.cursor()],
            r.kind == kind_at(self.input(), self.cursor()),
    {
        &self.tokens[self.pos]
    }

    /// Takes the token under the cursor, which must not be the end of the
    /// input, and steps over it.
    fn consume(&mut self) -> (r: Token)
        requires
            old(self).well_formed(),
            kind_at(old(self).input(), old(self).cursor()) != TokenKind::Eof,
        ensures
            final(self).well_formed(),
            final(self).input() == old(self).input(),
            final(self).cursor() == old(self).cursor() + 1,
            0 <= old(self).cursor() < old(self).input().len(),
            r@ == old(self).input()[old(self).cursor()],
    {
        let token = self.tokens[self.pos].clone();
        self.pos += 1;
        token
    }
}

} // verus!
