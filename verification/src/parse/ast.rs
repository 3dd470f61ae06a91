//! The expression tree that the parser builds and the evaluator walks.

use super::token::{Token, TokenKind, TokenView};
use vstd::prelude::*;
use vstd::string::StringExecFns;

verus! {

/// An expression. Every node owns its subtrees.
#[derive(Debug, PartialEq, Eq)]
pub enum Expr {
    BinaryOpExpr(BinaryOpExprNode),
    UnaryOpExpr(UnaryOpExprNode),
    IntegerExpr(IntegerExprNode),
    ParenExpr(ParenExprNode),
}

/// Two operands around an operator.
#[derive(Debug, PartialEq, Eq)]
pub struct BinaryOpExprNode {
    pub left: Box<Expr>,
    pub op: Token,
    pub right: Box<Expr>,
}

/// One operand with an operator in front (`+`, `-`) or behind (`!`).
#[derive(Debug, PartialEq, Eq)]
pub struct UnaryOpExprNode {
    pub operand: Box<Expr>,
    pub op: Token,
}

/// An integer literal.
#[derive(Debug, PartialEq, Eq)]
pub struct IntegerExprNode {
    pub value: Token,
}

/// An expression between parentheses.
#[derive(Debug, PartialEq, Eq)]
pub struct ParenExprNode {
    pub lparen: Token,
    pub expr: Box<Expr>,
    pub rparen: Token,
}

/// The mathematical value of an [`Expr`].
pub enum ExprView {
    Binary { left: Box<ExprView>, op: TokenView, right: Box<ExprView> },
    Unary { op: TokenView, operand: Box<ExprView> },
    Integer { value: TokenView },
    Paren { lparen: TokenView, inner: Box<ExprView>, rparen: TokenView },
}

impl Expr {
    /// The tree as a mathematical value, node by node.
    pub open spec fn model(&self) -> ExprView
        decreases self,
    {
        match self {
            Expr::BinaryOpExpr(node) => ExprView::Binary {
                left: Box::new(node.left.model()),
                op: node.op@,
                right: Box::new(node.right.model()),
            },
            Expr::UnaryOpExpr(node) => ExprView::Unary {
                op: node.op@,
                operand: Box::new(node.operand.model()),
            },
            Expr::IntegerExpr(node) => ExprView::Integer { value: node.value@ },
            Expr::ParenExpr(node) => ExprView::Paren {
                lparen: node.lparen@,
                inner: Box::new(node.expr.model()),
                rparen: node.rparen@,
            },
        }
    }
}

impl View for Expr {
    type V = ExprView;

    open spec fn view(&self) -> ExprView {
        self.model()
    }
}

/// The operators that stand between two operands.
pub open spec fn is_binary_operator(kind: TokenKind) -> bool {
    kind == TokenKind::Plus || kind == TokenKind::Minus || kind == TokenKind::Asterisk || kind
        == TokenKind::Slash || kind == TokenKind::Caret
}

/// The operators that stand in front of their operand.
pub open spec fn is_prefix_operator(kind: TokenKind) -> bool {
    kind == TokenKind::Plus || kind == TokenKind::Minus
}

/// The operator that stands behind its operand.
pub open spec fn is_postfix_operator(kind: TokenKind) -> bool {
    kind == TokenKind::Bang
}

impl ExprView {
    /// The number of tokens in the tree.
    pub open spec fn token_count(self) -> nat
        decreases self,
    {
        match self {
            ExprView::Binary { left, op, right } => left.token_count() + 1 + right.token_count(),
            ExprView::Unary { op, operand } => 1 + operand.token_count(),
            ExprView::Integer { value } => 1,
            ExprView::Paren { lparen, inner, rparen } => 2 + inner.token_count(),
        }
    }

    /// The tokens of the tree in the order in which they stand in the text.
    pub open spec fn tokens(self) -> Seq<TokenView>
        decreases self,
    {
        match self {
            ExprView::Binary { left, op, right } => left.tokens().push(op) + right.tokens(),
            ExprView::Unary { op, operand } => if is_postfix_operator(op.kind) {
                operand.tokens().push(op)
            } else {
                seq![op] + operand.tokens()
            },
            ExprView::Integer { value } => seq![value],
            ExprView::Paren { lparen, inner, rparen } => (seq![lparen] + inner.tokens()).push(
                rparen,
            ),
        }
    }

    /// Every node holds tokens of the kinds that belong in its place.
    pub open spec fn well_formed(self) -> bool
        decreases self,
    {
        match self {
            ExprView::Binary { left, op, right } => {
                &&& is_binary_operator(op.kind)
                &&& left.well_formed()
                &&& right.well_formed()
            },
            ExprView::Unary { op, operand } => {
                &&& is_prefix_operator(op.kind) || is_postfix_operator(op.kind)
                &&& operand.well_formed()
            },
            ExprView::Integer { value } => value.kind == TokenKind::Integer,
            ExprView::Paren { lparen, inner, rparen } => {
                &&& lparen.kind == TokenKind::LParen
                &&& rparen.kind == TokenKind::RParen
                &&& inner.well_formed()
            },
        }
    }

    /// No token of a well-formed tree marks the end of the input.
    pub proof fn lemma_tokens_are_not_eof(self)
        requires
            self.well_formed(),
        ensures
            forall|i: int|
                0 <= i < self.tokens().len() ==> (#[trigger] self.tokens()[i]).kind
                    != TokenKind::Eof,
        decreases self,
    {
        match self {
            ExprView::Binary { left, op, right } => {
                left.lemma_tokens_are_not_eof();
                right.lemma_tokens_are_not_eof();
            },
            ExprView::Unary { op, operand } => {
                operand.lemma_tokens_are_not_eof();
            },
            ExprView::Integer { value } => {},
            ExprView::Paren { lparen, inner, rparen } => {
                inner.lemma_tokens_are_not_eof();
            },
        }
    }

    /// A tree has as many tokens as [`ExprView::tokens`] lists, and at
    /// least one.
    pub proof fn lemma_token_count(self)
        ensures
            self.tokens().len() == self.token_count(),
            self.token_count() >= 1,
        decreases self,
    {
        match self {
            ExprView::Binary { left, op, right } => {
                left.lemma_token_count();
                right.lemma_token_count();
            },
            ExprView::Unary { op, operand } => {
                operand.lemma_token_count();
            },
            ExprView::Integer { value } => {},
            ExprView::Paren { lparen, inner, rparen } => {
                inner.lemma_token_count();
            },
        }
    }
}

/// What stands in front of a node in a drawing of the tree: an elbow for
/// the last child of its parent, a tee for any other.
pub open spec fn branch(last: bool) -> Seq<char> {
    if last {
        "\u{2514}\u{2500}\u{2500} "@
    } else {
        "\u{251c}\u{2500}\u{2500} "@
    }
}

/// The indentation of the children of a node that is drawn behind
/// `indent`: a bar runs down beside them unless the node is a last child.
pub open spec fn child_indent(indent: Seq<char>, last: bool) -> Seq<char> {
    if last {
        indent + "    "@
    } else {
        indent + "|   "@
    }
}

/// What names a node in a drawing of the tree.
pub open spec fn label(tree: ExprView) -> Seq<char> {
    match tree {
        ExprView::Integer { value } => "Integer "@ + value.content,
        ExprView::Binary { left, op, right } => "BinaryOp "@ + op.content,
        ExprView::Unary { op, operand } => "UnaryOp "@ + op.content,
        ExprView::Paren { lparen, inner, rparen } => "ParenExpr"@,
    }
}

/// The drawing of `tree`: one line for each node, a parent above its
/// children, each child indented below its parent.
pub open spec fn drawing(tree: ExprView, indent: Seq<char>, last: bool) -> Seq<char>
    decreases tree,
{
    let line = indent + branch(last) + label(tree) + "\n"@;
    let deeper = child_indent(indent, last);
    match tree {
        ExprView::Integer { value } => line,
        ExprView::Binary { left, op, right } => line + drawing(*left, deeper, false) + drawing(
            *right,
            deeper,
            true,
        ),
        ExprView::Unary { op, operand } => line + drawing(*operand, deeper, true),
        ExprView::Paren { lparen, inner, rparen } => line + drawing(*inner, deeper, true),
    }
}

impl Expr {
    /// Whether every node holds tokens of the kinds that belong in its
    /// place. The parser builds such trees only; the evaluator takes no
    /// others.
    pub fn is_well_formed(&self) -> (r: bool)
        ensures
            r == self@.well_formed(),
        decreases self,
    {
        match self {
            Expr::BinaryOpExpr(node) => {
                let operator = match node.op.kind {
                    TokenKind::Plus
                    | TokenKind::Minus
                    | TokenKind::Asterisk
                    | TokenKind::Slash
                    | TokenKind::Caret => true,
                    _ => false,
                };
                operator && node.left.is_well_formed() && node.right.is_well_formed()
            },
            Expr::UnaryOpExpr(node) => {
                let operator = match node.op.kind {
                    TokenKind::Plus | TokenKind::Minus | TokenKind::Bang => true,
                    _ => false,
                };
                operator && node.operand.is_well_formed()
            },
            Expr::IntegerExpr(node) => node.value.kind == TokenKind::Integer,
            Expr::ParenExpr(node) => {
                node.lparen.kind == TokenKind::LParen && node.rparen.kind == TokenKind::RParen
                    && node.expr.is_well_formed()
            },
        }
    }

    /// The drawing of the tree, for diagnostics.
    pub fn pretty_print(&self) -> (s: String)
        ensures
            s@ == drawing(self@, Seq::empty(), true),
    {
        let mut s = String::new();
        Self::pretty_print_internal(self, "", true, &mut s);
        proof {
            reveal_strlit("");
            assert(""@ =~= Seq::<char>::empty());
            assert(Seq::<char>::empty() + drawing(self@, Seq::empty(), true) =~= drawing(
                self@,
                Seq::empty(),
                true,
            ));
        }
        s
    }

    /// Draws `exp` behind `indent` at the end of `out`.
    fn pretty_print_internal(exp: &Expr, indent: &str, last: bool, out: &mut String)
        ensures
            final(out)@ == old(out)@ + drawing(exp@, indent@, last),
        decreases exp,
    {
        let mut deeper = indent.to_owned();
        out.append(indent);
        if last {
            out.append("\u{2514}\u{2500}\u{2500} ");
            deeper.append("    ");
        } else {
            out.append("\u{251c}\u{2500}\u{2500} ");
            deeper.append("|   ");
        }
        let ghost line = indent@ + branch(last) + label(exp@) + "\n"@;
        match exp {
            Expr::IntegerExpr(exp) => {
                out.append("Integer ");
                out.append(exp.value.content.as_str());
                out.append("\n");
                assert(out@ =~= old(out)@ + line);
            },
            Expr::BinaryOpExpr(exp) => {
                out.append("BinaryOp ");
                out.append(exp.op.content.as_str());
                out.append("\n");
                assert(out@ =~= old(out)@ + line);
                Self::pretty_print_internal(&exp.left, deeper.as_str(), false, out);
                Self::pretty_print_internal(&exp.right, deeper.as_str(), true, out);
                assert(out@ =~= old(out)@ + (line + drawing(exp.left@, deeper@, false) + drawing(
                    exp.right@,
                    deeper@,
                    true,
                )));
            },
            Expr::UnaryOpExpr(exp) => {
                out.append("UnaryOp ");
                out.append(exp.op.content.as_str());
                out.append("\n");
                assert(out@ =~= old(out)@ + line);
                Self::pretty_print_internal(&exp.operand, deeper.as_str(), true, out);
                assert(out@ =~= old(out)@ + (line + drawing(exp.operand@, deeper@, true)));
            },
            Expr::ParenExpr(exp) => {
                out.append("ParenExpr");
                out.append("\n");
                assert(out@ =~= old(out)@ + line);
                Self::pretty_print_internal(&exp.expr, deeper.as_str(), true, out);
                assert(out@ =~= old(out)@ + (line + drawing(exp.expr@, deeper@, true)));
            },
        }
    }
}

} // verus!
