//! The calculator as a whole: scan, parse and evaluate one line.

use crate::eval::interp::{eval, interp, EvalError, EvalErrorView};
use crate::parse::ast::{Expr, ExprView};
use crate::parse::lexer::{lemma_scan_from_well_scanned, scan, LexError, LexErrorView, Lexer};
use crate::parse::tokenization::{lemma_scan_finds_the_tokens, tokenizes};
use crate::parse::grammar::{lemma_parse_finds_what_is_spelled, spells};
use crate::parse::parser::{
    lemma_expr_at_spans, parse_tokens, ParseError, ParseErrorView, Parser,
};
use crate::parse::token::{tokens_view, Token, TokenKind, TokenView};
use crate::text::{chars_of, starts_with};
use vstd::prelude::*;

verus! {

/// Scans `input`: the tokens of the text, or, where it has none, the first
/// character at which that shows.
pub fn lex(input: String) -> (r: Result<Vec<Token>, LexError>)
    ensures
        match r {
            Ok(tokens) => {
                &&& scan(input@) == Ok::<Seq<TokenView>, LexErrorView>(tokens_view(tokens@))
                &&& tokenizes(input@, 0, tokens_view(tokens@))
            },
            Err(e) => {
                &&& scan(input@) == Err::<Seq<TokenView>, LexErrorView>(e@)
                &&& forall|tokens: Seq<TokenView>| !#[trigger] tokenizes(input@, 0, tokens)
            },
        },
{
    proof {
        assert forall|tokens: Seq<TokenView>| #[trigger]
            tokenizes(input@, 0, tokens) == (scan(input@) == Ok::<Seq<TokenView>, LexErrorView>(
                tokens,
            )) by {
            lemma_scan_finds_the_tokens(input@, tokens);
        }
    }
    let mut lexer = Lexer::new(input.as_str());
    let lexed = lexer.lex();
    proof {
        if lexed is Ok {
            let rest = scan(input@)->Ok_0;
            assert(Seq::<TokenView>::empty() + rest =~= rest);
        }
    }
    lexed
}

/// Parses `input`, which must end with an end-of-input token: the one
/// expression that the tokens spell, or, where they spell none, the token
/// at which that shows.
pub fn parse(input: Vec<Token>) -> (r: Result<Expr, ParseError>)
    requires
        input.len() > 0,
        input[input.len() - 1].kind == TokenKind::Eof,
    ensures
        match r {
            Ok(tree) => {
                &&& parse_tokens(tokens_view(input@)) == Ok::<ExprView, ParseErrorView>(tree@)
                &&& spells(tokens_view(input@), tree@)
            },
            Err(e) => {
                &&& parse_tokens(tokens_view(input@)) == Err::<ExprView, ParseErrorView>(e@)
                &&& forall|tree: ExprView| !#[trigger] spells(tokens_view(input@), tree)
            },
        },
{
    proof {
        assert forall|tree: ExprView| #[trigger]
            spells(tokens_view(input@), tree) == (parse_tokens(tokens_view(input@)) == Ok::<
                ExprView,
                ParseErrorView,
            >(tree)) by {
            lemma_parse_finds_what_is_spelled(tokens_view(input@), tree);
        }
    }
    let mut parser = Parser::new(input);
    parser.parse()
}

/// Why a line has no value: the stage that failed, and its reason.
#[derive(Debug, PartialEq, Eq)]
pub enum Failure {
    Lex(LexError),
    Parse(ParseError),
    Eval(EvalError),
}

/// The mathematical value of a [`Failure`].
pub enum FailureView {
    Lex(LexErrorView),
    Parse(ParseErrorView),
    Eval(EvalErrorView),
}

impl View for Failure {
    type V = FailureView;

    open spec fn view(&self) -> FailureView {
        match self {
            Failure::Lex(e) => FailureView::Lex(e@),
            Failure::Parse(e) => FailureView::Parse(e@),
            Failure::Eval(e) => FailureView::Eval(e@),
        }
    }
}

/// The value of the expression that `text` spells: what evaluation makes of
/// what parsing makes of what scanning makes of `text`. A stage that fails
/// ends the work.
pub open spec fn evaluate_text(text: Seq<char>) -> Result<int, FailureView> {
    match scan(text) {
        Ok(tokens) => match parse_tokens(tokens) {
            Ok(tree) => match eval(tree) {
                Ok(value) => Ok(value),
                Err(e) => Err(FailureView::Eval(e)),
            },
            Err(e) => Err(FailureView::Parse(e)),
        },
        Err(e) => Err(FailureView::Lex(e)),
    }
}

/// The tree of a text holds every token of the text but the end-of-input
/// token, in the order of the text.
pub proof fn lemma_tree_holds_the_text(text: Seq<char>)
    requires
        scan(text) is Ok,
        parse_tokens(scan(text)->Ok_0) is Ok,
    ensures
        parse_tokens(scan(text)->Ok_0)->Ok_0.well_formed(),
        parse_tokens(scan(text)->Ok_0)->Ok_0.tokens() == scan(text)->Ok_0.drop_last(),
{
    let tokens = scan(text)->Ok_0;
    let tree = parse_tokens(tokens)->Ok_0;
    let end = tree.token_count() as int;
    lemma_scan_from_well_scanned(text, 0);
    lemma_expr_at_spans(tokens, 0, 0);
    tree.lemma_tokens_are_not_eof();
    tree.lemma_token_count();
    if end >= tokens.len() {
        assert(tree.tokens()[tokens.len() - 1] == tokens[tokens.len() - 1]);
    } else if end < tokens.len() - 1 {
        assert(tokens[end].kind != TokenKind::Eof);
    }
    assert(tokens.subrange(0, end) =~= tokens.drop_last());
}

/// Whether the computed result `r` is the result `s` of the model.
pub open spec fn matches_model(r: Result<i64, Failure>, s: Result<int, FailureView>) -> bool {
    match r {
        Ok(v) => s == Ok::<int, FailureView>(v as int),
        Err(e) => s == Err::<int, FailureView>(e@),
    }
}

/// Evaluates one line of arithmetic text.
pub fn evaluate(line: &str) -> (r: Result<i64, Failure>)
    ensures
        matches_model(r, evaluate_text(line@)),
{
    let mut lexer = Lexer::new(line);
    let tokens = match lexer.lex() {
        Ok(tokens) => tokens,
        Err(e) => {
            return Err(Failure::Lex(e));
        },
    };
    proof {
        let rest = scan(line@)->Ok_0;
        assert(Seq::<TokenView>::empty() + rest =~= rest);
    }
    let tree = match parse(tokens) {
        Ok(tree) => tree,
        Err(e) => {
            return Err(Failure::Parse(e));
        },
    };
    match interp(&tree) {
        Ok(value) => Ok(value),
        Err(e) => Err(Failure::Eval(e)),
    }
}

/// What a line asks of the shell.
#[derive(Debug, PartialEq, Eq, Clone, Copy, Structural)]
pub enum Command {
    /// Switch the showing of trees on or off.
    ToggleTree,
    /// Switch the showing of tokens on or off.
    ToggleTokens,
    /// A line that starts with `#` and names no command.
    Unrecognized,
    /// Evaluate the line.
    Evaluate,
}

/// The command that `line` spells. A command starts with `#` at the very
/// start of the line; every other line is an expression.
pub open spec fn command_of(line: Seq<char>) -> Command {
    if "#tree"@.is_prefix_of(line) {
        Command::ToggleTree
    } else if "#tokens"@.is_prefix_of(line) {
        Command::ToggleTokens
    } else if "#"@.is_prefix_of(line) {
        Command::Unrecognized
    } else {
        Command::Evaluate
    }
}

/// What the shell has to show for a line.
#[derive(Debug, PartialEq, Eq)]
pub enum Reply {
    /// The showing of trees was switched, and is now `enabled`.
    TreePrinting { enabled: bool },
    /// The showing of tokens was switched, and is now `enabled`.
    TokenPrinting { enabled: bool },
    /// The line named no command.
    Unrecognized,
    /// The line was evaluated. `tokens` and `tree` are there where the
    /// shell shows them and the line got that far.
    Evaluated { tokens: Option<Vec<Token>>, tree: Option<Expr>, value: Result<i64, Failure> },
}

/// The state of the shell between two lines.
#[derive(Debug, PartialEq, Eq, Clone, Copy, Structural)]
pub struct Shell {
    /// Whether the tree of each line is shown.
    pub print_tree: bool,
    /// Whether the tokens of each line are shown.
    pub print_tokens: bool,
}

/// Whether `reply` is what a shell in state `shell` owes the expression
/// `line`: its value, its tokens if they are shown and it has any, and its
/// tree if trees are shown and it has one.
pub open spec fn is_evaluation_of(reply: Reply, shell: Shell, line: Seq<char>) -> bool {
    &&& reply matches Reply::Evaluated { tokens, tree, value }
    &&& matches_model(value, evaluate_text(line))
    &&& match tokens {
        Some(tokens) => shell.print_tokens && scan(line) == Ok::<Seq<TokenView>, LexErrorView>(
            tokens_view(tokens@),
        ),
        None => !shell.print_tokens || scan(line) is Err,
    }
    &&& match tree {
        Some(tree) => {
            &&& shell.print_tree
            &&& scan(line) is Ok
            &&& parse_tokens(scan(line)->Ok_0) == Ok::<ExprView, ParseErrorView>(tree@)
        },
        None => !shell.print_tree || scan(line) is Err || parse_tokens(scan(line)->Ok_0) is Err,
    }
}

/// A copy of `tokens`.
fn clone_tokens(tokens: &Vec<Token>) -> (copy: Vec<Token>)
    ensures
        tokens_view(copy@) == tokens_view(tokens@),
{
    let mut copy: Vec<Token> = Vec::new();
    let mut i: usize = 0;
    while i < tokens.len()
        invariant
            i <= tokens.len(),
            copy.len() == i,
            forall|j: int| 0 <= j < i ==> copy[j]@ == tokens[j]@,
        decreases tokens.len() - i,
    {
        copy.push(tokens[i].clone());
        i += 1;
    }
    assert(tokens_view(copy@) =~= tokens_view(tokens@));
    copy
}

impl Shell {
    /// A shell that shows values only.
    pub fn new() -> (shell: Self)
        ensures
            shell == (Shell { print_tree: false, print_tokens: false }),
    {
        Shell { print_tree: false, print_tokens: false }
    }

    /// The command that `line` spells.
    pub fn command(line: &str) -> (command: Command)
        ensures
            command == command_of(line@),
    {
        let chars = chars_of(line);
        if starts_with(&chars, "#tree") {
            Command::ToggleTree
        } else if starts_with(&chars, "#tokens") {
            Command::ToggleTokens
        } else if starts_with(&chars, "#") {
            Command::Unrecognized
        } else {
            Command::Evaluate
        }
    }

    /// Takes one line: switches a setting, or evaluates the line.
    pub fn step(&mut self, line: &str) -> (reply: Reply)
        ensures
            match command_of(line@) {
                Command::ToggleTree => {
                    &&& final(self).print_tree == !old(self).print_tree
                    &&& final(self).print_tokens == old(self).print_tokens
                    &&& reply == (Reply::TreePrinting { enabled: final(self).print_tree })
                },
                Command::ToggleTokens => {
                    &&& final(self).print_tree == old(self).print_tree
                    &&& final(self).print_tokens == !old(self).print_tokens
                    &&& reply == (Reply::TokenPrinting { enabled: final(self).print_tokens })
                },
                Command::Unrecognized => *final(self) == *old(self) && reply == Reply::Unrecognized,
                Command::Evaluate => *final(self) == *old(self) && is_evaluation_of(
                    reply,
                    *old(self),
                    line@,
                ),
            },
    {
        match Self::command(line) {
            Command::ToggleTree => {
                self.print_tree = !self.print_tree;
                Reply::TreePrinting { enabled: self.print_tree }
            },
            Command::ToggleTokens => {
                self.print_tokens = !self.print_tokens;
                Reply::TokenPrinting { enabled: self.print_tokens }
            },
            Command::Unrecognized => Reply::Unrecognized,
            Command::Evaluate => {
                let mut lexer = Lexer::new(line);
                let lexed = match lexer.lex() {
                    Ok(lexed) => lexed,
                    Err(e) => {
                        return Reply::Evaluated {
                            tokens: None,
                            tree: None,
                            value: Err(Failure::Lex(e)),
                        };
                    },
                };
                proof {
                    let rest = scan(line@)->Ok_0;
                    assert(Seq::<TokenView>::empty() + rest =~= rest);
                }
                let tokens = if self.print_tokens {
                    Some(clone_tokens(&lexed))
                } else {
                    None
                };
                let parsed = match parse(lexed) {
                    Ok(parsed) => parsed,
                    Err(e) => {
                        return Reply::Evaluated {
                            tokens,
                            tree: None,
                            value: Err(Failure::Parse(e)),
                        };
                    },
                };
                let value = match interp(&parsed) {
                    Ok(value) => Ok(value),
                    Err(e) => Err(Failure::Eval(e)),
                };
                let tree = if self.print_tree {
                    Some(parsed)
                } else {
                    None
                };
                Reply::Evaluated { tokens, tree, value }
            },
        }
    }
}

} // verus!
