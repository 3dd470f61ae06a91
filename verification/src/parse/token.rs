//! Tokens: the scanner's output and the parser's input.

use crate::text::{decimal, decimal_string};
use vstd::prelude::*;
use vstd::string::StringExecFns;

verus! {

/// What a token is.
#[derive(Debug, PartialEq, Eq, Clone, Copy, Structural)]
pub enum TokenKind {
    Plus,
    Minus,
    Slash,
    Asterisk,
    Bang,
    Caret,
    LParen,
    RParen,
    Integer,
    Eof,
}

/// Where a token stands in the text: the offset of its first character and
/// the number of characters it spans.
#[derive(Debug, PartialEq, Eq, Clone, Copy, Structural)]
pub struct Position {
    pub ind: usize,
    pub len: usize,
}

/// A token with its place and its text.
#[derive(Debug, PartialEq, Eq)]
pub struct Token {
    pub pos: Position,
    pub kind: TokenKind,
    pub content: String,
}

/// The mathematical value of a [`Token`]: its offset and its length are
/// natural numbers, its text is a sequence of characters.
pub struct TokenView {
    pub ind: nat,
    pub len: nat,
    pub kind: TokenKind,
    pub content: Seq<char>,
}

impl View for Token {
    type V = TokenView;

    open spec fn view(&self) -> TokenView {
        TokenView {
            ind: self.pos.ind as nat,
            len: self.pos.len as nat,
            kind: self.kind,
            content: self.content@,
        }
    }
}

impl Clone for Token {
    fn clone(&self) -> (r: Self)
        ensures
            r@ == self@,
    {
        Token { pos: self.pos, kind: self.kind, content: self.content.clone() }
    }
}

/// The values of a run of tokens, in order.
pub open spec fn tokens_view(tokens: Seq<Token>) -> Seq<TokenView> {
    tokens.map_values(|t: Token| t@)
}

/// The name of a token kind.
pub open spec fn kind_name(kind: TokenKind) -> Seq<char> {
    match kind {
        TokenKind::Plus => "Plus"@,
        TokenKind::Minus => "Minus"@,
        TokenKind::Slash => "Slash"@,
        TokenKind::Asterisk => "Asterisk"@,
        TokenKind::Bang => "Bang"@,
        TokenKind::Caret => "Caret"@,
        TokenKind::LParen => "LParen"@,
        TokenKind::RParen => "RParen"@,
        TokenKind::Integer => "Integer"@,
        TokenKind::Eof => "Eof"@,
    }
}

/// A span of `len` characters from offset `ind` on as text: the offsets of
/// its first character and of the character behind its last, as
/// `(start:end)`.
pub open spec fn position_text(ind: nat, len: nat) -> Seq<char> {
    "("@ + decimal(ind) + ":"@ + decimal(ind + len) + ")"@
}

/// A token as text: `(start:end) { Kind 'content' }`.
pub open spec fn token_text(token: TokenView) -> Seq<char> {
    position_text(token.ind, token.len) + " { "@ + kind_name(token.kind) + " '"@ + token.content
        + "' }"@
}

impl TokenKind {
    /// The name of the kind.
    pub fn name(&self) -> (s: &'static str)
        ensures
            s@ == kind_name(*self),
    {
        match self {
            TokenKind::Plus => "Plus",
            TokenKind::Minus => "Minus",
            TokenKind::Slash => "Slash",
            TokenKind::Asterisk => "Asterisk",
            TokenKind::Bang => "Bang",
            TokenKind::Caret => "Caret",
            TokenKind::LParen => "LParen",
            TokenKind::RParen => "RParen",
            TokenKind::Integer => "Integer",
            TokenKind::Eof => "Eof",
        }
    }
}

impl Position {
    /// The position as text, for diagnostics.
    pub fn to_text(&self) -> (s: String)
        ensures
            s@ == position_text(self.ind as nat, self.len as nat),
    {
        let mut s = "(".to_owned();
        s.append(decimal_string(self.ind as u128).as_str());
        s.append(":");
        s.append(decimal_string(self.ind as u128 + self.len as u128).as_str());
        s.append(")");
        s
    }
}

impl Token {
    /// The token as text, for diagnostics.
    pub fn to_text(&self) -> (s: String)
        ensures
            s@ == token_text(self@),
    {
        let mut s = self.pos.to_text();
        s.append(" { ");
        s.append(self.kind.name());
        s.append(" '");
        s.append(self.content.as_str());
        s.append("' }");
        s
    }
}

} // verus!
