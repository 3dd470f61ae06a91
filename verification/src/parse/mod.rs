//! Scanning and parsing of arithmetic text.

pub mod ast;
pub mod grammar;
pub mod lexer;
pub mod parser;
pub mod token;
pub mod tokenization;

pub use ast::{BinaryOpExprNode, Expr, IntegerExprNode, ParenExprNode, UnaryOpExprNode};
pub use lexer::{LexError, Lexer};
pub use parser::{ParseError, Parser};
pub use token::{Position, Token, TokenKind};
