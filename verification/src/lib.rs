//! An integer calculator for one line of arithmetic text.
//!
//! A line goes through three stages. The scanner ([`parse::lexer`]) turns
//! the text into tokens. The parser ([`parse::parser`]) builds the
//! expression tree of the tokens by precedence climbing. The evaluator
//! ([`eval::interp`]) computes the value of the tree in exact signed 64-bit
//! arithmetic. [`repl`] runs the three in a row and holds what an
//! interactive shell decides between two lines.
//!
//! Every stage has a mathematical model, and every function is proved to
//! compute what its model says. [`parse::tokenization`] and
//! [`parse::grammar`] say what the tokens of a text and the expression of a
//! run of tokens are without saying how to find them, and prove that the
//! scanner and the parser find exactly those. [`round_trip`] and [`trivia`]
//! prove what holds of the three stages together.

pub mod eval;
pub mod parse;
pub mod repl;
pub mod round_trip;
pub mod text;
pub mod trivia;
