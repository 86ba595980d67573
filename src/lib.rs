//! A lexer for a small programming language: source text in, a sequence of
//! classified tokens out, every token carrying the exact text it covers.
pub mod chars;
pub mod grammar;
pub mod laws;
pub mod lexer;
pub mod token;

pub use lexer::{tokenise, Lexer};
pub use token::{KeyWord, Token, TokenKind};
