//! A small lexer for a terminal calculator: it turns an input line into
//! integer and `+` tokens, or reports the first character it cannot use.
pub mod lexer;

pub use lexer::{LexError, LexErrorKind, Lexer, Token};
