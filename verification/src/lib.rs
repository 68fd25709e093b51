//! A lexer for Lua source text.
//!
//! The lexer reads tokens (keywords, identifiers, numerals, strings and
//! symbols) off the front of the text, skipping white space and comments.
//! What it reads is stated by the spec functions of `grammar`, and every
//! operation of `Lexer` is proved to follow them.

pub mod bytes;
pub mod grammar;
pub mod keyword;
pub mod laws;
pub mod lexer;
pub mod lexer_errors;
pub mod symbol;
pub mod token;
pub mod token_laws;

pub use keyword::Keyword;
pub use lexer::Lexer;
pub use lexer_errors::LexerError;
pub use symbol::Symbol;
pub use token::{LiteralString, NumericConstant, Span, Token, TokenKind};
