//! A small JSON text-parsing engine.
//!
//! The library turns one in-memory text buffer into a typed value tree:
//! a character-level lexer classifies the input into positioned tokens,
//! a recursive-descent parser with one token of lookahead assembles a
//! [`Value`] tree, and every composite value remembers the exact source
//! substring it was parsed from. Values borrow from the input buffer;
//! nothing is copied or re-serialized, and printing a value echoes its
//! original span verbatim.
//!
//! Errors are returned to the caller as structured values, never
//! reported or escalated here: an unrecognized character or a bad
//! literal is a [`LexError`], a malformed document a [`ParseError`],
//! and a failed path lookup a [`QueryError`].

pub mod text;
pub mod token;
pub mod lexer;
pub mod value;
pub mod parser;
pub mod laws;
pub mod relex;

pub use lexer::LexError;
pub use lexer::Lexer;
pub use parser::ParseError;
pub use parser::Parser;
pub use token::Token;
pub use token::TokenType;
pub use value::QueryError;
pub use value::Value;
