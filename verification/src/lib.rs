//! A lexical scanner for a small expression/assignment language.
//!
//! The single entry point, [`tokenize`], converts raw source text into an
//! ordered sequence of [`Token`]s terminated by exactly one `Eof` sentinel,
//! or reports the first unrecognized lexeme as a [`SyntaxError`].

pub mod errors;
pub mod lexer;
pub mod token;

pub use errors::SyntaxError;
pub use lexer::tokenize;
pub use token::BinaryOperator;
pub use token::Token;
