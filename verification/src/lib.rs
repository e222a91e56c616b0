//! A pattern-driven lexical scanner.
//!
//! A [`lexer::Lexer`] owns an ordered list of named patterns and turns a
//! sequence of source lines into a flat sequence of tokens, each carrying the
//! matched text and its 1-based line and column.  The first position at which
//! no pattern matches is reported as a scan error, together with the tokens
//! accumulated up to that point.

pub mod lexer;
pub mod pattern;
pub mod render;
pub mod token;
