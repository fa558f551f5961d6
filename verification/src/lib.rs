//! A verified lexical-analysis front end for a small programming language.
//!
//! The `lexer` module turns source text into a stream of classified tokens,
//! one call at a time; the `scan` module holds the mathematical model of the
//! scan that the lexer's contracts are stated against; the `parser` module
//! holds the parsing stub that consumes the first token.

pub mod lexer;
pub mod parser;
pub mod scan;
