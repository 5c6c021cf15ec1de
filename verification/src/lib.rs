//! A lexical scanner for a small scripting language.
//!
//! A text is turned, in one pass from left to right, into the sequence of its
//! tokens, each with the range of characters it was read from. What the
//! result is for a given text is defined in [`grammar`]; [`lexer`] computes
//! it; [`laws`] holds theorems about it.

pub mod chars;
pub mod error;
pub mod grammar;
pub mod laws;
pub mod lexer;
pub mod span;
pub mod text;
pub mod token;
