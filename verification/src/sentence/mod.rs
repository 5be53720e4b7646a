//! Splitting sentences into words and punctuation, and joining them again.
pub mod class;
pub mod laws;
pub mod lex;
pub mod token;
pub mod utf8;
