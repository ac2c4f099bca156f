//! A scanner that turns the source text of a small scripting language into tokens.

pub mod lexer;
