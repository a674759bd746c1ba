//! Lexical front-end for a small language: a single left-to-right pass
//! turns source text into an ordered sequence of classified tokens, or
//! reports the first lexical error.
pub mod laws;
pub mod lexer;
pub mod model;
pub mod token;
