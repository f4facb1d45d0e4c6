//! A lexical analyzer for a small Python-like language.
//!
//! The lexer turns source text into a sequence of tokens with source spans,
//! synthesizing `Indent`, `Dedent` and `Newline` tokens from layout and
//! suppressing them inside bracket groups.  Every function is specified
//! against a mathematical model of the lexer (see the `model` module), so the
//! token sequence an input produces is pinned down exactly.

pub mod ast;
pub mod laws;
pub mod lexer;
pub mod model;
pub mod token;
