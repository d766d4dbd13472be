//! A small expression language: lexer, Pratt parser, scoped environment,
//! pretty printer and diagnostics, each verified against its contract.

pub mod span;
pub mod text;
pub mod token;
pub mod lexer;
pub mod ast;
pub mod parser;
pub mod env;
pub mod eval;
pub mod render;
pub mod pretty;
