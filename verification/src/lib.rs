//! Front end of the Harpy language: a lexer that turns source text into
//! tokens with line and column positions, and a recovering parser that turns
//! tokens into blocks of assignments.

pub mod lexer;
pub mod tokens;
pub mod hc;
pub mod cursor;
pub mod parser;
pub mod cli;
pub mod diagnostics;
pub mod grammar;
pub mod compose;
pub mod derivation;
