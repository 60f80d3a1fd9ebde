//! The older route language: `GET` routes only, with assignments and
//! `return` statements.

pub mod tokens;
pub mod parser;
pub mod cli;
pub mod grammar;
pub mod derivation;
