//! The SQL dialect of the front end: its tokens and its statements.

pub mod ast;
pub mod lexer;
pub mod parser;
