pub mod tokens;
pub mod lexer;
pub mod parser;
pub mod args;
pub mod laws;
