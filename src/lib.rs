pub mod ast;
pub mod backend;
pub mod lexer;
pub mod memory;
pub mod parser;
