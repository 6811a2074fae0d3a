pub mod ast;
pub mod compile;
pub mod grammar;
pub mod graph;
pub mod laws;
pub mod lexer;
pub mod parser;
pub mod semantic;
pub mod text;
