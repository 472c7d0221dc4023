pub mod text;
pub mod numeral;
pub mod token;
pub mod lexer;
pub mod ast;
pub mod parser;
pub mod environment;
pub mod resolver;
pub mod executor;
