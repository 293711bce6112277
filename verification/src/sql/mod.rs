pub mod ast;
pub mod lexer;
pub mod number;
pub mod parser;
pub mod spelling;
pub mod worth;
pub mod writing;
