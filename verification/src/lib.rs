pub mod balance;
pub mod chars;
pub mod convert;
pub mod error;
pub mod grammar;
pub mod json;
pub mod lazylexer;
pub mod lazyparser;
pub mod lexer;
pub mod parser;
pub mod scanner;
pub mod text;
pub mod token;
pub mod typedefs;
