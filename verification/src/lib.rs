//! A small lexer and two recursive-descent parsers for a toy language,
//! with their behaviour stated and proved.
pub mod error;
pub mod lexer;
pub mod monad;
pub mod parser;
pub mod pattern;
pub mod simple_tokenizer;
pub mod spacing;
pub mod token;
