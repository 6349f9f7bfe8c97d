pub mod lexer;
pub mod parser;
pub mod shape;

pub use lexer::{Lexeme, Token, TokenType, Tokenizer};
pub use parser::Parser;
