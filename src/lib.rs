//! Arithmetic expressions: a lexer that turns text into tokens and an
//! operator-precedence parser that turns tokens into an expression tree.
pub mod tokenizer;
pub mod parser;
