//! Front end for a small quest scripting language: a tokenizer that turns
//! source text into tokens, and a recursive-descent parser that turns tokens
//! into a syntax tree. What each computes is stated by recursive spec functions
//! over sequences, and the code is verified against them. `printer` proves that
//! every well-formed program is accepted.

pub mod token;
pub mod lexer;
pub mod ast;
pub mod parser;
pub mod printer;
