//! A small transpiler for a line-oriented language with a single statement
//! form, `name := value`. The pipeline runs in three verified stages:
//! lexical analysis (characters to tokens), syntactic analysis (tokens to an
//! abstract syntax tree), and code generation (tree to output text).

pub mod errors;
pub mod parser;
pub mod tokenizer;
pub mod transpiler;
