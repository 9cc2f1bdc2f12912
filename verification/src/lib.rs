//! A translator for a small imperative scripting language: a tokenizer turns
//! source text into a token sequence, a recursive-descent parser builds an
//! abstract syntax tree while tracking the variables the program assigns to,
//! and a tree-walking emitter renders the tree as C++ source text.

pub mod ast;
pub mod gen;
pub mod lexer;
