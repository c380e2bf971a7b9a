//! A small compiler from a C-like statement language to x86-64 assembly:
//! lexer, recursive-descent parser with a per-function symbol table, and a
//! stack-machine code generator.
pub mod token;
pub mod tokenize;
pub mod node;
pub mod parse;
pub mod codegen;
pub mod emit;
pub mod compile;
pub mod semantics;
pub mod resolution;
pub mod labels;
