//! ChipScript: a small statically typed language compiled to CHIP-8 ROM images.
pub mod ast;
pub mod lexer;
pub mod parser;
pub mod optimizer;
pub mod analyzer;
pub mod callgraph;
pub mod ir;
pub mod codegen;
pub mod machine;
pub mod control;
pub mod calls;
