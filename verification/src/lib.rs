//! Compiler for the Mint language: a lexer, a recursive-descent parser, a
//! one-pass type checker, a pretty-printer and a structural bytecode emitter
//! that produces a WebAssembly-compatible binary module.

pub mod text;
pub mod lexer;
pub mod ast;
pub mod parser;
pub mod compiler;
pub mod roundtrip;
