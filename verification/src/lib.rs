//! A small calculator for infix arithmetic over signed 64-bit integers.
//!
//! A line of text is tokenized, parsed into an expression tree by recursive
//! descent, and the tree is then evaluated with checked arithmetic, rendered
//! back to a canonical infix string, and drawn as an indented tree diagram.

pub mod ast;
pub mod digits;
pub mod render;
pub mod lexer;
pub mod parser;
pub mod tree;
pub mod roundtrip;
