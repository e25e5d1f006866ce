//! A small compiler for a C-like toy language: tokenizer, recursive-descent
//! parser, semantic passes over the syntax tree, stack-frame layout and
//! generation of x86-64 assembly text.

pub mod typing;
pub mod parsing;
pub mod lexing;
pub mod text;
pub mod stack;
pub mod passes;
pub mod assembly;
pub mod debugging;
