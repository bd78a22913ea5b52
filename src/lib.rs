//! A compile-and-execute pipeline for the arithmetic core of a small scripting
//! language: source text is lexed into tokens, parsed by precedence climbing
//! into an expression tree, lowered to a flat bytecode unit with a constant
//! pool, and run on a stack machine.
//!
//! Numbers are IEEE-754 binary64 values. The library never computes with them:
//! it carries each one as its bit pattern (`u64`). Turning a numeric lexeme
//! into a number is a function that the caller hands to the lexer, and the
//! arithmetic is done by functions that the caller hands to `vm::execute`, or
//! by the caller itself when it drives the machine step by step.

pub mod ast;
pub mod bytecode;
pub mod bytecode_compiler;
pub mod compiler;
pub mod lexer;
pub mod lox_value;
pub mod opcodes;
pub mod parser;
pub mod stack;
pub mod token;
pub mod vm;
