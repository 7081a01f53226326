//! A brainfuck toolchain: parser, peephole optimizer and tape machine.
//!
//! Text is parsed into a [`ast::Program`] whose loop instructions carry their
//! jump targets, the optimizer fuses neighbouring instructions of one kind,
//! and the interpreter runs a program on a tape of byte cells.

pub mod ast;
pub mod nesting;
pub mod loop_helper;
pub mod parser;
pub mod opt;
pub mod interp;
pub mod equiv;
