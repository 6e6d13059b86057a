//! A verified interpreter for brainfuck.
//!
//! Source text is any sequence of bytes. Eight of them are instructions,
//! `><+-.,[]`; every other byte is a comment. [`parser::parse`] turns source
//! text into a [`program::Program`], in which each bracket knows the index of
//! its partner. A [`machine::Machine`] executes a program one instruction at
//! a time against a tape of 65536 byte cells, and [`interp::run`] does both
//! against buffers in memory.
//!
//! The functions are proved against a mathematical model: [`program`] says
//! which brackets belong together, [`parser`] what parsing gives for each
//! source, [`semantics`] what each instruction does. The model's own laws
//! are proved beside it.

pub mod interp;
pub mod machine;
pub mod op;
pub mod parser;
pub mod program;
pub mod semantics;

pub use interp::run;
pub use machine::{Machine, Outcome};
pub use op::BfOp;
pub use parser::{parse, ParseError};
pub use program::Program;
pub use semantics::TAPE_SIZE;
