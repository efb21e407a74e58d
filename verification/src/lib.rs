//! A bytecode compilation and execution engine for a small dynamically typed
//! scripting language: an arbitrary-precision integer type, a tagged runtime
//! value model, a bytecode instruction set with a binary chunk format, a
//! single-pass compiler from the abstract syntax tree to bytecode, and a
//! stack-based virtual machine that executes it.

pub mod ast;
pub mod bigint;
pub mod bytecode;
pub mod compiler;
pub mod error;
pub mod perf;
pub mod pool;
pub mod stdlib_names;
pub mod urlcodec;
pub mod value;
pub mod vm;
