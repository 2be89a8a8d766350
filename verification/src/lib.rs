//! A register-based bytecode virtual machine with a textual assembly format
//! and a tree-to-bytecode compiler.
//!
//! The value and instruction model lives in [`bytecode`]; the execution
//! engine in [`eval`]; the line-oriented assembly parser in [`parse`] with
//! its cursor utilities in [`parse_util`]; the pretty-printer in [`render`];
//! and the statement/expression compiler with its register allocator in
//! [`ast`].

pub mod ast;
pub mod bytecode;
pub mod dec;
pub mod eval;
pub mod float_ops;
pub mod parse;
pub mod parse_util;
pub mod render;
