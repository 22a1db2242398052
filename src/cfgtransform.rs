//! Offline tooling: turns a register-write log into a compact bulk stream.

pub mod analyzer;
pub mod ast;
pub mod bulk;
