//! A stack-machine bytecode interpreter paired with a single-pass template
//! JIT that emits x86-64 machine code for the same instruction set.

pub mod driver;
pub mod instructions;
pub mod jit;
pub mod semantics;
pub mod vm;
