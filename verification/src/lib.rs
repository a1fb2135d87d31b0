//! A minimal stack-machine bytecode interpreter in the style of an
//! Ethereum-like virtual machine: 256-bit words, a LIFO operand stack,
//! a growable zero-initialized byte memory, and a decoder for
//! variable-length instructions.

pub mod laws;
pub mod memory;
pub mod opcode;
pub mod vm;
pub mod word;
