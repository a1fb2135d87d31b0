//! Decoded instructions.  Each variant carries the address at which the
//! opcode byte was read, and the PUSH family carries its immediate
//! operand, zero-extended to a full word.

use vstd::prelude::*;
use crate::word::Word;

verus! {

/// One decoded opcode occurrence.
#[derive(Clone, Copy, Debug, PartialEq, Eq, Structural)]
#[allow(non_camel_case_types)]
pub enum Opcode {
    STOP(usize),
    ADD(usize),
    SUB(usize),
    MUL(usize),
    PUSH1(usize, Word),
    PUSH2(usize, Word),
    PUSH32(usize, Word),
    MLOAD(usize),
    MSTORE(usize),
    MSTORE8(usize),
    SLT(usize),
    JUMPI(usize),
    JUMP(usize),
    PRINT(usize),
    /// A byte matching no known opcode; executes as a no-op.
    UNKNOWN(usize),
    /// The program counter stood at the end of the program.
    EOF,
}

impl Opcode {
    /// The address the instruction was decoded at; the program length for
    /// `EOF`.
    pub open spec fn addr_spec(self) -> Option<usize> {
        match self {
            Opcode::STOP(a) => Some(a),
            Opcode::ADD(a) => Some(a),
            Opcode::SUB(a) => Some(a),
            Opcode::MUL(a) => Some(a),
            Opcode::PUSH1(a, _) => Some(a),
            Opcode::PUSH2(a, _) => Some(a),
            Opcode::PUSH32(a, _) => Some(a),
            Opcode::MLOAD(a) => Some(a),
            Opcode::MSTORE(a) => Some(a),
            Opcode::MSTORE8(a) => Some(a),
            Opcode::SLT(a) => Some(a),
            Opcode::JUMPI(a) => Some(a),
            Opcode::JUMP(a) => Some(a),
            Opcode::PRINT(a) => Some(a),
            Opcode::UNKNOWN(a) => Some(a),
            Opcode::EOF => None,
        }
    }

    /// The address the instruction was decoded at, if any.
    pub fn addr(&self) -> (r: Option<usize>)
        ensures
            r == self.addr_spec(),
    {
        match self {
            Opcode::STOP(a) => Some(*a),
            Opcode::ADD(a) => Some(*a),
            Opcode::SUB(a) => Some(*a),
            Opcode::PUSH1(a, _) => Some(*a),
            Opcode::PUSH2(a, _) => Some(*a),
            Opcode::PUSH32(a, _) => Some(*a),
            Opcode::MUL(a) => Some(*a),
            Opcode::MLOAD(a) => Some(*a),
            Opcode::MSTORE(a) => Some(*a),
            Opcode::MSTORE8(a) => Some(*a),
            Opcode::SLT(a) => Some(*a),
            Opcode::JUMPI(a) => Some(*a),
            Opcode::JUMP(a) => Some(*a),
            Opcode::PRINT(a) => Some(*a),
            Opcode::UNKNOWN(a) => Some(*a),
            Opcode::EOF => None,
        }
    }

    /// The instruction's mnemonic.
    pub fn mnemonic(&self) -> (r: &'static str)
        ensures
            r@ == self.mnemonic_spec(),
    {
        match self {
            Opcode::STOP(_) => "STOP",
            Opcode::ADD(_) => "ADD",
            Opcode::SUB(_) => "SUB",
            Opcode::MUL(_) => "MUL",
            Opcode::PUSH1(_, _) => "PUSH1",
            Opcode::PUSH2(_, _) => "PUSH2",
            Opcode::PUSH32(_, _) => "PUSH32",
            Opcode::MLOAD(_) => "MLOAD",
            Opcode::MSTORE(_) => "MSTORE",
            Opcode::MSTORE8(_) => "MSTORE8",
            Opcode::SLT(_) => "SLT",
            Opcode::JUMPI(_) => "JUMPI",
            Opcode::JUMP(_) => "JUMP",
            Opcode::PRINT(_) => "PRINT",
            Opcode::UNKNOWN(_) => "UNKNOWN",
            Opcode::EOF => "EOF",
        }
    }

    /// What `mnemonic` returns for each variant.
    pub open spec fn mnemonic_spec(self) -> Seq<char> {
        match self {
            Opcode::STOP(_) => "STOP"@,
            Opcode::ADD(_) => "ADD"@,
            Opcode::SUB(_) => "SUB"@,
            Opcode::MUL(_) => "MUL"@,
            Opcode::PUSH1(_, _) => "PUSH1"@,
            Opcode::PUSH2(_, _) => "PUSH2"@,
            Opcode::PUSH32(_, _) => "PUSH32"@,
            Opcode::MLOAD(_) => "MLOAD"@,
            Opcode::MSTORE(_) => "MSTORE"@,
            Opcode::MSTORE8(_) => "MSTORE8"@,
            Opcode::SLT(_) => "SLT"@,
            Opcode::JUMPI(_) => "JUMPI"@,
            Opcode::JUMP(_) => "JUMP"@,
            Opcode::PRINT(_) => "PRINT"@,
            Opcode::UNKNOWN(_) => "UNKNOWN"@,
            Opcode::EOF => "EOF"@,
        }
    }

    /// A short human-readable account of what the instruction does.
    pub fn description(&self) -> (r: &'static str)
        ensures
            r@ == self.description_spec(),
    {
        match self {
            Opcode::STOP(_) => "Halts execution",
            Opcode::ADD(_) => "Addition operation",
            Opcode::SUB(_) => "Subtraction operation",
            Opcode::MUL(_) => "Multiplication operation",
            Opcode::PUSH1(_, _) => "Place 1-byte item on the stack",
            Opcode::PUSH2(_, _) => "Place 2-bytes item on the stack",
            Opcode::PUSH32(_, _) => "Place 32-bytes item on the stack",
            Opcode::MLOAD(_) => "Load word from memory",
            Opcode::MSTORE(_) => "Save word to memory",
            Opcode::MSTORE8(_) => "Save byte to memory",
            Opcode::SLT(_) => "Signed less-than comparison",
            Opcode::JUMPI(_) => "Alter the program counter",
            Opcode::JUMP(_) => "Alter the program counter",
            Opcode::PRINT(_) => "Print the stack",
            Opcode::UNKNOWN(_) => "Unknown opcode",
            Opcode::EOF => "End of program",
        }
    }

    /// What `description` returns for each variant.
    pub open spec fn description_spec(self) -> Seq<char> {
        match self {
            Opcode::STOP(_) => "Halts execution"@,
            Opcode::ADD(_) => "Addition operation"@,
            Opcode::SUB(_) => "Subtraction operation"@,
            Opcode::MUL(_) => "Multiplication operation"@,
            Opcode::PUSH1(_, _) => "Place 1-byte item on the stack"@,
            Opcode::PUSH2(_, _) => "Place 2-bytes item on the stack"@,
            Opcode::PUSH32(_, _) => "Place 32-bytes item on the stack"@,
            Opcode::MLOAD(_) => "Load word from memory"@,
            Opcode::MSTORE(_) => "Save word to memory"@,
            Opcode::MSTORE8(_) => "Save byte to memory"@,
            Opcode::SLT(_) => "Signed less-than comparison"@,
            Opcode::JUMPI(_) => "Alter the program counter"@,
            Opcode::JUMP(_) => "Alter the program counter"@,
            Opcode::PRINT(_) => "Print the stack"@,
            Opcode::UNKNOWN(_) => "Unknown opcode"@,
            Opcode::EOF => "End of program"@,
        }
    }
}

} // verus!
