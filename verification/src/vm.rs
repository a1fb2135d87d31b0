//! The virtual machine: program, program counter, operand stack and
//! memory, with the fetch-decode-execute loop.
//!
//! The meaning of one step is pinned by the specification-level
//! transition function `step_spec` over `MachineState`; `Vm::interpret`
//! is proved to follow it exactly.

use vstd::prelude::*;
use vstd::arithmetic::power2::pow2;
use vstd::string::StringSliceAdditionalSpecFns;
use crate::memory::Memory;
use crate::opcode::Opcode;
use crate::word::{
    Word, bytes_val, be_bytes32, signed_of, word_add, word_sub, word_mul, word_from_be,
    lemma_bytes_val_zero_prefix,
};

verus! {

/// Why a run ended in the failed state.
#[derive(Clone, Copy, Debug, PartialEq, Eq, Structural)]
pub enum VmError {
    /// An immediate's bytes run past the end of the program; carries the
    /// address of the opcode byte.
    DecodeTruncated { addr: usize },
    /// An instruction required more operands than the stack holds.
    StackUnderflow { addr: usize, opcode: Opcode },
    /// A memory access would reach beyond what the machine can address.
    MemoryOutOfBounds { addr: usize, offset: u64, extent: u64 },
    /// The program counter was set outside the program.
    InvalidJumpTarget { addr: usize, target: u64 },
    /// A textual program source held something besides an even number of
    /// hexadecimal digits.
    InvalidInputEncoding,
}

/// What one interpreter step produced.
#[derive(Clone, Copy, Debug, PartialEq, Eq, Structural)]
pub enum StepResult {
    /// The instruction ran and the machine is still running.
    Ran(Opcode),
    /// The instruction ran and handed a value to the trace sink.
    Emitted(Opcode, Word),
    /// The machine reached the halted state.
    Halted,
}

/// The mathematical state of the machine: counter, stack values and
/// memory bytes.
#[verifier::ext_equal]
pub struct MachineState {
    pub pc: int,
    pub stack: Seq<nat>,
    pub mem: Seq<u8>,
}

/// The outcome of one specification-level step.
#[verifier::ext_equal]
pub enum SpecOutcome {
    /// Still running, in the given state.
    Step(MachineState),
    /// Halted, with the state at the halt.
    Halt(MachineState),
    /// Failed; stack and memory keep their values.
    Fail(VmError),
}

/// The stack as a sequence of mathematical values, bottom first.
pub open spec fn stack_model(s: Seq<Word>) -> Seq<nat> {
    s.map_values(|w: Word| w.as_nat())
}

/// Wrapping reduction modulo 2^256.
pub open spec fn wrap(n: int) -> nat {
    (n % (pow2(256) as int)) as nat
}

/// Truncation of a value to the machine's offset width.
pub open spec fn offset_of(n: nat) -> nat {
    n % pow2(64)
}

/// Memory extended with zero bytes up to `size`, if shorter.
pub open spec fn grow(mem: Seq<u8>, size: int) -> Seq<u8> {
    if mem.len() >= size {
        mem
    } else {
        mem + Seq::new((size - mem.len()) as nat, |_i: int| 0u8)
    }
}

/// Memory with `bytes` written at `addr`.
pub open spec fn store_bytes(mem: Seq<u8>, addr: int, bytes: Seq<u8>) -> Seq<u8> {
    Seq::new(mem.len(), |i: int| if addr <= i < addr + bytes.len() { bytes[i - addr] } else { mem[i] })
}

/// How many immediate bytes follow the opcode byte.
pub open spec fn imm_len(b: u8) -> int {
    if b == 0x60 {
        1
    } else if b == 0x61 {
        2
    } else if b == 0x73 {
        32
    } else {
        0
    }
}

/// Whether the byte is one of the PUSH opcodes.
pub open spec fn is_push_byte(b: u8) -> bool {
    b == 0x60 || b == 0x61 || b == 0x73
}

/// Whether the byte is any known opcode.
pub open spec fn known_opcode(b: u8) -> bool {
    is_push_byte(b) || b == 0x00 || b == 0x01 || b == 0x02 || b == 0x03 || b == 0x12 || b == 0x51
        || b == 0x52 || b == 0x53 || b == 0x56 || b == 0x57
}

/// The instruction a fixed-size (non-PUSH) opcode byte decodes to at
/// address `a`.
pub open spec fn fixed_opcode(b: u8, a: usize) -> Opcode {
    if b == 0x00 {
        Opcode::STOP(a)
    } else if b == 0x01 {
        Opcode::ADD(a)
    } else if b == 0x02 {
        Opcode::MUL(a)
    } else if b == 0x03 {
        Opcode::SUB(a)
    } else if b == 0x12 {
        Opcode::SLT(a)
    } else if b == 0x51 {
        Opcode::MLOAD(a)
    } else if b == 0x52 {
        Opcode::MSTORE(a)
    } else if b == 0x53 {
        Opcode::MSTORE8(a)
    } else if b == 0x56 {
        Opcode::JUMP(a)
    } else if b == 0x57 {
        Opcode::JUMPI(a)
    } else {
        Opcode::UNKNOWN(a)
    }
}

/// The meaning of one decoded instruction, applied to a state whose
/// counter already stands past the instruction.  Pops are listed first
/// popped first.
pub open spec fn exec_spec(op: Opcode, s: MachineState) -> SpecOutcome {
    match op {
        Opcode::STOP(_) => SpecOutcome::Halt(s),
        Opcode::EOF => SpecOutcome::Halt(s),
        Opcode::ADD(a) => if s.stack.len() < 2 {
            SpecOutcome::Fail(VmError::StackUnderflow { addr: a, opcode: op })
        } else {
            SpecOutcome::Step(binary_result(s, wrap(first(s) as int + second(s) as int)))
        },
        Opcode::SUB(a) => if s.stack.len() < 2 {
            SpecOutcome::Fail(VmError::StackUnderflow { addr: a, opcode: op })
        } else {
            SpecOutcome::Step(binary_result(s, wrap(first(s) as int - second(s) as int)))
        },
        Opcode::MUL(a) => if s.stack.len() < 2 {
            SpecOutcome::Fail(VmError::StackUnderflow { addr: a, opcode: op })
        } else {
            SpecOutcome::Step(binary_result(s, wrap(first(s) as int * second(s) as int)))
        },
        Opcode::SLT(a) => if s.stack.len() < 2 {
            SpecOutcome::Fail(VmError::StackUnderflow { addr: a, opcode: op })
        } else {
            SpecOutcome::Step(
                binary_result(s, if signed_of(first(s)) < signed_of(second(s)) { 1 } else { 0 }),
            )
        },
        Opcode::PUSH1(_, w) => SpecOutcome::Step(
            MachineState { pc: s.pc, stack: s.stack.push(w.as_nat()), mem: s.mem },
        ),
        Opcode::PUSH2(_, w) => SpecOutcome::Step(
            MachineState { pc: s.pc, stack: s.stack.push(w.as_nat()), mem: s.mem },
        ),
        Opcode::PUSH32(_, w) => SpecOutcome::Step(
            MachineState { pc: s.pc, stack: s.stack.push(w.as_nat()), mem: s.mem },
        ),
        Opcode::JUMP(a) => if s.stack.len() < 1 {
            SpecOutcome::Fail(VmError::StackUnderflow { addr: a, opcode: op })
        } else {
            let t = offset_of(first(s));
            if t > usize::MAX as nat {
                SpecOutcome::Fail(VmError::InvalidJumpTarget { addr: a, target: t as u64 })
            } else {
                SpecOutcome::Step(
                    MachineState { pc: t as int, stack: s.stack.drop_last(), mem: s.mem },
                )
            }
        },
        Opcode::JUMPI(a) => if s.stack.len() < 2 {
            SpecOutcome::Fail(VmError::StackUnderflow { addr: a, opcode: op })
        } else {
            let t = offset_of(first(s));
            if second(s) == 0 {
                SpecOutcome::Step(
                    MachineState {
                        pc: s.pc,
                        stack: s.stack.drop_last().drop_last(),
                        mem: s.mem,
                    },
                )
            } else if t > usize::MAX as nat {
                SpecOutcome::Fail(VmError::InvalidJumpTarget { addr: a, target: t as u64 })
            } else {
                SpecOutcome::Step(
                    MachineState {
                        pc: t as int,
                        stack: s.stack.drop_last().drop_last(),
                        mem: s.mem,
                    },
                )
            }
        },
        Opcode::MLOAD(a) => if s.stack.len() < 1 {
            SpecOutcome::Fail(VmError::StackUnderflow { addr: a, opcode: op })
        } else {
            let off = offset_of(first(s));
            if off + 32 > usize::MAX as nat {
                SpecOutcome::Fail(
                    VmError::MemoryOutOfBounds { addr: a, offset: off as u64, extent: 32 },
                )
            } else {
                let m2 = grow(s.mem, off as int + 32);
                let v = bytes_val(m2.subrange(off as int, off as int + 32));
                SpecOutcome::Step(
                    MachineState { pc: s.pc, stack: s.stack.drop_last().push(v), mem: m2 },
                )
            }
        },
        Opcode::MSTORE(a) => if s.stack.len() < 2 {
            SpecOutcome::Fail(VmError::StackUnderflow { addr: a, opcode: op })
        } else {
            let off = offset_of(first(s));
            if off + 32 > usize::MAX as nat {
                SpecOutcome::Fail(
                    VmError::MemoryOutOfBounds { addr: a, offset: off as u64, extent: 32 },
                )
            } else {
                let m2 = grow(s.mem, off as int + 32);
                let m3 = store_bytes(m2, off as int, be_bytes32(second(s)));
                SpecOutcome::Step(
                    MachineState {
                        pc: s.pc,
                        stack: s.stack.drop_last().drop_last(),
                        mem: m3,
                    },
                )
            }
        },
        Opcode::MSTORE8(a) => if s.stack.len() < 2 {
            SpecOutcome::Fail(VmError::StackUnderflow { addr: a, opcode: op })
        } else {
            let off = offset_of(first(s));
            if off + 1 > usize::MAX as nat {
                SpecOutcome::Fail(
                    VmError::MemoryOutOfBounds { addr: a, offset: off as u64, extent: 1 },
                )
            } else {
                let m2 = grow(s.mem, off as int + 1);
                let m3 = m2.update(off as int, (second(s) % 256) as u8);
                SpecOutcome::Step(
                    MachineState {
                        pc: s.pc,
                        stack: s.stack.drop_last().drop_last(),
                        mem: m3,
                    },
                )
            }
        },
        Opcode::PRINT(a) => if s.stack.len() < 1 {
            SpecOutcome::Fail(VmError::StackUnderflow { addr: a, opcode: op })
        } else {
            SpecOutcome::Step(
                MachineState { pc: s.pc, stack: s.stack.drop_last(), mem: s.mem },
            )
        },
        Opcode::UNKNOWN(_) => SpecOutcome::Step(s),
    }
}

/// The first value popped: the top of the stack.
pub open spec fn first(s: MachineState) -> nat {
    s.stack.last()
}

/// The second value popped.
pub open spec fn second(s: MachineState) -> nat {
    s.stack[s.stack.len() - 2]
}

/// The state after popping two values and pushing `v`.
pub open spec fn binary_result(s: MachineState, v: nat) -> MachineState {
    MachineState { pc: s.pc, stack: s.stack.drop_last().drop_last().push(v), mem: s.mem }
}

/// One fetch-decode-execute step of the machine over program `code`.
pub open spec fn step_spec(code: Seq<u8>, s: MachineState) -> SpecOutcome {
    if s.pc < 0 || s.pc > code.len() {
        SpecOutcome::Fail(VmError::InvalidJumpTarget { addr: s.pc as usize, target: s.pc as u64 })
    } else if s.pc == code.len() {
        SpecOutcome::Halt(s)
    } else {
        let b = code[s.pc];
        let a = s.pc as usize;
        if is_push_byte(b) {
            let n = imm_len(b);
            if s.pc + 1 + n > code.len() {
                SpecOutcome::Fail(VmError::DecodeTruncated { addr: a })
            } else {
                SpecOutcome::Step(
                    MachineState {
                        pc: s.pc + 1 + n,
                        stack: s.stack.push(bytes_val(code.subrange(s.pc + 1, s.pc + 1 + n))),
                        mem: s.mem,
                    },
                )
            }
        } else {
            exec_spec(
                fixed_opcode(b, a),
                MachineState { pc: s.pc + 1, stack: s.stack, mem: s.mem },
            )
        }
    }
}

/// `step_spec` iterated `n` times from `s`; stops early at a halt or
/// failure.
pub open spec fn run_spec(code: Seq<u8>, s: MachineState, n: nat) -> SpecOutcome
    decreases n,
{
    if n == 0 {
        SpecOutcome::Step(s)
    } else {
        match run_spec(code, s, (n - 1) as nat) {
            SpecOutcome::Step(s2) => step_spec(code, s2),
            out => out,
        }
    }
}

/// The virtual machine: an immutable program, the counter, the operand
/// stack and the memory.
pub struct Vm {
    pub code: Vec<u8>,
    pub pc: usize,
    pub stack: Vec<Word>,
    pub mem: Memory,
}

impl Vm {
    /// The machine's mathematical state.
    pub open spec fn model(self) -> MachineState {
        MachineState { pc: self.pc as int, stack: stack_model(self.stack@), mem: self.mem.data@ }
    }

    /// A fresh machine over `bytecode`: counter zero, empty stack, empty
    /// memory.
    pub fn new(bytecode: Vec<u8>) -> (r: Vm)
        ensures
            r.code@ == bytecode@,
            r.pc == 0,
            r.stack@.len() == 0,
            r.mem.data@.len() == 0,
    {
        Vm { code: bytecode, pc: 0, stack: Vec::new(), mem: Memory::new() }
    }

    /// Whether the counter stands at or past the end of the program.
    pub fn at_end(&self) -> (r: bool)
        ensures
            r == (self.pc >= self.code@.len()),
    {
        self.pc >= self.code.len()
    }

    /// Reads `to_extract` immediate bytes after the opcode byte at the
    /// counter, zero-extended on the left to a full word.
    pub fn extract_u256(&self, to_extract: usize) -> (r: Word)
        requires
            to_extract <= 32,
            self.pc + 1 + to_extract <= self.code@.len(),
        ensures
            r.as_nat() == bytes_val(
                self.code@.subrange(self.pc + 1, self.pc + 1 + to_extract),
            ),
    {
        let mut bytes: Vec<u8> = Vec::new();
        let mut i: usize = 0;
        while i < 32 - to_extract
            invariant
                to_extract <= 32,
                i <= 32 - to_extract,
                bytes@.len() == i,
                forall|j: int| 0 <= j < i ==> bytes@[j] == 0u8,
            decreases 32 - to_extract - i,
        {
            bytes.push(0u8);
            i = i + 1;
        }
        let mut j: usize = 0;
        while j < to_extract
            invariant
                to_extract <= 32,
                self.pc + 1 + to_extract <= self.code@.len(),
                j <= to_extract,
                bytes@.len() == 32 - to_extract + j,
                forall|k: int| 0 <= k < 32 - to_extract ==> bytes@[k] == 0u8,
                bytes@.subrange(32 - to_extract as int, bytes@.len() as int) == self.code@
                    .subrange(self.pc + 1, self.pc + 1 + j),
            decreases to_extract - j,
        {
            // `_len` being a machine size keeps the index from overflowing.
            let _len = self.code.len();
            bytes.push(self.code[self.pc + 1 + j]);
            j = j + 1;
            proof {
                assert(bytes@.subrange(32 - to_extract as int, bytes@.len() as int)
                    =~= self.code@.subrange(self.pc + 1, self.pc + 1 + j));
            }
        }
        proof {
            let z = bytes@.subrange(0, 32 - to_extract as int);
            let imm = bytes@.subrange(32 - to_extract as int, 32);
            assert(bytes@ =~= z + imm);
            lemma_bytes_val_zero_prefix(z, imm);
        }
        word_from_be(&bytes)
    }

    /// The memory extent an instruction is about to touch, read from the
    /// top of the stack before any pop: `offset + 32` for word accesses,
    /// `offset + 1` for the byte access, nothing for other instructions.
    pub fn get_new_size(&self, code: &Opcode) -> (r: Option<usize>)
        requires
            (code matches Opcode::MLOAD(_) || code matches Opcode::MSTORE(_))
                ==> self.stack@.len() > 0 && offset_of(self.stack@.last().as_nat()) + 32
                <= usize::MAX as nat,
            code matches Opcode::MSTORE8(_) ==> self.stack@.len() > 0 && offset_of(
                self.stack@.last().as_nat(),
            ) + 1 <= usize::MAX as nat,
        ensures
            match *code {
                Opcode::MLOAD(_) | Opcode::MSTORE(_) => r == Some(
                    (offset_of(self.stack@.last().as_nat()) + 32) as usize,
                ),
                Opcode::MSTORE8(_) => r == Some(
                    (offset_of(self.stack@.last().as_nat()) + 1) as usize,
                ),
                _ => r is None,
            },
    {
        match code {
            Opcode::MLOAD(_) | Opcode::MSTORE(_) => {
                let off = self.stack[self.stack.len() - 1].truncate_to_offset();
                Some(off as usize + 32)
            },
            Opcode::MSTORE8(_) => {
                let off = self.stack[self.stack.len() - 1].truncate_to_offset();
                Some(off as usize + 1)
            },
            _ => None,
        }
    }

    /// Decodes the instruction at the counter and advances the counter
    /// past it.  Produces `EOF` at the end of the program, an error if the
    /// counter stands beyond it or an immediate is truncated, and the
    /// `UNKNOWN` instruction (still advancing by one) for a byte that is
    /// no known opcode.
    pub fn next(&mut self) -> (r: Result<Opcode, VmError>)
        ensures
            final(self).code@ == old(self).code@,
            final(self).stack@ == old(self).stack@,
            final(self).mem.data@ == old(self).mem.data@,
            ({
                let code = old(self).code@;
                let pc = old(self).pc as int;
                if pc > code.len() {
                    &&& r == Err::<Opcode, VmError>(
                        VmError::InvalidJumpTarget {
                            addr: old(self).pc,
                            target: old(self).pc as u64,
                        },
                    )
                    &&& final(self).pc == old(self).pc
                } else if pc == code.len() {
                    &&& r == Ok::<Opcode, VmError>(Opcode::EOF)
                    &&& final(self).pc == old(self).pc
                } else if is_push_byte(code[pc]) {
                    let n = imm_len(code[pc]);
                    if pc + 1 + n > code.len() {
                        &&& r == Err::<Opcode, VmError>(
                            VmError::DecodeTruncated { addr: old(self).pc },
                        )
                        &&& final(self).pc == old(self).pc
                    } else {
                        &&& final(self).pc == pc + 1 + n
                        &&& r matches Ok(op)
                        &&& push_decoded(r->Ok_0, code[pc], old(self).pc, bytes_val(
                            code.subrange(pc + 1, pc + 1 + n),
                        ))
                    }
                } else {
                    &&& final(self).pc == pc + 1
                    &&& r == Ok::<Opcode, VmError>(fixed_opcode(code[pc], old(self).pc))
                }
            }),
    {
        if self.pc > self.code.len() {
            return Err(VmError::InvalidJumpTarget { addr: self.pc, target: self.pc as u64 });
        }
        if self.pc == self.code.len() {
            return Ok(Opcode::EOF);
        }
        let addr = self.pc;
        let b = self.code[addr];
        match b {
            0x00 => {
                self.pc = addr + 1;
                Ok(Opcode::STOP(addr))
            },
            0x01 => {
                self.pc = addr + 1;
                Ok(Opcode::ADD(addr))
            },
            0x02 => {
                self.pc = addr + 1;
                Ok(Opcode::MUL(addr))
            },
            0x03 => {
                self.pc = addr + 1;
                Ok(Opcode::SUB(addr))
            },
            0x60 => {
                if self.code.len() - addr < 2 {
                    return Err(VmError::DecodeTruncated { addr });
                }
                let value = self.extract_u256(1);
                self.pc = addr + 2;
                Ok(Opcode::PUSH1(addr, value))
            },
            0x61 => {
                if self.code.len() - addr < 3 {
                    return Err(VmError::DecodeTruncated { addr });
                }
                let value = self.extract_u256(2);
                self.pc = addr + 3;
                Ok(Opcode::PUSH2(addr, value))
            },
            0x73 => {
                if self.code.len() - addr < 33 {
                    return Err(VmError::DecodeTruncated { addr });
                }
                let value = self.extract_u256(32);
                self.pc = addr + 33;
                Ok(Opcode::PUSH32(addr, value))
            },
            0x12 => {
                self.pc = addr + 1;
                Ok(Opcode::SLT(addr))
            },
            0x57 => {
                self.pc = addr + 1;
                Ok(Opcode::JUMPI(addr))
            },
            0x56 => {
                self.pc = addr + 1;
                Ok(Opcode::JUMP(addr))
            },
            0x51 => {
                self.pc = addr + 1;
                Ok(Opcode::MLOAD(addr))
            },
            0x52 => {
                self.pc = addr + 1;
                Ok(Opcode::MSTORE(addr))
            },
            0x53 => {
                self.pc = addr + 1;
                Ok(Opcode::MSTORE8(addr))
            },
            _ => {
                self.pc = addr + 1;
                Ok(Opcode::UNKNOWN(addr))
            },
        }
    }
}

impl Vm {
    /// Applies one decoded instruction to the stack, the memory and the
    /// counter, exactly as `exec_spec` says.  For `PRINT` the popped value
    /// is handed back for the trace sink.
    pub fn execute(&mut self, op: Opcode) -> (r: Result<StepResult, VmError>)
        ensures
            final(self).code@ == old(self).code@,
            ({
                let out = exec_spec(op, old(self).model());
                match out {
                    SpecOutcome::Step(s2) => {
                        &&& final(self).model() == s2
                        &&& if op matches Opcode::PRINT(_) {
                            r matches Ok(sr) && sr matches StepResult::Emitted(op2, w) && op2
                                == op && w.as_nat() == first(old(self).model())
                        } else {
                            r == Ok::<StepResult, VmError>(StepResult::Ran(op))
                        }
                    },
                    SpecOutcome::Halt(s2) => {
                        &&& r == Ok::<StepResult, VmError>(StepResult::Halted)
                        &&& final(self).model() == s2
                    },
                    SpecOutcome::Fail(e) => {
                        &&& r == Err::<StepResult, VmError>(e)
                        &&& final(self).pc == old(self).pc
                        &&& final(self).stack@ == old(self).stack@
                        &&& final(self).mem.data@ == old(self).mem.data@
                    },
                }
            }),
    {
        match op {
            Opcode::STOP(_) => Ok(StepResult::Halted),
            Opcode::EOF => Ok(StepResult::Halted),
            Opcode::ADD(a) => {
                if self.stack.len() < 2 {
                    return Err(VmError::StackUnderflow { addr: a, opcode: op });
                }
                let x = self.stack.pop().unwrap();
                let y = self.stack.pop().unwrap();
                let z = word_add(&x, &y);
                self.stack.push(z);
                proof {
                    lemma_binary_step(old(self).stack@, self.stack@, z);
                    assert(self.model() =~= binary_result(
                        old(self).model(),
                        wrap(first(old(self).model()) as int + second(old(self).model()) as int),
                    ));
                }
                Ok(StepResult::Ran(op))
            },
            Opcode::SUB(a) => {
                if self.stack.len() < 2 {
                    return Err(VmError::StackUnderflow { addr: a, opcode: op });
                }
                let x = self.stack.pop().unwrap();
                let y = self.stack.pop().unwrap();
                let z = word_sub(&x, &y);
                self.stack.push(z);
                proof {
                    lemma_binary_step(old(self).stack@, self.stack@, z);
                    assert(self.model() =~= binary_result(
                        old(self).model(),
                        wrap(first(old(self).model()) as int - second(old(self).model()) as int),
                    ));
                }
                Ok(StepResult::Ran(op))
            },
            Opcode::MUL(a) => {
                if self.stack.len() < 2 {
                    return Err(VmError::StackUnderflow { addr: a, opcode: op });
                }
                let x = self.stack.pop().unwrap();
                let y = self.stack.pop().unwrap();
                let z = word_mul(&x, &y);
                self.stack.push(z);
                proof {
                    lemma_binary_step(old(self).stack@, self.stack@, z);
                    assert(self.model() =~= binary_result(
                        old(self).model(),
                        wrap(first(old(self).model()) as int * second(old(self).model()) as int),
                    ));
                }
                Ok(StepResult::Ran(op))
            },
            Opcode::SLT(a) => {
                if self.stack.len() < 2 {
                    return Err(VmError::StackUnderflow { addr: a, opcode: op });
                }
                let x = self.stack.pop().unwrap();
                let y = self.stack.pop().unwrap();
                let z = if x.signed_lt(&y) {
                    Word::from_u64(1)
                } else {
                    Word::from_u64(0)
                };
                self.stack.push(z);
                proof {
                    lemma_binary_step(old(self).stack@, self.stack@, z);
                    assert(self.model() =~= binary_result(
                        old(self).model(),
                        if signed_of(first(old(self).model())) < signed_of(
                            second(old(self).model()),
                        ) {
                            1nat
                        } else {
                            0nat
                        },
                    ));
                }
                Ok(StepResult::Ran(op))
            },
            Opcode::PUSH1(_, w) => {
                self.stack.push(w);
                proof {
                    lemma_model_push(old(self).stack@, w);
                    assert(self.model() =~= MachineState {
                        pc: old(self).model().pc,
                        stack: old(self).model().stack.push(w.as_nat()),
                        mem: old(self).model().mem,
                    });
                }
                Ok(StepResult::Ran(op))
            },
            Opcode::PUSH2(_, w) => {
                self.stack.push(w);
                proof {
                    lemma_model_push(old(self).stack@, w);
                    assert(self.model() =~= MachineState {
                        pc: old(self).model().pc,
                        stack: old(self).model().stack.push(w.as_nat()),
                        mem: old(self).model().mem,
                    });
                }
                Ok(StepResult::Ran(op))
            },
            Opcode::PUSH32(_, w) => {
                self.stack.push(w);
                proof {
                    lemma_model_push(old(self).stack@, w);
                    assert(self.model() =~= MachineState {
                        pc: old(self).model().pc,
                        stack: old(self).model().stack.push(w.as_nat()),
                        mem: old(self).model().mem,
                    });
                }
                Ok(StepResult::Ran(op))
            },
            Opcode::JUMP(a) => {
                if self.stack.len() < 1 {
                    return Err(VmError::StackUnderflow { addr: a, opcode: op });
                }
                let t64 = self.stack[self.stack.len() - 1].truncate_to_offset();
                if t64 > usize::MAX as u64 {
                    return Err(VmError::InvalidJumpTarget { addr: a, target: t64 });
                }
                let _target = self.stack.pop();
                self.pc = t64 as usize;
                proof {
                    lemma_model_drop(old(self).stack@);
                    assert(self.model() =~= MachineState {
                        pc: offset_of(first(old(self).model())) as int,
                        stack: old(self).model().stack.drop_last(),
                        mem: old(self).model().mem,
                    });
                }
                Ok(StepResult::Ran(op))
            },
            Opcode::JUMPI(a) => {
                if self.stack.len() < 2 {
                    return Err(VmError::StackUnderflow { addr: a, opcode: op });
                }
                let t64 = self.stack[self.stack.len() - 1].truncate_to_offset();
                let cond = self.stack[self.stack.len() - 2];
                if cond.is_zero() {
                    let _target = self.stack.pop();
                    let _cond = self.stack.pop();
                    proof {
                        lemma_model_drop(old(self).stack@);
                        lemma_model_drop(old(self).stack@.drop_last());
                        assert(self.model() =~= MachineState {
                            pc: old(self).model().pc,
                            stack: old(self).model().stack.drop_last().drop_last(),
                            mem: old(self).model().mem,
                        });
                    }
                    Ok(StepResult::Ran(op))
                } else {
                    if t64 > usize::MAX as u64 {
                        return Err(VmError::InvalidJumpTarget { addr: a, target: t64 });
                    }
                    let _target = self.stack.pop();
                    let _cond = self.stack.pop();
                    self.pc = t64 as usize;
                    proof {
                        lemma_model_drop(old(self).stack@);
                        lemma_model_drop(old(self).stack@.drop_last());
                        assert(self.model() =~= MachineState {
                            pc: offset_of(first(old(self).model())) as int,
                            stack: old(self).model().stack.drop_last().drop_last(),
                            mem: old(self).model().mem,
                        });
                    }
                    Ok(StepResult::Ran(op))
                }
            },
            Opcode::MLOAD(a) => {
                if self.stack.len() < 1 {
                    return Err(VmError::StackUnderflow { addr: a, opcode: op });
                }
                let off64 = self.stack[self.stack.len() - 1].truncate_to_offset();
                if off64 > usize::MAX as u64 - 32 {
                    return Err(VmError::MemoryOutOfBounds { addr: a, offset: off64, extent: 32 });
                }
                let new_size = self.get_new_size(&op).unwrap();
                self.mem.resize(new_size);
                proof {
                    assert(self.mem.data@ =~= grow(
                        old(self).mem.data@,
                        offset_of(first(old(self).model())) as int + 32,
                    ));
                }
                let _offset = self.stack.pop();
                let v = self.mem.get_word(off64 as usize);
                self.stack.push(v);
                proof {
                    lemma_model_drop(old(self).stack@);
                    lemma_model_push(old(self).stack@.drop_last(), v);
                    let off = offset_of(first(old(self).model()));
                    let m2 = grow(old(self).mem.data@, off as int + 32);
                    assert(self.model() =~= MachineState {
                        pc: old(self).model().pc,
                        stack: old(self).model().stack.drop_last().push(
                            bytes_val(m2.subrange(off as int, off as int + 32)),
                        ),
                        mem: m2,
                    });
                }
                Ok(StepResult::Ran(op))
            },
            Opcode::MSTORE(a) => {
                if self.stack.len() < 2 {
                    return Err(VmError::StackUnderflow { addr: a, opcode: op });
                }
                let off64 = self.stack[self.stack.len() - 1].truncate_to_offset();
                if off64 > usize::MAX as u64 - 32 {
                    return Err(VmError::MemoryOutOfBounds { addr: a, offset: off64, extent: 32 });
                }
                let new_size = self.get_new_size(&op).unwrap();
                self.mem.resize(new_size);
                proof {
                    assert(self.mem.data@ =~= grow(
                        old(self).mem.data@,
                        offset_of(first(old(self).model())) as int + 32,
                    ));
                }
                let _offset = self.stack.pop();
                let value = self.stack.pop().unwrap();
                self.mem.set_word(off64 as usize, value);
                proof {
                    lemma_model_drop(old(self).stack@);
                    lemma_model_drop(old(self).stack@.drop_last());
                    let off = offset_of(first(old(self).model()));
                    let m2 = grow(old(self).mem.data@, off as int + 32);
                    assert(self.mem.data@ =~= store_bytes(
                        m2,
                        off as int,
                        be_bytes32(second(old(self).model())),
                    ));
                    assert(self.model() =~= MachineState {
                        pc: old(self).model().pc,
                        stack: old(self).model().stack.drop_last().drop_last(),
                        mem: store_bytes(m2, off as int, be_bytes32(second(old(self).model()))),
                    });
                }
                Ok(StepResult::Ran(op))
            },
            Opcode::MSTORE8(a) => {
                if self.stack.len() < 2 {
                    return Err(VmError::StackUnderflow { addr: a, opcode: op });
                }
                let off64 = self.stack[self.stack.len() - 1].truncate_to_offset();
                if off64 > usize::MAX as u64 - 1 {
                    return Err(VmError::MemoryOutOfBounds { addr: a, offset: off64, extent: 1 });
                }
                let new_size = self.get_new_size(&op).unwrap();
                self.mem.resize(new_size);
                proof {
                    assert(self.mem.data@ =~= grow(
                        old(self).mem.data@,
                        offset_of(first(old(self).model())) as int + 1,
                    ));
                }
                let _offset = self.stack.pop();
                let value = self.stack.pop().unwrap();
                self.mem.set_byte(off64 as usize, value.low_byte());
                proof {
                    lemma_model_drop(old(self).stack@);
                    lemma_model_drop(old(self).stack@.drop_last());
                    let off = offset_of(first(old(self).model()));
                    let m2 = grow(old(self).mem.data@, off as int + 1);
                    assert(self.model() =~= MachineState {
                        pc: old(self).model().pc,
                        stack: old(self).model().stack.drop_last().drop_last(),
                        mem: m2.update(off as int, (second(old(self).model()) % 256) as u8),
                    });
                }
                Ok(StepResult::Ran(op))
            },
            Opcode::PRINT(a) => {
                if self.stack.len() < 1 {
                    return Err(VmError::StackUnderflow { addr: a, opcode: op });
                }
                let v = self.stack.pop().unwrap();
                proof {
                    lemma_model_drop(old(self).stack@);
                    assert(self.model() =~= MachineState {
                        pc: old(self).model().pc,
                        stack: old(self).model().stack.drop_last(),
                        mem: old(self).model().mem,
                    });
                }
                Ok(StepResult::Emitted(op, v))
            },
            Opcode::UNKNOWN(_) => Ok(StepResult::Ran(op)),
        }
    }

    /// One fetch-decode-execute step: decodes the instruction at the
    /// counter and applies it, exactly as `step_spec` says.  `Halted`
    /// is terminal; on an error the stack and the memory keep their
    /// values and the machine is failed.
    pub fn interpret(&mut self) -> (r: Result<StepResult, VmError>)
        ensures
            final(self).code@ == old(self).code@,
            ({
                let out = step_spec(old(self).code@, old(self).model());
                match out {
                    SpecOutcome::Step(s2) => {
                        &&& final(self).model() == s2
                        &&& r matches Ok(sr) && !(sr matches StepResult::Halted)
                    },
                    SpecOutcome::Halt(s2) => {
                        &&& r == Ok::<StepResult, VmError>(StepResult::Halted)
                        &&& final(self).model() == s2
                    },
                    SpecOutcome::Fail(e) => {
                        &&& r == Err::<StepResult, VmError>(e)
                        &&& final(self).stack@ == old(self).stack@
                        &&& final(self).mem.data@ == old(self).mem.data@
                    },
                }
            }),
    {
        let ghost s0 = self.model();
        let op = match self.next() {
            Ok(op) => op,
            Err(e) => {
                return Err(e);
            },
        };
        let ghost mid = self.model();
        proof {
            let code = old(self).code@;
            if s0.pc == code.len() {
                assert(mid =~= s0);
            } else if is_push_byte(code[s0.pc]) {
                assert(mid =~= MachineState {
                    pc: s0.pc + 1 + imm_len(code[s0.pc]),
                    stack: s0.stack,
                    mem: s0.mem,
                });
            } else {
                assert(mid =~= MachineState { pc: s0.pc + 1, stack: s0.stack, mem: s0.mem });
            }
        }
        let res = self.execute(op);
        proof {
            let code = old(self).code@;
            if s0.pc < code.len() && is_push_byte(code[s0.pc]) && s0.pc + 1 + imm_len(code[s0.pc])
                <= code.len() {
                let imm = bytes_val(code.subrange(s0.pc + 1, s0.pc + 1 + imm_len(code[s0.pc])));
                match exec_spec(op, mid) {
                    SpecOutcome::Step(s2) => {
                        assert(s2 =~= MachineState {
                            pc: s0.pc + 1 + imm_len(code[s0.pc]),
                            stack: s0.stack.push(imm),
                            mem: s0.mem,
                        });
                    },
                    _ => {
                        assert(false);
                    },
                }
            }
        }
        res
    }
}

/// Popping two words and pushing one moves the stack model as
/// `binary_result` does.
proof fn lemma_binary_step(pre: Seq<Word>, post: Seq<Word>, z: Word)
    requires
        pre.len() >= 2,
        post == pre.drop_last().drop_last().push(z),
    ensures
        stack_model(post) == stack_model(pre).drop_last().drop_last().push(z.as_nat()),
        stack_model(pre).last() == pre.last().as_nat(),
        stack_model(pre)[stack_model(pre).len() - 2] == pre[pre.len() - 2].as_nat(),
{
    lemma_model_drop(pre);
    lemma_model_drop(pre.drop_last());
    lemma_model_push(pre.drop_last().drop_last(), z);
}

/// Pushing a word pushes its value onto the stack model.
proof fn lemma_model_push(s: Seq<Word>, w: Word)
    ensures
        stack_model(s.push(w)) == stack_model(s).push(w.as_nat()),
{
    assert(stack_model(s.push(w)) =~= stack_model(s).push(w.as_nat()));
}

/// Dropping the top word drops the top of the stack model.
proof fn lemma_model_drop(s: Seq<Word>)
    requires
        s.len() > 0,
    ensures
        stack_model(s.drop_last()) == stack_model(s).drop_last(),
        stack_model(s).last() == s.last().as_nat(),
        s.len() >= 2 ==> stack_model(s)[stack_model(s).len() - 2] == s[s.len() - 2].as_nat(),
{
    assert(stack_model(s.drop_last()) =~= stack_model(s).drop_last());
}

/// Whether `op` is the PUSH instruction byte `b` decodes to at address
/// `a` with immediate value `imm`.
pub open spec fn push_decoded(op: Opcode, b: u8, a: usize, imm: nat) -> bool {
    match op {
        Opcode::PUSH1(a2, w) => b == 0x60 && a2 == a && w.as_nat() == imm,
        Opcode::PUSH2(a2, w) => b == 0x61 && a2 == a && w.as_nat() == imm,
        Opcode::PUSH32(a2, w) => b == 0x73 && a2 == a && w.as_nat() == imm,
        _ => false,
    }
}

/// Whether the byte is the ASCII form of a hexadecimal digit.
pub open spec fn hex_digit(b: u8) -> bool {
    (0x30 <= b <= 0x39) || (0x61 <= b <= 0x66) || (0x41 <= b <= 0x46)
}

/// The numeric value of a hexadecimal digit byte.
pub open spec fn hex_val(b: u8) -> nat {
    if 0x30 <= b <= 0x39 {
        (b - 0x30) as nat
    } else if 0x61 <= b <= 0x66 {
        (b - 0x61 + 10) as nat
    } else if 0x41 <= b <= 0x46 {
        (b - 0x41 + 10) as nat
    } else {
        0
    }
}

/// The value of one hexadecimal digit byte, if it is one.
fn hex_digit_value(b: u8) -> (r: Option<u8>)
    ensures
        match r {
            Some(v) => hex_digit(b) && v as nat == hex_val(b) && v < 16,
            None => !hex_digit(b),
        },
{
    if 0x30 <= b && b <= 0x39 {
        Some(b - 0x30)
    } else if 0x61 <= b && b <= 0x66 {
        Some(b - 0x61 + 10)
    } else if 0x41 <= b && b <= 0x46 {
        Some(b - 0x41 + 10)
    } else {
        None
    }
}

/// Decodes a string of hexadecimal digit pairs into bytes.  Succeeds
/// exactly on inputs of even length made of hexadecimal digits; each
/// byte is the value of one digit pair.
pub fn decode(s: &str) -> (r: Result<Vec<u8>, VmError>)
    ensures
        match r {
            Ok(v) => {
                &&& s.spec_bytes().len() % 2 == 0
                &&& forall|i: int|
                    0 <= i < s.spec_bytes().len() ==> hex_digit(s.spec_bytes()[i])
                &&& v@.len() == s.spec_bytes().len() / 2
                &&& forall|i: int|
                    0 <= i < v@.len() ==> v@[i] as nat == 16 * hex_val(s.spec_bytes()[2 * i])
                        + hex_val(s.spec_bytes()[2 * i + 1])
            },
            Err(e) => {
                &&& e == VmError::InvalidInputEncoding
                &&& (s.spec_bytes().len() % 2 != 0 || exists|i: int|
                    0 <= i < s.spec_bytes().len() && !hex_digit(s.spec_bytes()[i]))
            },
        },
{
    let bytes = s.as_bytes();
    let n = bytes.len();
    if n % 2 != 0 {
        return Err(VmError::InvalidInputEncoding);
    }
    let mut out: Vec<u8> = Vec::new();
    let mut i: usize = 0;
    while i < n
        invariant
            bytes@ == s.spec_bytes(),
            n == bytes@.len(),
            n % 2 == 0,
            i % 2 == 0,
            i <= n,
            out@.len() == i / 2,
            forall|j: int| 0 <= j < i ==> hex_digit(bytes@[j]),
            forall|j: int|
                0 <= j < out@.len() ==> out@[j] as nat == 16 * hex_val(bytes@[2 * j]) + hex_val(
                    bytes@[2 * j + 1],
                ),
        decreases n - i,
    {
        let hi = match hex_digit_value(bytes[i]) {
            Some(v) => v,
            None => {
                proof {
                    assert(!hex_digit(s.spec_bytes()[i as int]));
                }
                return Err(VmError::InvalidInputEncoding);
            },
        };
        let lo = match hex_digit_value(bytes[i + 1]) {
            Some(v) => v,
            None => {
                proof {
                    assert(!hex_digit(s.spec_bytes()[i as int + 1]));
                }
                return Err(VmError::InvalidInputEncoding);
            },
        };
        out.push(16 * hi + lo);
        i = i + 2;
    }
    Ok(out)
}

} // verus!
