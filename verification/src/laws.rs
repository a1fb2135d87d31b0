//! General laws of the machine, stated over the specification-level
//! transition function `step_spec` and proved once for all programs and
//! states.  `Vm::interpret` is proved to follow `step_spec` exactly, so
//! each law carries over to the executable machine.

use vstd::prelude::*;
use vstd::arithmetic::power2::pow2;
use crate::vm::{
    MachineState, SpecOutcome, step_spec, run_spec, is_push_byte, known_opcode, imm_len, first,
    second, offset_of, wrap, grow, store_bytes,
};
use crate::word::{bytes_val, be_bytes32, lemma_be_bytes32_val};

verus! {

/// The combined value of one wrapping arithmetic instruction:
/// `a` is the first-popped operand and stands on the left, `b` the
/// second.
pub open spec fn arith_fold(opb: u8, a: nat, b: nat) -> nat {
    if opb == 0x01 {
        wrap(a as int + b as int)
    } else if opb == 0x02 {
        wrap(a as int * b as int)
    } else {
        wrap(a as int - b as int)
    }
}

/// Iterating the step function `m + n` times is iterating it `m` times
/// and then, if still running, `n` more.
pub proof fn lemma_run_spec_add(code: Seq<u8>, s: MachineState, m: nat, n: nat)
    ensures
        run_spec(code, s, m + n) == match run_spec(code, s, m) {
            SpecOutcome::Step(s2) => run_spec(code, s2, n),
            out => out,
        },
    decreases n,
{
    if n == 0 {
    } else {
        lemma_run_spec_add(code, s, m, (n - 1) as nat);
        assert(run_spec(code, s, m + n) == match run_spec(code, s, (m + n - 1) as nat) {
            SpecOutcome::Step(s2) => step_spec(code, s2),
            out => out,
        });
    }
}

/// The opcode byte of the PUSH instruction with an `n`-byte immediate.
pub open spec fn push_opcode_byte(n: int) -> u8 {
    if n == 1 {
        0x60
    } else if n == 2 {
        0x61
    } else {
        0x73
    }
}

/// Whether each immediate has the width of one of the PUSH instructions.
pub open spec fn push_widths_ok(imms: Seq<Seq<u8>>) -> bool {
    forall|i: int|
        0 <= i < imms.len() ==> (#[trigger] imms[i].len() == 1 || imms[i].len() == 2
            || imms[i].len() == 32)
}

/// The byte encoding of a run of PUSH instructions, one per immediate.
pub open spec fn push_block(imms: Seq<Seq<u8>>) -> Seq<u8>
    decreases imms.len(),
{
    if imms.len() == 0 {
        Seq::empty()
    } else {
        seq![push_opcode_byte(imms[0].len() as int)] + imms[0] + push_block(imms.drop_first())
    }
}

/// The left-to-right fold of a run of arithmetic instructions over the
/// stack: `acc` is the running value at the top, `rest` the values under
/// it, and each instruction in `ops`, in order, combines `acc` (first
/// popped) with the next value below.
pub open spec fn fold_ops(acc: nat, rest: Seq<nat>, ops: Seq<u8>) -> nat
    decreases ops.len(),
{
    if ops.len() == 0 {
        acc
    } else {
        fold_ops(arith_fold(ops[0], acc, rest.last()), rest.drop_last(), ops.drop_first())
    }
}

/// Whether every byte is an ADD, MUL or SUB opcode.
pub open spec fn all_arith(ops: Seq<u8>) -> bool {
    forall|i: int| 0 <= i < ops.len() ==> (ops[i] == 0x01 || ops[i] == 0x02 || ops[i] == 0x03)
}

/// Running a block of PUSH instructions pushes exactly the values of
/// its immediates, in order, and advances the counter over the block.
proof fn lemma_push_phase(code: Seq<u8>, s: MachineState, imms: Seq<Seq<u8>>)
    requires
        0 <= s.pc,
        push_widths_ok(imms),
        s.pc + push_block(imms).len() <= code.len(),
        code.subrange(s.pc, s.pc + push_block(imms).len()) == push_block(imms),
    ensures
        run_spec(code, s, imms.len()) == SpecOutcome::Step(
            MachineState {
                pc: s.pc + push_block(imms).len(),
                stack: s.stack + imms.map_values(|im: Seq<u8>| bytes_val(im)),
                mem: s.mem,
            },
        ),
    decreases imms.len(),
{
    let vals = imms.map_values(|im: Seq<u8>| bytes_val(im));
    let block = push_block(imms);
    if imms.len() == 0 {
        assert(s.stack + vals =~= s.stack);
        assert(run_spec(code, s, 0) =~= SpecOutcome::Step(
            MachineState { pc: s.pc + block.len(), stack: s.stack + vals, mem: s.mem },
        ));
    } else {
        let n0 = imms[0].len() as int;
        let head = seq![push_opcode_byte(n0)] + imms[0];
        let tail = push_block(imms.drop_first());
        assert(block == head + tail);
        assert(imms[0].len() == 1 || imms[0].len() == 2 || imms[0].len() == 32);
        assert forall|j: int| 0 <= j < block.len() implies code[s.pc + j] == block[j] by {
            assert(block[j] == code.subrange(s.pc, s.pc + block.len())[j]);
        }
        let b = push_opcode_byte(n0);
        assert(block[0] == head[0]);
        assert(head[0] == b);
        assert(is_push_byte(b) && imm_len(b) == n0);
        assert forall|i: int| 0 <= i < n0 implies code[s.pc + 1 + i] == imms[0][i] by {
            assert(block[1 + i] == head[1 + i]);
            assert(head[1 + i] == imms[0][i]);
        }
        assert(code.subrange(s.pc + 1, s.pc + 1 + n0) =~= imms[0]);
        let s1 = MachineState {
            pc: s.pc + 1 + n0,
            stack: s.stack.push(bytes_val(imms[0])),
            mem: s.mem,
        };
        assert(step_spec(code, s) =~= SpecOutcome::Step(s1));
        assert(run_spec(code, s, 0) == SpecOutcome::Step(s));
        assert(run_spec(code, s, 1) == SpecOutcome::Step(s1));
        assert forall|i: int| 0 <= i < tail.len() implies tail[i] == block[1 + n0 + i] by {
            assert(block[1 + n0 + i] == (head + tail)[1 + n0 + i]);
        }
        assert(code.subrange(s1.pc, s1.pc + tail.len()) =~= tail);
        lemma_push_phase(code, s1, imms.drop_first());
        lemma_run_spec_add(code, s, 1, imms.drop_first().len());
        assert(s.stack.push(bytes_val(imms[0])) + imms.drop_first().map_values(
            |im: Seq<u8>| bytes_val(im),
        ) =~= s.stack + vals);
        assert(run_spec(code, s, imms.len()) == SpecOutcome::Step(
            MachineState { pc: s.pc + block.len(), stack: s.stack + vals, mem: s.mem },
        ));
    }
}

/// Running a block of arithmetic instructions folds the values on top
/// of the stack into one.
proof fn lemma_arith_phase(code: Seq<u8>, s: MachineState, base: Seq<nat>, vals: Seq<nat>, ops: Seq<u8>)
    requires
        0 <= s.pc,
        s.pc + ops.len() <= code.len(),
        code.subrange(s.pc, s.pc + ops.len()) == ops,
        all_arith(ops),
        vals.len() == ops.len() + 1,
        s.stack == base + vals,
    ensures
        run_spec(code, s, ops.len()) == SpecOutcome::Step(
            MachineState {
                pc: s.pc + ops.len(),
                stack: base.push(fold_ops(vals.last(), vals.drop_last(), ops)),
                mem: s.mem,
            },
        ),
    decreases ops.len(),
{
    if ops.len() == 0 {
        assert(base.push(vals.last()) =~= base + vals);
    } else {
        let b = ops[0];
        assert(code[s.pc] == code.subrange(s.pc, s.pc + ops.len())[0]);
        assert(code[s.pc] == b);
        assert(s.stack.len() == base.len() + ops.len() + 1);
        assert(first(s) == vals.last());
        assert(s.stack[s.stack.len() - 2] == vals[vals.len() - 2]);
        let w = arith_fold(b, vals.last(), vals.drop_last().last());
        let vals1 = vals.drop_last().drop_last().push(w);
        let s1 = MachineState { pc: s.pc + 1, stack: base + vals1, mem: s.mem };
        assert(s.stack.drop_last().drop_last().push(w) =~= base + vals1);
        assert(step_spec(code, s) =~= SpecOutcome::Step(s1));
        assert(run_spec(code, s, 0) == SpecOutcome::Step(s));
        assert(run_spec(code, s, 1) == SpecOutcome::Step(s1));
        assert(code.subrange(s1.pc, s1.pc + ops.drop_first().len()) =~= ops.drop_first());
        assert(vals1.len() == ops.drop_first().len() + 1);
        lemma_arith_phase(code, s1, base, vals1, ops.drop_first());
        lemma_run_spec_add(code, s, 1, ops.drop_first().len());
        assert(vals1.last() == w);
        assert(vals1.drop_last() =~= vals.drop_last().drop_last());
        assert(fold_ops(vals.last(), vals.drop_last(), ops) == fold_ops(
            w,
            vals.drop_last().drop_last(),
            ops.drop_first(),
        ));
    }
}

/// Law: a program of PUSH-family instructions followed by ADD, MUL and
/// SUB instructions and a STOP halts with the single stack entry that is
/// the fold of the decoded immediates under wrapping 256-bit arithmetic,
/// the first-popped operand standing on the left of each combination —
/// for every choice of immediates, immediate widths and arithmetic
/// instructions.
#[verifier::rlimit(60)]
pub proof fn lemma_push_arith_fold_program(imms: Seq<Seq<u8>>, ops: Seq<u8>)
    requires
        imms.len() == ops.len() + 1,
        push_widths_ok(imms),
        all_arith(ops),
    ensures
        ({
            let code = push_block(imms) + ops + seq![0x00u8];
            let init = MachineState { pc: 0, stack: Seq::empty(), mem: Seq::empty() };
            let vals = imms.map_values(|im: Seq<u8>| bytes_val(im));
            let steps = imms.len() + ops.len() + 1;
            &&& run_spec(code, init, steps as nat) matches SpecOutcome::Halt(s2)
            &&& run_spec(code, init, steps as nat)->Halt_0.stack =~= seq![
                fold_ops(vals.last(), vals.drop_last(), ops),
            ]
        }),
{
    let block = push_block(imms);
    let code = block + ops + seq![0x00u8];
    let init = MachineState { pc: 0, stack: Seq::empty(), mem: Seq::empty() };
    let vals = imms.map_values(|im: Seq<u8>| bytes_val(im));
    assert(code.len() == block.len() + ops.len() + 1);
    assert(code.subrange(0, block.len() as int) =~= block);
    lemma_push_phase(code, init, imms);
    let sp = MachineState {
        pc: block.len() as int,
        stack: Seq::empty() + vals,
        mem: Seq::empty(),
    };
    assert(run_spec(code, init, imms.len()) == SpecOutcome::Step(sp));
    assert(code.subrange(sp.pc, sp.pc + ops.len()) =~= ops);
    assert(sp.stack == Seq::<nat>::empty() + vals);
    lemma_arith_phase(code, sp, Seq::empty(), vals, ops);
    let v = fold_ops(vals.last(), vals.drop_last(), ops);
    let sq = MachineState {
        pc: block.len() as int + ops.len() as int,
        stack: Seq::<nat>::empty().push(v),
        mem: Seq::empty(),
    };
    assert(run_spec(code, sp, ops.len()) == SpecOutcome::Step(sq));
    lemma_run_spec_add(code, init, imms.len(), ops.len());
    assert(run_spec(code, init, (imms.len() + ops.len()) as nat) == SpecOutcome::Step(sq));
    assert(code[sq.pc] == 0x00);
    let sr = MachineState { pc: sq.pc + 1, stack: sq.stack, mem: sq.mem };
    assert(step_spec(code, sq) =~= SpecOutcome::Halt(sr));
    lemma_run_spec_add(code, init, (imms.len() + ops.len()) as nat, 1);
    assert(run_spec(code, sq, 1) == SpecOutcome::Halt(sr));
    assert(sr.stack =~= seq![v]);
}

/// Law: every PUSH pushes exactly one value and advances the counter by
/// one plus the width of its immediate, whatever the immediate's value.
pub proof fn lemma_push_step(code: Seq<u8>, s: MachineState)
    requires
        0 <= s.pc < code.len(),
        is_push_byte(code[s.pc]),
        s.pc + 1 + imm_len(code[s.pc]) <= code.len(),
    ensures
        ({
            let n = imm_len(code[s.pc]);
            &&& step_spec(code, s) matches SpecOutcome::Step(s2)
            &&& step_spec(code, s)->Step_0.pc == s.pc + 1 + n
            &&& step_spec(code, s)->Step_0.stack.len() == s.stack.len() + 1
            &&& step_spec(code, s)->Step_0.stack.drop_last() == s.stack
            &&& step_spec(code, s)->Step_0.stack.last() == bytes_val(
                code.subrange(s.pc + 1, s.pc + 1 + n),
            )
            &&& step_spec(code, s)->Step_0.mem == s.mem
        }),
{
    let imm = bytes_val(code.subrange(s.pc + 1, s.pc + 1 + imm_len(code[s.pc])));
    assert(s.stack.push(imm).drop_last() =~= s.stack);
}

/// Law: JUMP and JUMPI change only the counter and remove only their
/// declared pops; the rest of the stack and all of memory are untouched.
pub proof fn lemma_jump_isolation(code: Seq<u8>, s: MachineState)
    requires
        0 <= s.pc < code.len(),
        code[s.pc] == 0x56 || code[s.pc] == 0x57,
    ensures
        step_spec(code, s) matches SpecOutcome::Step(s2) ==> {
            &&& s2.mem == s.mem
            &&& code[s.pc] == 0x56 ==> s2.stack == s.stack.drop_last()
            &&& code[s.pc] == 0x57 ==> s2.stack == s.stack.drop_last().drop_last()
        },
{
}

/// Law: storing a word and loading it back.  After an MSTORE step at
/// some offset, an MLOAD step over the resulting memory at the same
/// offset pushes exactly the stored value.
pub proof fn lemma_mstore_mload_round_trip(code: Seq<u8>, s: MachineState, t: MachineState)
    requires
        0 <= s.pc < code.len(),
        code[s.pc] == 0x52,
        s.stack.len() >= 2,
        second(s) < pow2(256),
        offset_of(first(s)) + 32 <= usize::MAX as nat,
        0 <= t.pc < code.len(),
        code[t.pc] == 0x51,
        t.stack.len() >= 1,
        offset_of(first(t)) == offset_of(first(s)),
        t.mem == store_bytes(
            grow(s.mem, offset_of(first(s)) as int + 32),
            offset_of(first(s)) as int,
            be_bytes32(second(s)),
        ),
    ensures
        step_spec(code, s) matches SpecOutcome::Step(s2) && s2.mem == t.mem,
        step_spec(code, t) matches SpecOutcome::Step(t2) && t2.stack == t.stack.drop_last().push(
            second(s),
        ),
{
    let off = offset_of(first(s)) as int;
    let m2 = grow(s.mem, off + 32);
    assert(t.mem.len() >= off + 32);
    assert(grow(t.mem, off + 32) == t.mem);
    assert(t.mem.subrange(off, off + 32) =~= be_bytes32(second(s)));
    lemma_be_bytes32_val(second(s));
}

/// Law: MSTORE8 changes exactly one byte of the grown memory: the byte
/// at its offset becomes the low byte of the stored value, and every
/// other byte, in particular the neighbours of the offset, keeps its
/// value.
pub proof fn lemma_mstore8_isolation(code: Seq<u8>, s: MachineState)
    requires
        0 <= s.pc < code.len(),
        code[s.pc] == 0x53,
        s.stack.len() >= 2,
        offset_of(first(s)) + 1 <= usize::MAX as nat,
    ensures
        ({
            let off = offset_of(first(s)) as int;
            let m2 = grow(s.mem, off + 1);
            &&& step_spec(code, s) matches SpecOutcome::Step(s2)
            &&& step_spec(code, s)->Step_0.mem.len() == m2.len()
            &&& step_spec(code, s)->Step_0.mem[off] == (second(s) % 256) as u8
            &&& forall|i: int|
                0 <= i < m2.len() && i != off ==> step_spec(code, s)->Step_0.mem[i] == m2[i]
        }),
{
}

/// Law: forward progress on an unrecognized opcode byte.  The step
/// succeeds, the counter advances by exactly one, and the stack and the
/// memory are unchanged.
pub proof fn lemma_unknown_forward_progress(code: Seq<u8>, s: MachineState)
    requires
        0 <= s.pc < code.len(),
        !known_opcode(code[s.pc]),
    ensures
        step_spec(code, s) == SpecOutcome::Step(
            MachineState { pc: s.pc + 1, stack: s.stack, mem: s.mem },
        ),
{
    assert(step_spec(code, s) =~= SpecOutcome::Step(
        MachineState { pc: s.pc + 1, stack: s.stack, mem: s.mem },
    ));
}

} // verus!
