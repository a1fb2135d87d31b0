use minievm::memory::Memory;
use minievm::opcode::Opcode;
use minievm::vm::{decode, StepResult, Vm, VmError};
use minievm::word::Word;

fn create_vm(binary: Vec<u8>) -> Vm {
    Vm::new(binary)
}

fn run_to_halt(vm: &mut Vm) {
    for _ in 0..1000 {
        match vm.interpret() {
            Ok(StepResult::Halted) => return,
            Ok(_) => {}
            Err(e) => panic!("unexpected failure: {:?}", e),
        }
    }
    panic!("program did not halt");
}

#[test]
fn addition() {
    let binary = vec![0x60, 0x0f, 0x60, 0x01, 0x01, 0x00];
    let mut vm = create_vm(binary);
    vm.interpret().unwrap();
    vm.interpret().unwrap();
    vm.interpret().unwrap();
    vm.interpret().unwrap();
    assert_eq!(1, vm.stack.len());
    assert_eq!(16, vm.stack[0].truncate_to_offset() as u32);
}

#[test]
fn subtraction_wraps() {
    let binary = vec![0x60, 0x05, 0x60, 0x03, 0x03, 0x00];
    let mut vm = create_vm(binary);
    run_to_halt(&mut vm);
    assert_eq!(1, vm.stack.len());
    // 3 - 5 modulo 2^256: all bytes 0xff but the lowest, which is 0xfe.
    let expected = Word {
        limb0: u64::MAX - 1,
        limb1: u64::MAX,
        limb2: u64::MAX,
        limb3: u64::MAX,
    };
    assert_eq!(expected, vm.stack[0]);
}

#[test]
fn multiplication() {
    let binary = vec![0x60, 0x06, 0x60, 0x07, 0x02, 0x00];
    let mut vm = create_vm(binary);
    run_to_halt(&mut vm);
    assert_eq!(1, vm.stack.len());
    assert_eq!(Word::from_u64(42), vm.stack[0]);
}

#[test]
fn fold_of_three_pushes() {
    // Stack [2, 3, 4]; ADD pops 4 and 3 giving 7; MUL pops 7 and 2
    // giving 14.
    let binary = vec![0x60, 0x02, 0x60, 0x03, 0x60, 0x04, 0x01, 0x02, 0x00];
    let mut vm = create_vm(binary);
    run_to_halt(&mut vm);
    assert_eq!(vec![Word::from_u64(14)], vm.stack);
}

#[test]
fn push2_advances_by_three() {
    let binary = vec![0x61, 0x12, 0x34, 0x00];
    let mut vm = create_vm(binary);
    match vm.interpret().unwrap() {
        StepResult::Ran(Opcode::PUSH2(0, w)) => assert_eq!(Word::from_u64(0x1234), w),
        other => panic!("unexpected step: {:?}", other),
    }
    assert_eq!(3, vm.pc);
    assert_eq!(1, vm.stack.len());
    assert_eq!(Word::from_u64(0x1234), vm.stack[0]);
}

#[test]
fn push1_max_immediate() {
    let binary = vec![0x60, 0xff, 0x00];
    let mut vm = create_vm(binary);
    run_to_halt(&mut vm);
    assert_eq!(vec![Word::from_u64(0xff)], vm.stack);
}

#[test]
fn mstore_mload_round_trip() {
    // PUSH32 value, PUSH1 0, MSTORE, PUSH1 0, MLOAD, STOP.
    let mut value_bytes = vec![0u8; 32];
    value_bytes[0] = 0xde;
    value_bytes[31] = 0xad;
    let mut binary = vec![0x73];
    binary.extend(value_bytes);
    binary.extend(vec![0x60, 0x00, 0x52, 0x60, 0x00, 0x51, 0x00]);
    let mut vm = create_vm(binary);
    run_to_halt(&mut vm);
    let expected = Word { limb0: 0xad, limb1: 0, limb2: 0, limb3: 0xde00_0000_0000_0000 };
    assert_eq!(1, vm.stack.len());
    assert_eq!(expected, vm.stack[0]);
    // The bytes sit in memory big-endian: most significant byte first.
    assert_eq!(32, vm.mem.data.len());
    assert_eq!(0xde, vm.mem.data[0]);
    assert_eq!(0xad, vm.mem.data[31]);
    assert_eq!(0x00, vm.mem.data[1]);
}

#[test]
fn mstore8_changes_one_byte() {
    // Store a full word at offset 0, then a single byte at offset 1.
    let mut value_bytes = vec![0x11u8; 32];
    value_bytes[1] = 0x22;
    let mut binary = vec![0x73];
    binary.extend(value_bytes);
    binary.extend(vec![0x60, 0x00, 0x52]);
    // PUSH1 value 0xab, PUSH1 offset 1, MSTORE8, STOP.
    binary.extend(vec![0x60, 0xab, 0x60, 0x01, 0x53, 0x00]);
    let mut vm = create_vm(binary);
    run_to_halt(&mut vm);
    assert_eq!(0x11, vm.mem.data[0]);
    assert_eq!(0xab, vm.mem.data[1]);
    assert_eq!(0x11, vm.mem.data[2]);
}

#[test]
fn unknown_opcode_advances_and_halts() {
    let binary = vec![0xff, 0x00];
    let mut vm = create_vm(binary);
    match vm.interpret().unwrap() {
        StepResult::Ran(Opcode::UNKNOWN(0)) => {}
        other => panic!("unexpected step: {:?}", other),
    }
    assert_eq!(1, vm.pc);
    assert_eq!(0, vm.stack.len());
    match vm.interpret().unwrap() {
        StepResult::Halted => {}
        other => panic!("unexpected step: {:?}", other),
    }
    assert_eq!(2, vm.pc);
    assert_eq!(0, vm.stack.len());
    assert_eq!(0, vm.mem.data.len());
}

#[test]
fn halts_at_end_without_stop() {
    let binary = vec![0x60, 0x2a];
    let mut vm = create_vm(binary);
    run_to_halt(&mut vm);
    assert_eq!(vec![Word::from_u64(0x2a)], vm.stack);
    assert_eq!(2, vm.pc);
}

#[test]
fn slt_is_signed() {
    // lhs (first popped) = -1, rhs = 1: signed comparison gives 1,
    // unsigned would give 0.
    let mut binary = vec![0x60, 0x01, 0x73];
    binary.extend(vec![0xffu8; 32]);
    binary.extend(vec![0x12, 0x00]);
    let mut vm = create_vm(binary);
    run_to_halt(&mut vm);
    assert_eq!(vec![Word::from_u64(1)], vm.stack);
}

#[test]
fn slt_false_case() {
    // lhs (first popped) = 1, rhs = -1: 1 < -1 is false.
    let mut binary = vec![0x73];
    binary.extend(vec![0xffu8; 32]);
    binary.extend(vec![0x60, 0x01, 0x12, 0x00]);
    let mut vm = create_vm(binary);
    run_to_halt(&mut vm);
    assert_eq!(vec![Word::from_u64(0)], vm.stack);
}

#[test]
fn jump_skips_bytes() {
    let binary = vec![0x60, 0x04, 0x56, 0xff, 0x00];
    let mut vm = create_vm(binary);
    run_to_halt(&mut vm);
    assert_eq!(0, vm.stack.len());
}

#[test]
fn jumpi_taken() {
    let binary = vec![0x60, 0x01, 0x60, 0x06, 0x57, 0xff, 0x00];
    let mut vm = create_vm(binary);
    vm.interpret().unwrap();
    vm.interpret().unwrap();
    vm.interpret().unwrap();
    assert_eq!(6, vm.pc);
    assert_eq!(0, vm.stack.len());
    run_to_halt(&mut vm);
}

#[test]
fn jumpi_not_taken() {
    let binary = vec![0x60, 0x00, 0x60, 0x06, 0x57, 0x00];
    let mut vm = create_vm(binary);
    vm.interpret().unwrap();
    vm.interpret().unwrap();
    vm.interpret().unwrap();
    assert_eq!(5, vm.pc);
    assert_eq!(0, vm.stack.len());
    run_to_halt(&mut vm);
}

#[test]
fn stack_underflow_reported() {
    let binary = vec![0x01, 0x00];
    let mut vm = create_vm(binary);
    assert_eq!(
        Err(VmError::StackUnderflow { addr: 0, opcode: Opcode::ADD(0) }),
        vm.interpret()
    );
}

#[test]
fn decode_truncated_reported() {
    let binary = vec![0x61, 0x01];
    let mut vm = create_vm(binary);
    assert_eq!(Err(VmError::DecodeTruncated { addr: 0 }), vm.interpret());
}

#[test]
fn invalid_jump_target_reported_on_next_fetch() {
    let binary = vec![0x60, 0x09, 0x56, 0x00];
    let mut vm = create_vm(binary);
    vm.interpret().unwrap();
    vm.interpret().unwrap();
    assert_eq!(9, vm.pc);
    assert_eq!(
        Err(VmError::InvalidJumpTarget { addr: 9, target: 9 }),
        vm.interpret()
    );
}

#[test]
fn mload_on_fresh_memory_reads_zero() {
    let binary = vec![0x60, 0x00, 0x51, 0x00];
    let mut vm = create_vm(binary);
    run_to_halt(&mut vm);
    assert_eq!(vec![Word::from_u64(0)], vm.stack);
    assert_eq!(32, vm.mem.data.len());
}

#[test]
fn print_pops_and_emits() {
    let mut vm = create_vm(vec![0x60, 0x07]);
    vm.interpret().unwrap();
    match vm.execute(Opcode::PRINT(0)).unwrap() {
        StepResult::Emitted(Opcode::PRINT(0), w) => assert_eq!(Word::from_u64(7), w),
        other => panic!("unexpected step: {:?}", other),
    }
    assert_eq!(0, vm.stack.len());
}

#[test]
fn extent_table() {
    let mut vm = create_vm(vec![0x60, 0x05]);
    vm.interpret().unwrap();
    assert_eq!(Some(5 + 32), vm.get_new_size(&Opcode::MLOAD(0)));
    assert_eq!(Some(5 + 32), vm.get_new_size(&Opcode::MSTORE(0)));
    assert_eq!(Some(5 + 1), vm.get_new_size(&Opcode::MSTORE8(0)));
    assert_eq!(None, vm.get_new_size(&Opcode::ADD(0)));
    assert!(vm.at_end());
}

#[test]
fn memory_grow_and_byte_access() {
    let mut m = Memory::new();
    m.resize(3);
    assert_eq!(vec![0, 0, 0], m.data);
    m.set_byte(1, 9);
    assert_eq!(vec![0, 9, 0], m.data);
    m.resize(2);
    assert_eq!(3, m.data.len());
}

#[test]
fn decode_hex_pairs() {
    assert_eq!(Ok(vec![0x60, 0x0f]), decode("600f"));
    assert_eq!(Ok(vec![0xff]), decode("FF"));
    assert_eq!(Ok(vec![0xab]), decode("aB"));
    assert_eq!(Ok(vec![]), decode(""));
}

#[test]
fn decode_rejects_odd_length() {
    assert_eq!(Err(VmError::InvalidInputEncoding), decode("600"));
}

#[test]
fn decode_rejects_non_hex() {
    assert_eq!(Err(VmError::InvalidInputEncoding), decode("6g"));
}
