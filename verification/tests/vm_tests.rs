use stackjit::semantics::VmError;
use stackjit::vm::VM;

#[test]
fn store_load_round_trip() {
    // PUSH 42; SSTORE 0x10; SLOAD 0x10; STOP
    let code = vec![0x03, 0x2A, 0x02, 0x10, 0x01, 0x10, 0xFF];
    let mut vm = VM::default();
    assert!(vm.interpret(&code).is_ok());
    assert_eq!(vm.stack(), &[42u64]);
    assert_eq!(vm.memory().get(&0x10), Some(&42u64));
    assert_eq!(vm.memory().len(), 1);
}

#[test]
fn wrapping_subtract() {
    // PUSH 0; PUSH 1; SUB; SSTORE 0; STOP
    let code = vec![0x03, 0x00, 0x03, 0x01, 0x05, 0x02, 0x00, 0xFF];
    let mut vm = VM::default();
    assert!(vm.interpret(&code).is_ok());
    assert_eq!(vm.memory().get(&0), Some(&0xFFFF_FFFF_FFFF_FFFFu64));
}

#[test]
fn div_by_zero_yields_zero() {
    // PUSH 7; PUSH 0; DIV; SSTORE 5; STOP
    let code = vec![0x03, 0x07, 0x03, 0x00, 0x07, 0x02, 0x05, 0xFF];
    let mut vm = VM::default();
    assert!(vm.interpret(&code).is_ok());
    assert_eq!(vm.memory().get(&5), Some(&0u64));
}

#[test]
fn mod_by_zero_yields_zero() {
    // PUSH 9; PUSH 0; MOD; SSTORE 1; STOP
    let code = vec![0x03, 0x09, 0x03, 0x00, 0x08, 0x02, 0x01, 0xFF];
    let mut vm = VM::default();
    assert!(vm.interpret(&code).is_ok());
    assert_eq!(vm.memory().get(&1), Some(&0u64));
}

#[test]
fn unsigned_comparison() {
    // PUSH 5; PUSH 9; LT; SSTORE 2; STOP
    let code = vec![0x03, 0x05, 0x03, 0x09, 0x0A, 0x02, 0x02, 0xFF];
    let mut vm = VM::default();
    assert!(vm.interpret(&code).is_ok());
    assert_eq!(vm.memory().get(&2), Some(&1u64));
}

#[test]
fn dup_then_add() {
    // PUSH 3; DUP; ADD; SSTORE 0; STOP
    let code = vec![0x03, 0x03, 0x0F, 0x04, 0x02, 0x00, 0xFF];
    let mut vm = VM::default();
    assert!(vm.interpret(&code).is_ok());
    assert_eq!(vm.memory().get(&0), Some(&6u64));
}

#[test]
fn double_swap_preserves_values() {
    // PUSH 1; PUSH 2; SWAP; SWAP; SSTORE 0; STOP
    let code = vec![0x03, 0x01, 0x03, 0x02, 0x10, 0x10, 0x02, 0x00, 0xFF];
    let mut vm = VM::default();
    assert!(vm.interpret(&code).is_ok());
    assert_eq!(vm.memory().get(&0), Some(&2u64));
    assert_eq!(vm.stack(), &[1u64]);
}

#[test]
fn arithmetic_and_bitwise() {
    // PUSH 12; PUSH 10; MUL; PUSH 7; AND; PUSH 9; OR; PUSH 255; XOR;
    // PUSH 2; GT; SSTORE 3; STOP
    // 12*10 = 120; 120 & 7 = 0; 0 | 9 = 9; 9 ^ 255 = 246; 246 > 2 => 1
    let code = vec![
        0x03, 12, 0x03, 10, 0x06, 0x03, 7, 0x0C, 0x03, 9, 0x0D, 0x03, 255, 0x0E, 0x03, 2, 0x0B,
        0x02, 0x03, 0xFF,
    ];
    let mut vm = VM::default();
    assert!(vm.interpret(&code).is_ok());
    assert_eq!(vm.memory().get(&3), Some(&1u64));
}

#[test]
fn equality_check() {
    // PUSH 4; PUSH 4; EQ; SSTORE 0; STOP
    let code = vec![0x03, 4, 0x03, 4, 0x09, 0x02, 0x00, 0xFF];
    let mut vm = VM::default();
    assert!(vm.interpret(&code).is_ok());
    assert_eq!(vm.memory().get(&0), Some(&1u64));
}

#[test]
fn wrapping_add_at_the_boundary() {
    // PUSH 0; PUSH 1; SUB; DUP; ADD; SSTORE 0; STOP
    // (2^64 - 1) + (2^64 - 1) wraps to 2^64 - 2
    let code = vec![0x03, 0x00, 0x03, 0x01, 0x05, 0x0F, 0x04, 0x02, 0x00, 0xFF];
    let mut vm = VM::default();
    assert!(vm.interpret(&code).is_ok());
    assert_eq!(vm.memory().get(&0), Some(&0xFFFF_FFFF_FFFF_FFFEu64));
}

#[test]
fn wrapping_mul_at_the_boundary() {
    // PUSH 0; PUSH 1; SUB; DUP; MUL; SSTORE 0; STOP
    // (2^64 - 1) * (2^64 - 1) wraps to 1
    let code = vec![0x03, 0x00, 0x03, 0x01, 0x05, 0x0F, 0x06, 0x02, 0x00, 0xFF];
    let mut vm = VM::default();
    assert!(vm.interpret(&code).is_ok());
    assert_eq!(vm.memory().get(&0), Some(&1u64));
}

#[test]
fn dup_leaves_equal_top_two() {
    // PUSH 7; DUP; STOP
    let code = vec![0x03, 0x07, 0x0F, 0xFF];
    let mut vm = VM::default();
    assert!(vm.interpret(&code).is_ok());
    assert_eq!(vm.stack(), &[7u64, 7u64]);
}

#[test]
fn unknown_opcode_is_fatal() {
    let code = vec![0x99];
    let mut vm = VM::default();
    assert_eq!(vm.interpret(&code), Err(VmError::InvalidOpcode(0x99)));
}

#[test]
fn missing_immediate_is_fatal() {
    // PUSH at the very end, with no operand byte
    let code = vec![0x03];
    let mut vm = VM::default();
    assert_eq!(vm.interpret(&code), Err(VmError::MissingImmediate));
}

#[test]
fn sload_of_untouched_key_reads_zero() {
    // SLOAD 0x20; SSTORE 0x21; STOP
    let code = vec![0x01, 0x20, 0x02, 0x21, 0xFF];
    let mut vm = VM::default();
    assert!(vm.interpret(&code).is_ok());
    assert_eq!(vm.memory().get(&0x21), Some(&0u64));
    assert_eq!(vm.memory().get(&0x20), None);
}

#[test]
fn state_carries_over_between_runs() {
    let mut vm = VM::default();
    // PUSH 1; SSTORE 0; STOP
    assert!(vm.interpret(&[0x03, 0x01, 0x02, 0x00, 0xFF]).is_ok());
    // SLOAD 0; SSTORE 1; STOP
    assert!(vm.interpret(&[0x01, 0x00, 0x02, 0x01, 0xFF]).is_ok());
    assert_eq!(vm.memory().get(&1), Some(&1u64));
}

#[test]
fn empty_program_leaves_machine_empty() {
    let code = vec![0xFF];
    let mut vm = VM::default();
    assert!(vm.interpret(&code).is_ok());
    assert!(vm.stack().is_empty());
    assert!(vm.memory().is_empty());
}
