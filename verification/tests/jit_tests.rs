use stackjit::jit::{compile_bytes, make_jit};
use stackjit::semantics::VmError;

const PROLOGUE: [u8; 9] = [0x53, 0x41, 0x54, 0x48, 0x89, 0xfb, 0x49, 0x89, 0xe4];
const EPILOGUE: [u8; 7] = [0x4c, 0x89, 0xe4, 0x41, 0x5c, 0x5b, 0xc3];

#[test]
fn empty_program_is_prologue_and_epilogue() {
    let bytes = compile_bytes(&[0xFF]).unwrap();
    let mut expected = PROLOGUE.to_vec();
    expected.extend_from_slice(&EPILOGUE);
    assert_eq!(bytes, expected);
}

#[test]
fn store_load_round_trip_templates() {
    // PUSH 42; SSTORE 0x10; SLOAD 0x10; STOP
    let code = [0x03, 0x2A, 0x02, 0x10, 0x01, 0x10, 0xFF];
    let bytes = compile_bytes(&code).unwrap();
    let mut expected = PROLOGUE.to_vec();
    // mov rax, 42; push rax
    expected.extend_from_slice(&[0x48, 0xc7, 0xc0, 0x2a, 0x00, 0x00, 0x00, 0x50]);
    // pop rax; mov [rbx + 0x80], rax
    expected.extend_from_slice(&[0x58, 0x48, 0x89, 0x83, 0x80, 0x00, 0x00, 0x00]);
    // mov rax, [rbx + 0x80]; push rax
    expected.extend_from_slice(&[0x48, 0x8b, 0x83, 0x80, 0x00, 0x00, 0x00, 0x50]);
    expected.extend_from_slice(&EPILOGUE);
    assert_eq!(bytes, expected);
}

#[test]
fn wide_displacement_uses_second_byte() {
    // SLOAD 0xFF addresses slot 0xFF at byte offset 0x7F8
    let code = [0x01, 0xFF, 0xFF];
    let bytes = compile_bytes(&code).unwrap();
    let mut expected = PROLOGUE.to_vec();
    expected.extend_from_slice(&[0x48, 0x8b, 0x83, 0xf8, 0x07, 0x00, 0x00, 0x50]);
    expected.extend_from_slice(&EPILOGUE);
    assert_eq!(bytes, expected);
}

#[test]
fn division_templates_guard_the_divisor() {
    // DIV; STOP
    let code = [0x07, 0xFF];
    let bytes = compile_bytes(&code).unwrap();
    let mut expected = PROLOGUE.to_vec();
    expected.extend_from_slice(&[
        0x59, 0x58, 0x48, 0x85, 0xc9, 0x0f, 0x85, 0x08, 0x00, 0x00, 0x00, 0x48, 0x31, 0xc0, 0xe9,
        0x06, 0x00, 0x00, 0x00, 0x48, 0x31, 0xd2, 0x48, 0xf7, 0xf1, 0x50,
    ]);
    expected.extend_from_slice(&EPILOGUE);
    assert_eq!(bytes, expected);
}

#[test]
fn unknown_opcode_fails_compilation() {
    assert_eq!(compile_bytes(&[0x99]), Err(VmError::InvalidOpcode(0x99)));
    assert!(matches!(make_jit(&[0x99]), Err(VmError::InvalidOpcode(0x99))));
}

#[test]
fn missing_immediate_fails_compilation() {
    // SSTORE at the very end, with no key byte
    assert_eq!(compile_bytes(&[0xFF, 0x02]), Err(VmError::MissingImmediate));
}

#[test]
fn junk_after_stop_still_fails_compilation() {
    // emission scans the whole byte sequence, past the STOP
    assert_eq!(compile_bytes(&[0xFF, 0x42]), Err(VmError::InvalidOpcode(0x42)));
}

#[test]
fn finalized_buffer_holds_the_emitted_code() {
    let code = [0x03, 0x2A, 0x02, 0x10, 0x01, 0x10, 0xFF];
    let bytes = compile_bytes(&code).unwrap();
    let buf = make_jit(&code).unwrap();
    assert_eq!(&buf[..], &bytes[..]);
}
