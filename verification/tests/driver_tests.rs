use rand::rngs::StdRng;
use rand::SeedableRng;
use stackjit::driver::{hex, mem_snapshot, random_program};
use stackjit::jit::{compile_bytes, make_jit};
use stackjit::vm::VM;

#[test]
fn hex_renders_two_digits_per_byte() {
    assert_eq!(hex(&[]), "");
    assert_eq!(hex(&[0x03, 0x2A, 0xFF]), "032aff");
    assert_eq!(hex(&[0x00, 0x10, 0x9C]), "00109c");
}

#[test]
fn mem_snapshot_lists_nonzero_slots_in_order() {
    assert_eq!(mem_snapshot(&[]), vec![]);
    assert_eq!(mem_snapshot(&[0, 42, 0, 7]), vec![(1usize, 42u64), (3usize, 7u64)]);
    assert_eq!(mem_snapshot(&[0, 0, 0]), vec![]);
}

#[test]
fn generated_programs_interpret_and_compile() {
    let mut rng = StdRng::seed_from_u64(0xC0DE);
    for len in [0usize, 1, 20, 100, 500] {
        let code = random_program(&mut rng, len);
        assert!(!code.is_empty());
        assert!(code.len() <= 2 * len + 1);
        assert_eq!(*code.last().unwrap(), 0xFF);
        let mut vm = VM::default();
        assert!(vm.interpret(&code).is_ok());
        assert!(compile_bytes(&code).is_ok());
    }
}

#[test]
fn generated_programs_have_the_stated_shape() {
    let mut rng = StdRng::seed_from_u64(99);
    for len in [0usize, 1, 5, 100] {
        let code = random_program(&mut rng, len);
        // exactly `len` instructions, none of them STOP, then one final STOP
        let mut pc = 0usize;
        let mut count = 0usize;
        while pc + 1 < code.len() {
            match code[pc] {
                0x03 => {
                    assert!(code[pc + 1] >= 1);
                    pc += 2;
                }
                0x01 | 0x02 => {
                    assert!(code[pc + 1] < 32);
                    pc += 2;
                }
                0x04..=0x10 => {
                    pc += 1;
                }
                other => panic!("byte {other:#04x} outside the generator's table"),
            }
            count += 1;
        }
        assert_eq!(pc, code.len() - 1);
        assert_eq!(code[pc], 0xFF);
        assert_eq!(count, len);
        assert!(len + 1 <= code.len() && code.len() <= 2 * len + 1);
    }
}

#[test]
fn generated_program_finalizes_into_a_buffer() {
    let mut rng = StdRng::seed_from_u64(7);
    let code = random_program(&mut rng, 50);
    let bytes = compile_bytes(&code).unwrap();
    let buf = make_jit(&code).unwrap();
    assert_eq!(&buf[..], &bytes[..]);
}
