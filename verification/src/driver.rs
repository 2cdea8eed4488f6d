//! Helpers around the two execution paths: a depth-tracked random program
//! generator whose output is well-formed by construction, and the report
//! formatters for bytecode and memory snapshots.

use rand::RngExt;
use vstd::prelude::*;

use crate::instructions::{
    has_imm, is_binop, is_opcode, ADD, AND, DIV, DUP, EQ, GT, LT, MOD, MUL, OR, PUSH, SLOAD,
    SSTORE, STOP, SUB, SWAP, XOR,
};
use crate::jit::{emit_from, jit_code, lemma_emit_shift};
use crate::semantics::{lemma_wf_shift, well_formed, wf_from};

verus! {

/// rand's standard pseudorandom generator.
#[verifier::external_type_specification]
#[verifier::external_body]
pub struct ExStdRng(rand::rngs::StdRng);

/// Relies on rand's `Rng::random_range` over `0..n`: a draw below `n`; the
/// range is nonempty, so the call returns. Nothing else is assumed of the
/// draw.
#[verifier::external_body]
fn rand_below(rng: &mut rand::rngs::StdRng, n: usize) -> (r: usize)
    requires
        n >= 1,
    ensures
        r < n,
{
    rng.random_range(0..n)
}

/// The encoding of one instruction: the opcode, and its immediate if it
/// carries one.
pub open spec fn ins_of(op: u8, imm: u8) -> Seq<u8> {
    if has_imm(op) {
        seq![op, imm]
    } else {
        seq![op]
    }
}

/// The generator may append `op` at stack depth `d`, leaving depth `d2`:
/// the opcode never consumes more values than the stack holds.
pub open spec fn gen_step_ok(op: u8, d: int, d2: int) -> bool {
    if op == PUSH || op == SLOAD {
        d2 == d + 1
    } else if op == SSTORE {
        d >= 1 && d2 == d - 1
    } else if is_binop(op) {
        d >= 2 && d2 == d - 1
    } else if op == DUP {
        d >= 1 && d2 == d + 1
    } else if op == SWAP {
        d >= 2 && d2 == d
    } else {
        false
    }
}

/// The bytes from `pc` on are instructions of the generator's table — never
/// STOP, a PUSH immediate at least 1, an SLOAD/SSTORE key below 32 —
/// closed by one single STOP byte that ends the sequence.
pub open spec fn gen_tail_ok(code: Seq<u8>, pc: int) -> bool
    decreases code.len() - pc,
{
    if pc < 0 || pc >= code.len() {
        false
    } else {
        let op = code[pc];
        if op == STOP {
            pc == code.len() - 1
        } else if !is_opcode(op) {
            false
        } else if has_imm(op) {
            &&& pc + 1 < code.len()
            &&& (op == PUSH ==> code[pc + 1] >= 1)
            &&& (op != PUSH ==> code[pc + 1] < 32)
            &&& gen_tail_ok(code, pc + 2)
        } else {
            gen_tail_ok(code, pc + 1)
        }
    }
}

/// How many instructions stand from `pc` on, before the closing STOP (or
/// before the scan stops for any other reason).
pub open spec fn gen_count(code: Seq<u8>, pc: int) -> int
    decreases code.len() - pc,
{
    if pc < 0 || pc >= code.len() {
        0
    } else {
        let op = code[pc];
        if op == STOP || !is_opcode(op) {
            0
        } else if has_imm(op) {
            if pc + 1 >= code.len() {
                1
            } else {
                1 + gen_count(code, pc + 2)
            }
        } else {
            1 + gen_count(code, pc + 1)
        }
    }
}

/// Both shape readings are properties of the bytes from the position on:
/// they read the same after any prefix.
proof fn lemma_gen_shape_shift(a: Seq<u8>, b: Seq<u8>, k: int)
    requires
        0 <= k,
    ensures
        gen_tail_ok(a + b, a.len() + k) == gen_tail_ok(b, k),
        gen_count(a + b, a.len() + k) == gen_count(b, k),
    decreases b.len() - k,
{
    if k < b.len() {
        assert((a + b)[a.len() + k] == b[k]);
        lemma_gen_shape_shift(a, b, k + 1);
        if k + 1 < b.len() {
            assert((a + b)[a.len() + k + 1] == b[k + 1]);
            lemma_gen_shape_shift(a, b, k + 2);
        }
    }
}

/// Appending one instruction of the generator's table, after `c` such
/// instructions, leaves the closing STOP the decider of the shape and
/// raises the instruction count of any continuation by `c + 1`.
proof fn lemma_gen_extend_shape(pre: Seq<u8>, op: u8, imm: u8, c: int)
    requires
        is_opcode(op),
        op != STOP,
        op == PUSH ==> imm >= 1,
        has_imm(op) && op != PUSH ==> imm < 32,
        forall|rest: Seq<u8>| #[trigger] gen_tail_ok(pre + rest, 0) == gen_tail_ok(rest, 0),
        forall|rest: Seq<u8>| #[trigger] gen_count(pre + rest, 0) == gen_count(rest, 0) + c,
    ensures
        forall|rest: Seq<u8>| #[trigger] gen_tail_ok((pre + ins_of(op, imm)) + rest, 0)
            == gen_tail_ok(rest, 0),
        forall|rest: Seq<u8>| #[trigger] gen_count((pre + ins_of(op, imm)) + rest, 0)
            == gen_count(rest, 0) + c + 1,
{
    let ins = ins_of(op, imm);
    assert forall|rest: Seq<u8>|
        #[trigger] gen_tail_ok((pre + ins) + rest, 0) == gen_tail_ok(rest, 0) by {
        lemma_gen_shape_shift(ins, rest, 0);
        assert((ins + rest)[0] == op);
        if has_imm(op) {
            assert((ins + rest)[1] == imm);
        }
        assert(gen_tail_ok(ins + rest, ins.len() as int) == gen_tail_ok(rest, 0));
        assert(gen_tail_ok(ins + rest, 0) == gen_tail_ok(rest, 0));
        assert((pre + ins) + rest =~= pre + (ins + rest));
        assert(gen_tail_ok(pre + (ins + rest), 0) == gen_tail_ok(ins + rest, 0));
    }
    assert forall|rest: Seq<u8>|
        #[trigger] gen_count((pre + ins) + rest, 0) == gen_count(rest, 0) + c + 1 by {
        lemma_gen_shape_shift(ins, rest, 0);
        assert((ins + rest)[0] == op);
        if has_imm(op) {
            assert((ins + rest)[1] == imm);
        }
        assert(gen_count(ins + rest, ins.len() as int) == gen_count(rest, 0));
        assert(gen_count(ins + rest, 0) == 1 + gen_count(rest, 0));
        assert((pre + ins) + rest =~= pre + (ins + rest));
        assert(gen_count(pre + (ins + rest), 0) == gen_count(ins + rest, 0) + c);
    }
}

/// Appending one legal instruction keeps the other two generator
/// invariants: any continuation that is well formed at the new depth
/// completes the program, and any continuation that emits cleanly keeps
/// the whole emitting cleanly.
proof fn lemma_gen_extend(pre: Seq<u8>, op: u8, imm: u8, d: int, d2: int)
    requires
        gen_step_ok(op, d, d2),
        forall|rest: Seq<u8>| wf_from(rest, 0, d) ==> #[trigger] wf_from(pre + rest, 0, 0),
        forall|rest: Seq<u8>|
            emit_from(rest, 0) is Ok ==> #[trigger] emit_from(pre + rest, 0) is Ok,
    ensures
        forall|rest: Seq<u8>|
            wf_from(rest, 0, d2) ==> #[trigger] wf_from((pre + ins_of(op, imm)) + rest, 0, 0),
        forall|rest: Seq<u8>|
            emit_from(rest, 0) is Ok ==> #[trigger] emit_from(
                (pre + ins_of(op, imm)) + rest,
                0,
            ) is Ok,
{
    let ins = ins_of(op, imm);
    assert(is_opcode(op));
    assert forall|rest: Seq<u8>| wf_from(rest, 0, d2) implies #[trigger] wf_from(
        (pre + ins) + rest,
        0,
        0,
    ) by {
        lemma_wf_shift(ins, rest, 0, d2);
        assert((ins + rest)[0] == op);
        if has_imm(op) {
            assert((ins + rest)[1] == imm);
        }
        assert(wf_from(ins + rest, ins.len() as int, d2) == wf_from(rest, 0, d2));
        assert(wf_from(ins + rest, 0, d));
        assert(wf_from(pre + (ins + rest), 0, 0));
        assert((pre + ins) + rest =~= pre + (ins + rest));
    }
    assert forall|rest: Seq<u8>| emit_from(rest, 0) is Ok implies #[trigger] emit_from(
        (pre + ins) + rest,
        0,
    ) is Ok by {
        lemma_emit_shift(ins, rest, 0);
        assert((ins + rest)[0] == op);
        if has_imm(op) {
            assert((ins + rest)[1] == imm);
        }
        assert(emit_from(ins + rest, ins.len() as int) == emit_from(rest, 0));
        assert(emit_from(ins + rest, 0) is Ok);
        assert(emit_from(pre + (ins + rest), 0) is Ok);
        assert((pre + ins) + rest =~= pre + (ins + rest));
    }
}

/// Generate a random program of exactly `len` instructions plus one final
/// STOP: no earlier instruction is a STOP, every PUSH immediate is in
/// 1..=255, every SLOAD/SSTORE key is below 32. A shadow depth counter
/// keeps every draw legal at the current stack depth, so the result
/// respects the stack discipline by construction, and every byte of it
/// decodes, so it compiles.
pub fn random_program(rng: &mut rand::rngs::StdRng, len: usize) -> (code: Vec<u8>)
    ensures
        well_formed(code@),
        jit_code(code@) is Ok,
        gen_tail_ok(code@, 0),
        gen_count(code@, 0) == len,
        len + 1 <= code@.len() <= 2 * len + 1,
        code@.last() == STOP,
{
    let mut code: Vec<u8> = Vec::new();
    let mut depth: usize = 0;
    let max_depth: usize = 8;
    let mut i: usize = 0;
    proof {
        assert forall|rest: Seq<u8>| wf_from(rest, 0, 0) implies #[trigger] wf_from(
            code@ + rest,
            0,
            0,
        ) by {
            assert(code@ + rest =~= rest);
        }
        assert forall|rest: Seq<u8>| emit_from(rest, 0) is Ok implies #[trigger] emit_from(
            code@ + rest,
            0,
        ) is Ok by {
            assert(code@ + rest =~= rest);
        }
        assert forall|rest: Seq<u8>|
            #[trigger] gen_tail_ok(code@ + rest, 0) == gen_tail_ok(rest, 0) by {
            assert(code@ + rest =~= rest);
        }
        assert forall|rest: Seq<u8>|
            #[trigger] gen_count(code@ + rest, 0) == gen_count(rest, 0) + i by {
            assert(code@ + rest =~= rest);
        }
    }
    while i < len
        invariant
            i <= len,
            depth <= max_depth,
            max_depth == 8,
            i <= code@.len() <= 2 * i,
            forall|rest: Seq<u8>| wf_from(rest, 0, depth as int) ==> #[trigger] wf_from(
                code@ + rest,
                0,
                0,
            ),
            forall|rest: Seq<u8>|
                emit_from(rest, 0) is Ok ==> #[trigger] emit_from(code@ + rest, 0) is Ok,
            forall|rest: Seq<u8>| #[trigger] gen_tail_ok(code@ + rest, 0) == gen_tail_ok(rest, 0),
            forall|rest: Seq<u8>| #[trigger] gen_count(code@ + rest, 0) == gen_count(rest, 0) + i,
        decreases len - i,
    {
        let ghost pre = code@;
        let ghost d = depth as int;
        let op: u8;
        if depth < 2 {
            let choice = rand_below(rng, if depth == 0 { 2 } else { 3 });
            op = if choice == 0 {
                PUSH
            } else if choice == 1 {
                SLOAD
            } else {
                DUP
            };
        } else if depth >= max_depth {
            let choice = rand_below(rng, 13);
            op = if choice == 0 {
                SSTORE
            } else if choice == 1 {
                ADD
            } else if choice == 2 {
                SUB
            } else if choice == 3 {
                MUL
            } else if choice == 4 {
                DIV
            } else if choice == 5 {
                MOD
            } else if choice == 6 {
                EQ
            } else if choice == 7 {
                LT
            } else if choice == 8 {
                GT
            } else if choice == 9 {
                AND
            } else if choice == 10 {
                OR
            } else if choice == 11 {
                XOR
            } else {
                SWAP
            };
        } else {
            let choice = rand_below(rng, 16);
            op = if choice == 0 {
                PUSH
            } else if choice == 1 {
                SLOAD
            } else if choice == 2 {
                SSTORE
            } else if choice == 3 {
                ADD
            } else if choice == 4 {
                SUB
            } else if choice == 5 {
                MUL
            } else if choice == 6 {
                DIV
            } else if choice == 7 {
                MOD
            } else if choice == 8 {
                EQ
            } else if choice == 9 {
                LT
            } else if choice == 10 {
                GT
            } else if choice == 11 {
                AND
            } else if choice == 12 {
                OR
            } else if choice == 13 {
                XOR
            } else if choice == 14 {
                DUP
            } else {
                SWAP
            };
        }
        let mut imm: u8 = 0;
        if op == PUSH {
            imm = rand_below(rng, 255) as u8 + 1;
            code.push(PUSH);
            code.push(imm);
            depth = depth + 1;
        } else if op == SLOAD {
            imm = rand_below(rng, 32) as u8;
            code.push(SLOAD);
            code.push(imm);
            depth = depth + 1;
        } else if op == SSTORE {
            imm = rand_below(rng, 32) as u8;
            code.push(SSTORE);
            code.push(imm);
            depth = depth - 1;
        } else if op == DUP {
            code.push(DUP);
            depth = depth + 1;
        } else if op == SWAP {
            code.push(SWAP);
        } else {
            code.push(op);
            depth = depth - 1;
        }
        proof {
            assert(gen_step_ok(op, d, depth as int));
            assert(code@ =~= pre + ins_of(op, imm));
            lemma_gen_extend(pre, op, imm, d, depth as int);
            lemma_gen_extend_shape(pre, op, imm, i as int);
        }
        i = i + 1;
    }
    let ghost pre = code@;
    code.push(STOP);
    proof {
        assert(code@ =~= pre + seq![STOP]);
        assert(seq![STOP][0] == STOP);
        assert(wf_from(seq![STOP], 0, depth as int));
        assert(wf_from(pre + seq![STOP], 0, 0));
        assert(emit_from(seq![STOP], 1) is Ok);
        assert(emit_from(seq![STOP], 0) is Ok);
        assert(emit_from(pre + seq![STOP], 0) is Ok);
        assert(gen_tail_ok(seq![STOP], 0));
        assert(gen_count(seq![STOP], 0) == 0);
        assert(gen_tail_ok(pre + seq![STOP], 0));
        assert(gen_count(pre + seq![STOP], 0) == len);
    }
    code
}

/// The ASCII code of the lower-case hex digit of a nibble.
pub open spec fn hex_digit(n: u8) -> u8 {
    if n < 10 {
        (0x30 + n) as u8
    } else {
        (0x57 + n) as u8
    }
}

/// The ASCII bytes of the hex rendering of a byte string: two lower-case
/// digits per byte, in order, with no separator.
pub open spec fn hex_bytes(s: Seq<u8>) -> Seq<u8>
    decreases s.len(),
{
    if s.len() == 0 {
        Seq::empty()
    } else {
        hex_bytes(s.drop_last()) + seq![hex_digit(s.last() / 16), hex_digit(s.last() % 16)]
    }
}

/// The hex rendering as text: the same digits, read as characters.
pub open spec fn hex_string_of(s: Seq<u8>) -> Seq<char> {
    hex_bytes(s).map(|i: int, b: u8| b as char)
}

proof fn lemma_hex_digit_ascii(n: u8)
    requires
        n < 16,
    ensures
        hex_digit(n) < 0x80,
{
}

/// Relies on std's `String::from_utf8`: on ASCII bytes it yields the string
/// of exactly those characters. The input here is always ASCII.
#[verifier::external_body]
fn ascii_string(bytes: Vec<u8>) -> (r: String)
    requires
        forall|i: int| 0 <= i < bytes@.len() ==> bytes@[i] < 0x80,
    ensures
        r@ == bytes@.map(|i: int, b: u8| b as char),
{
    match String::from_utf8(bytes) {
        Ok(s) => s,
        Err(_) => String::new(),
    }
}

/// Render the bytecode as a hex string, two lower-case digits per byte.
pub fn hex(code: &[u8]) -> (r: String)
    ensures
        r@ == hex_string_of(code@),
{
    let mut out: Vec<u8> = Vec::new();
    let mut i: usize = 0;
    while i < code.len()
        invariant
            i <= code.len(),
            out@ == hex_bytes(code@.take(i as int)),
            forall|j: int| 0 <= j < out@.len() ==> out@[j] < 0x80,
        decreases code.len() - i,
    {
        let b = code[i];
        let hi = b / 16;
        let lo = b % 16;
        let hid: u8 = if hi < 10 {
            0x30 + hi
        } else {
            0x57 + hi
        };
        let lod: u8 = if lo < 10 {
            0x30 + lo
        } else {
            0x57 + lo
        };
        proof {
            lemma_hex_digit_ascii(hi);
            lemma_hex_digit_ascii(lo);
        }
        let ghost prefix = code@.take(i as int);
        out.push(hid);
        out.push(lod);
        proof {
            let next = code@.take(i + 1);
            assert(next.drop_last() =~= prefix);
            assert(next.last() == code@[i as int]);
            assert(out@ =~= hex_bytes(prefix) + seq![hex_digit(hi), hex_digit(lo)]);
        }
        i = i + 1;
    }
    proof {
        assert(code@.take(code@.len() as int) =~= code@);
    }
    ascii_string(out)
}

/// The non-zero slots of a dense memory array, as pairs of index and value,
/// in index order.
pub open spec fn snapshot_of(s: Seq<u64>) -> Seq<(usize, u64)>
    decreases s.len(),
{
    if s.len() == 0 {
        Seq::empty()
    } else if s.last() != 0 {
        snapshot_of(s.drop_last()).push((((s.len() - 1) as usize), s.last()))
    } else {
        snapshot_of(s.drop_last())
    }
}

/// List the non-zero slots of the dense memory array the JIT ran against.
pub fn mem_snapshot(mem: &[u64]) -> (r: Vec<(usize, u64)>)
    ensures
        r@ == snapshot_of(mem@),
{
    let mut out: Vec<(usize, u64)> = Vec::new();
    let mut i: usize = 0;
    while i < mem.len()
        invariant
            i <= mem.len(),
            out@ == snapshot_of(mem@.take(i as int)),
        decreases mem.len() - i,
    {
        let ghost prefix = mem@.take(i as int);
        let v = mem[i];
        if v != 0 {
            out.push((i, v));
        }
        proof {
            let next = mem@.take(i + 1);
            assert(next.drop_last() =~= prefix);
            assert(next.last() == mem@[i as int]);
        }
        i = i + 1;
    }
    proof {
        assert(mem@.take(mem@.len() as int) =~= mem@);
    }
    out
}

} // verus!
