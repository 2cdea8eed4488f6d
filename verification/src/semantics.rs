//! Reference semantics of the bytecode: a recursive specification of a full
//! run, the well-formedness discipline that generated programs obey, and the
//! arithmetic laws of the individual operations.

use vstd::prelude::*;

use crate::instructions::{
    has_imm, is_binop, is_opcode, ADD, AND, DIV, DUP, EQ, GT, LT, MOD, MUL, OR, PUSH, SLOAD,
    SSTORE, STOP, SUB, SWAP, XOR,
};

verus! {

/// The fatal ways a run or a compilation can end: a byte outside the
/// instruction table, an instruction whose immediate operand lies past the
/// end of the program, or a failure to map the emitted code executable.
#[derive(Debug, Clone, Copy, PartialEq, Eq, Structural)]
pub enum VmError {
    InvalidOpcode(u8),
    MissingImmediate,
    Finalize,
}

/// The modulus of all machine arithmetic.
pub open spec fn wrap64(x: int) -> u64 {
    (x % 0x1_0000_0000_0000_0000) as u64
}

/// Reading an absent key yields zero.
pub open spec fn mem_get(mem: Map<u8, u64>, key: u8) -> u64 {
    if mem.contains_key(key) {
        mem[key]
    } else {
        0
    }
}

/// Result of a two-operand opcode on `a` (below) and `b` (top of stack).
pub open spec fn binop_eval(op: u8, a: u64, b: u64) -> u64 {
    if op == ADD {
        wrap64(a + b)
    } else if op == SUB {
        wrap64(a - b)
    } else if op == MUL {
        wrap64(a * b)
    } else if op == DIV {
        if b == 0 {
            0
        } else {
            (a as int / b as int) as u64
        }
    } else if op == MOD {
        if b == 0 {
            0
        } else {
            (a as int % b as int) as u64
        }
    } else if op == EQ {
        if a == b {
            1
        } else {
            0
        }
    } else if op == LT {
        if a < b {
            1
        } else {
            0
        }
    } else if op == GT {
        if a > b {
            1
        } else {
            0
        }
    } else if op == AND {
        a & b
    } else if op == OR {
        a | b
    } else {
        a ^ b
    }
}

/// Pop with the interpreter's tolerance: an empty stack yields zero.
pub open spec fn pop1(s: Seq<u64>) -> (u64, Seq<u64>) {
    if s.len() == 0 {
        (0u64, s)
    } else {
        (s.last(), s.drop_last())
    }
}

/// Top of stack with the interpreter's tolerance: empty reads zero.
pub open spec fn top_or_zero(s: Seq<u64>) -> u64 {
    if s.len() == 0 {
        0u64
    } else {
        s.last()
    }
}

/// The state a run ends in, together with the error if it ended fatally.
pub struct ExecResult {
    pub stack: Seq<u64>,
    pub mem: Map<u8, u64>,
    pub error: Option<VmError>,
}

/// A full run of the program from position `pc`, in the given stack and
/// memory: fetch, decode, execute, advance, until STOP, the end of the code,
/// or a fatal decoding error.
pub open spec fn run_from(code: Seq<u8>, pc: int, stack: Seq<u64>, mem: Map<u8, u64>) -> ExecResult
    decreases code.len() - pc,
{
    if pc < 0 || pc >= code.len() {
        ExecResult { stack, mem, error: None }
    } else {
        let op = code[pc];
        if op == STOP {
            ExecResult { stack, mem, error: None }
        } else if has_imm(op) {
            if pc + 1 >= code.len() {
                ExecResult { stack, mem, error: Some(VmError::MissingImmediate) }
            } else {
                let imm = code[pc + 1];
                if op == PUSH {
                    run_from(code, pc + 2, stack.push(imm as u64), mem)
                } else if op == SLOAD {
                    run_from(code, pc + 2, stack.push(mem_get(mem, imm)), mem)
                } else {
                    let (v, rest) = pop1(stack);
                    run_from(code, pc + 2, rest, mem.insert(imm, v))
                }
            }
        } else if is_binop(op) {
            let (b, s1) = pop1(stack);
            let (a, s2) = pop1(s1);
            run_from(code, pc + 1, s2.push(binop_eval(op, a, b)), mem)
        } else if op == DUP {
            run_from(code, pc + 1, stack.push(top_or_zero(stack)), mem)
        } else if op == SWAP {
            let (b, s1) = pop1(stack);
            let (a, s2) = pop1(s1);
            run_from(code, pc + 1, s2.push(b).push(a), mem)
        } else {
            ExecResult { stack, mem, error: Some(VmError::InvalidOpcode(op)) }
        }
    }
}

/// A whole-program run on an empty stack and an empty memory.
pub open spec fn run(code: Seq<u8>) -> ExecResult {
    run_from(code, 0, Seq::empty(), Map::empty())
}

/// Stack discipline from position `pc` with `depth` values on the evaluation
/// stack: every opcode is in the table, every immediate is present, no opcode
/// consumes more values than the stack holds, and execution reaches a STOP.
/// Programs from the bundled generator obey this by construction.
pub open spec fn wf_from(code: Seq<u8>, pc: int, depth: int) -> bool
    decreases code.len() - pc,
{
    if pc < 0 || pc >= code.len() {
        false
    } else {
        let op = code[pc];
        if op == STOP {
            true
        } else if op == PUSH || op == SLOAD {
            pc + 1 < code.len() && wf_from(code, pc + 2, depth + 1)
        } else if op == SSTORE {
            pc + 1 < code.len() && depth >= 1 && wf_from(code, pc + 2, depth - 1)
        } else if is_binop(op) {
            depth >= 2 && wf_from(code, pc + 1, depth - 1)
        } else if op == DUP {
            depth >= 1 && wf_from(code, pc + 1, depth + 1)
        } else if op == SWAP {
            depth >= 2 && wf_from(code, pc + 1, depth)
        } else {
            false
        }
    }
}

/// A whole program that respects the stack discipline starting empty.
pub open spec fn well_formed(code: Seq<u8>) -> bool {
    wf_from(code, 0, 0)
}

/// ADD, SUB and MUL compute their operation modulo 2^64.
pub proof fn lemma_wrapping_arith(a: u64, b: u64)
    ensures
        binop_eval(ADD, a, b) == ((a + b) % 0x1_0000_0000_0000_0000) as u64,
        binop_eval(SUB, a, b) == ((a - b) % 0x1_0000_0000_0000_0000) as u64,
        binop_eval(MUL, a, b) == ((a * b) % 0x1_0000_0000_0000_0000) as u64,
{
}

/// Dividing by zero yields zero, for quotient and remainder alike.
pub proof fn lemma_division_guard(a: u64)
    ensures
        binop_eval(DIV, a, 0) == 0u64,
        binop_eval(MOD, a, 0) == 0u64,
{
}

/// PUSH v; SSTORE k; SLOAD k leaves v on the stack and v at key k, whatever
/// stack and memory the sequence starts in.
pub proof fn lemma_store_load_round_trip(v: u8, k: u8, stack: Seq<u64>, mem: Map<u8, u64>)
    ensures
        ({
            let r = run_from(seq![PUSH, v, SSTORE, k, SLOAD, k, STOP], 0, stack, mem);
            &&& r.error is None
            &&& r.stack == stack.push(v as u64)
            &&& r.mem == mem.insert(k, v as u64)
        }),
{
    reveal_with_fuel(run_from, 5);
    let code = seq![PUSH, v, SSTORE, k, SLOAD, k, STOP];
    assert(stack.push(v as u64).drop_last() =~= stack);
    let m1 = mem.insert(k, v as u64);
    assert(mem_get(m1, k) == v as u64);
    let r = run_from(code, 0, stack, mem);
    assert(r.stack =~= stack.push(v as u64));
}

/// DUP lengthens the stack by one and makes its top two values equal.
pub proof fn lemma_dup(stack: Seq<u64>, mem: Map<u8, u64>)
    requires
        stack.len() >= 1,
    ensures
        ({
            let d = run_from(seq![DUP, STOP], 0, stack, mem);
            &&& d.error is None
            &&& d.stack.len() == stack.len() + 1
            &&& d.stack.last() == d.stack[d.stack.len() - 2]
            &&& d.mem == mem
        }),
{
    reveal_with_fuel(run_from, 3);
    let d = run_from(seq![DUP, STOP], 0, stack, mem);
    assert(d.stack == stack.push(stack.last()));
}

/// Two consecutive SWAPs change nothing at all.
pub proof fn lemma_swap_twice(stack: Seq<u64>, mem: Map<u8, u64>)
    requires
        stack.len() >= 2,
    ensures
        ({
            let s = run_from(seq![SWAP, SWAP, STOP], 0, stack, mem);
            &&& s.error is None
            &&& s.stack == stack
            &&& s.mem == mem
        }),
{
    reveal_with_fuel(run_from, 4);
    let (b, s1) = pop1(stack);
    let (a, s2) = pop1(s1);
    let once = s2.push(b).push(a);
    assert(once.last() == a);
    assert(once.drop_last() =~= s2.push(b));
    assert(s2.push(b).last() == b);
    assert(s2.push(b).drop_last() =~= s2);
    let s = run_from(seq![SWAP, SWAP, STOP], 0, stack, mem);
    assert(s.stack == s2.push(a).push(b));
    assert(s2.push(a).push(b) =~= stack);
}

/// The stack discipline is a property of the bytes from the position on:
/// it reads the same after any prefix.
pub proof fn lemma_wf_shift(a: Seq<u8>, b: Seq<u8>, k: int, d: int)
    requires
        0 <= k,
    ensures
        wf_from(a + b, a.len() + k, d) == wf_from(b, k, d),
    decreases b.len() - k,
{
    if k < b.len() {
        assert((a + b)[a.len() + k] == b[k]);
        lemma_wf_shift(a, b, k + 1, d - 1);
        lemma_wf_shift(a, b, k + 1, d);
        lemma_wf_shift(a, b, k + 1, d + 1);
        if k + 1 < b.len() {
            assert((a + b)[a.len() + k + 1] == b[k + 1]);
            lemma_wf_shift(a, b, k + 2, d - 1);
            lemma_wf_shift(a, b, k + 2, d + 1);
        }
    }
}

/// A byte outside the instruction table aborts the run at once.
pub proof fn lemma_unknown_opcode_interpret(b: u8, stack: Seq<u64>, mem: Map<u8, u64>)
    requires
        !is_opcode(b),
    ensures
        run_from(seq![b], 0, stack, mem).error == Some(VmError::InvalidOpcode(b)),
{
}

} // verus!
