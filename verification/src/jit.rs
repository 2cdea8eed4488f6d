//! The template JIT: one linear pass over the bytecode emits a fixed x86-64
//! machine-code snippet per opcode, then the buffer is finalized into
//! executable memory.
//!
//! The emitted function takes the memory base pointer in RDI, moves it into
//! RBX (callee-saved) for the duration of the call, and snapshots the entry
//! stack pointer in R12 (callee-saved). The evaluation stack lives on the
//! native stack: each value-producing opcode ends in a push, each consumer
//! starts with pops. The STOP epilogue restores RSP from the R12 snapshot, so
//! the native stack pointer is back at its entry value no matter how many
//! values were left, then restores both registers and returns.

use vstd::prelude::*;

use crate::instructions::{
    has_imm, is_binop, is_opcode, ADD, AND, DIV, DUP, EQ, GT, LT, MOD, MUL, OR, PUSH, SLOAD,
    SSTORE, STOP, SUB, SWAP, XOR,
};
use crate::semantics::{binop_eval, mem_get, run, run_from, well_formed, wf_from, VmError};

verus! {

/// Low byte of the 32-bit displacement `key * 8` used to address slot `key`.
pub open spec fn disp_lo(key: u8) -> u8 {
    ((key as int * 8) % 256) as u8
}

/// Second byte of the 32-bit displacement `key * 8`; the upper two are zero.
pub open spec fn disp_hi(key: u8) -> u8 {
    ((key as int * 8) / 256) as u8
}

/// The prologue: push rbx; push r12; mov rbx, rdi; mov r12, rsp.
pub open spec fn prologue_bytes() -> Seq<u8> {
    seq![0x53u8, 0x41, 0x54, 0x48, 0x89, 0xfb, 0x49, 0x89, 0xe4]
}

/// The fixed machine-code snippet for one instruction. `imm` is the
/// immediate operand; zero-operand opcodes ignore it.
pub open spec fn template(op: u8, imm: u8) -> Seq<u8> {
    if op == PUSH {
        // mov rax, imm32; push rax
        seq![0x48u8, 0xc7, 0xc0, imm, 0x00, 0x00, 0x00, 0x50]
    } else if op == SLOAD {
        // mov rax, [rbx + key*8]; push rax
        seq![0x48u8, 0x8b, 0x83, disp_lo(imm), disp_hi(imm), 0x00, 0x00, 0x50]
    } else if op == SSTORE {
        // pop rax; mov [rbx + key*8], rax
        seq![0x58u8, 0x48, 0x89, 0x83, disp_lo(imm), disp_hi(imm), 0x00, 0x00]
    } else if op == ADD {
        // pop rax; pop rdx; add rax, rdx; push rax
        seq![0x58u8, 0x5a, 0x48, 0x01, 0xd0, 0x50]
    } else if op == SUB {
        // pop rdx; pop rax; sub rax, rdx; push rax
        seq![0x5au8, 0x58, 0x48, 0x29, 0xd0, 0x50]
    } else if op == MUL {
        // pop rax; pop rdx; imul rax, rdx; push rax
        seq![0x58u8, 0x5a, 0x48, 0x0f, 0xaf, 0xc2, 0x50]
    } else if op == DIV {
        // pop rcx; pop rax; test rcx, rcx; jnz +8 (to xor rdx, rdx);
        // xor rax, rax; jmp +6 (to push rax); xor rdx, rdx; div rcx; push rax
        seq![0x59u8, 0x58, 0x48, 0x85, 0xc9, 0x0f, 0x85, 0x08, 0x00, 0x00, 0x00, 0x48, 0x31,
            0xc0, 0xe9, 0x06, 0x00, 0x00, 0x00, 0x48, 0x31, 0xd2, 0x48, 0xf7, 0xf1, 0x50]
    } else if op == MOD {
        // as DIV, with mov rax, rdx before the push to keep the remainder
        seq![0x59u8, 0x58, 0x48, 0x85, 0xc9, 0x0f, 0x85, 0x08, 0x00, 0x00, 0x00, 0x48, 0x31,
            0xc0, 0xe9, 0x09, 0x00, 0x00, 0x00, 0x48, 0x31, 0xd2, 0x48, 0xf7, 0xf1, 0x48, 0x89,
            0xd0, 0x50]
    } else if op == EQ {
        // pop rax; pop rdx; cmp rax, rdx; sete al; movzx rax, al; push rax
        seq![0x58u8, 0x5a, 0x48, 0x39, 0xd0, 0x0f, 0x94, 0xc0, 0x48, 0x0f, 0xb6, 0xc0, 0x50]
    } else if op == LT {
        // pop rdx; pop rax; cmp rax, rdx; setb al; movzx rax, al; push rax
        seq![0x5au8, 0x58, 0x48, 0x39, 0xd0, 0x0f, 0x92, 0xc0, 0x48, 0x0f, 0xb6, 0xc0, 0x50]
    } else if op == GT {
        // pop rdx; pop rax; cmp rax, rdx; seta al; movzx rax, al; push rax
        seq![0x5au8, 0x58, 0x48, 0x39, 0xd0, 0x0f, 0x97, 0xc0, 0x48, 0x0f, 0xb6, 0xc0, 0x50]
    } else if op == AND {
        // pop rax; pop rdx; and rax, rdx; push rax
        seq![0x58u8, 0x5a, 0x48, 0x21, 0xd0, 0x50]
    } else if op == OR {
        // pop rax; pop rdx; or rax, rdx; push rax
        seq![0x58u8, 0x5a, 0x48, 0x09, 0xd0, 0x50]
    } else if op == XOR {
        // pop rax; pop rdx; xor rax, rdx; push rax
        seq![0x58u8, 0x5a, 0x48, 0x31, 0xd0, 0x50]
    } else if op == DUP {
        // mov rax, [rsp]; push rax
        seq![0x48u8, 0x8b, 0x04, 0x24, 0x50]
    } else if op == SWAP {
        // pop rax; pop rdx; push rax; push rdx
        seq![0x58u8, 0x5a, 0x50, 0x52]
    } else if op == STOP {
        // mov rsp, r12; pop r12; pop rbx; ret
        seq![0x4cu8, 0x89, 0xe4, 0x41, 0x5c, 0x5b, 0xc3]
    } else {
        Seq::empty()
    }
}

/// The machine code emitted for the instructions from position `pc` on, or
/// the error that stops emission: an unknown opcode or a missing immediate.
pub open spec fn emit_from(code: Seq<u8>, pc: int) -> Result<Seq<u8>, VmError>
    decreases code.len() - pc,
{
    if pc < 0 || pc >= code.len() {
        Ok(Seq::empty())
    } else {
        let op = code[pc];
        if !is_opcode(op) {
            Err(VmError::InvalidOpcode(op))
        } else if has_imm(op) {
            if pc + 1 >= code.len() {
                Err(VmError::MissingImmediate)
            } else {
                match emit_from(code, pc + 2) {
                    Ok(rest) => Ok(template(op, code[pc + 1]) + rest),
                    Err(e) => Err(e),
                }
            }
        } else {
            match emit_from(code, pc + 1) {
                Ok(rest) => Ok(template(op, 0) + rest),
                Err(e) => Err(e),
            }
        }
    }
}

/// The whole compiled artifact: the prologue followed by every template.
pub open spec fn jit_code(code: Seq<u8>) -> Result<Seq<u8>, VmError> {
    match emit_from(code, 0) {
        Ok(body) => Ok(prologue_bytes() + body),
        Err(e) => Err(e),
    }
}

/// Bytes already emitted, composed with the emission still owed.
pub open spec fn compose_emit(done: Seq<u8>, rest: Result<Seq<u8>, VmError>) -> Result<
    Seq<u8>,
    VmError,
> {
    match rest {
        Ok(r) => Ok(done + r),
        Err(e) => Err(e),
    }
}

/// Append the template of one instruction to the output buffer.
fn emit_instr(out: &mut Vec<u8>, op: u8, imm: u8)
    requires
        is_opcode(op),
    ensures
        final(out)@ == old(out)@ + template(op, imm),
{
    if op == PUSH {
        out.push(0x48);
        out.push(0xc7);
        out.push(0xc0);
        out.push(imm);
        out.push(0x00);
        out.push(0x00);
        out.push(0x00);
        out.push(0x50);
    } else if op == SLOAD || op == SSTORE {
        let disp: u16 = (imm as u16) * 8;
        let lo: u8 = (disp % 256) as u8;
        let hi: u8 = (disp / 256) as u8;
        assert(lo == disp_lo(imm) && hi == disp_hi(imm));
        if op == SLOAD {
            out.push(0x48);
            out.push(0x8b);
            out.push(0x83);
            out.push(lo);
            out.push(hi);
            out.push(0x00);
            out.push(0x00);
            out.push(0x50);
        } else {
            out.push(0x58);
            out.push(0x48);
            out.push(0x89);
            out.push(0x83);
            out.push(lo);
            out.push(hi);
            out.push(0x00);
            out.push(0x00);
        }
    } else if op == ADD || op == AND || op == OR || op == XOR {
        out.push(0x58);
        out.push(0x5a);
        out.push(0x48);
        out.push(
            if op == ADD {
                0x01
            } else if op == AND {
                0x21
            } else if op == OR {
                0x09
            } else {
                0x31
            },
        );
        out.push(0xd0);
        out.push(0x50);
    } else if op == SUB {
        out.push(0x5a);
        out.push(0x58);
        out.push(0x48);
        out.push(0x29);
        out.push(0xd0);
        out.push(0x50);
    } else if op == MUL {
        out.push(0x58);
        out.push(0x5a);
        out.push(0x48);
        out.push(0x0f);
        out.push(0xaf);
        out.push(0xc2);
        out.push(0x50);
    } else if op == DIV || op == MOD {
        out.push(0x59);
        out.push(0x58);
        out.push(0x48);
        out.push(0x85);
        out.push(0xc9);
        out.push(0x0f);
        out.push(0x85);
        out.push(0x08);
        out.push(0x00);
        out.push(0x00);
        out.push(0x00);
        out.push(0x48);
        out.push(0x31);
        out.push(0xc0);
        out.push(0xe9);
        out.push(if op == DIV { 0x06 } else { 0x09 });
        out.push(0x00);
        out.push(0x00);
        out.push(0x00);
        out.push(0x48);
        out.push(0x31);
        out.push(0xd2);
        out.push(0x48);
        out.push(0xf7);
        out.push(0xf1);
        if op == MOD {
            out.push(0x48);
            out.push(0x89);
            out.push(0xd0);
        }
        out.push(0x50);
    } else if op == EQ {
        out.push(0x58);
        out.push(0x5a);
        out.push(0x48);
        out.push(0x39);
        out.push(0xd0);
        out.push(0x0f);
        out.push(0x94);
        out.push(0xc0);
        out.push(0x48);
        out.push(0x0f);
        out.push(0xb6);
        out.push(0xc0);
        out.push(0x50);
    } else if op == LT || op == GT {
        out.push(0x5a);
        out.push(0x58);
        out.push(0x48);
        out.push(0x39);
        out.push(0xd0);
        out.push(0x0f);
        out.push(if op == LT { 0x92 } else { 0x97 });
        out.push(0xc0);
        out.push(0x48);
        out.push(0x0f);
        out.push(0xb6);
        out.push(0xc0);
        out.push(0x50);
    } else if op == DUP {
        out.push(0x48);
        out.push(0x8b);
        out.push(0x04);
        out.push(0x24);
        out.push(0x50);
    } else if op == SWAP {
        out.push(0x58);
        out.push(0x5a);
        out.push(0x50);
        out.push(0x52);
    } else {
        out.push(0x4c);
        out.push(0x89);
        out.push(0xe4);
        out.push(0x41);
        out.push(0x5c);
        out.push(0x5b);
        out.push(0xc3);
    }
    assert(out@ =~= old(out)@ + template(op, imm));
}

/// One linear pass: emit the prologue, then the template of every
/// instruction, left to right. Fails exactly where the decoding of the
/// byte sequence fails, with the error that position gives.
pub fn compile_bytes(code: &[u8]) -> (r: Result<Vec<u8>, VmError>)
    ensures
        match r {
            Ok(v) => jit_code(code@) == Ok::<Seq<u8>, VmError>(v@),
            Err(e) => jit_code(code@) == Err::<Seq<u8>, VmError>(e),
        },
{
    let mut out: Vec<u8> = Vec::new();
    out.push(0x53);
    out.push(0x41);
    out.push(0x54);
    out.push(0x48);
    out.push(0x89);
    out.push(0xfb);
    out.push(0x49);
    out.push(0x89);
    out.push(0xe4);
    assert(out@ =~= prologue_bytes());
    let mut pc: usize = 0;
    while pc < code.len()
        invariant
            pc <= code.len(),
            jit_code(code@) == compose_emit(out@, emit_from(code@, pc as int)),
        decreases code.len() - pc,
    {
        let ghost pre = out@;
        let op = code[pc];
        if op == STOP || op == DUP || op == SWAP || op == ADD || op == SUB || op == MUL
            || op == DIV || op == MOD || op == EQ || op == LT || op == GT || op == AND
            || op == OR || op == XOR {
            emit_instr(&mut out, op, 0);
            proof {
                if let Ok(rest) = emit_from(code@, pc + 1) {
                    assert((pre + template(op, 0)) + rest =~= pre + (template(op, 0) + rest));
                }
            }
            pc = pc + 1;
        } else if op == PUSH || op == SLOAD || op == SSTORE {
            if pc + 1 >= code.len() {
                return Err(VmError::MissingImmediate);
            }
            let imm = code[pc + 1];
            emit_instr(&mut out, op, imm);
            proof {
                if let Ok(rest) = emit_from(code@, pc + 2) {
                    assert((pre + template(op, imm)) + rest =~= pre + (template(op, imm) + rest));
                }
            }
            pc = pc + 2;
        } else {
            return Err(VmError::InvalidOpcode(op));
        }
    }
    proof {
        assert(out@ + Seq::<u8>::empty() =~= out@);
    }
    Ok(out)
}

/// dynasmrt's region of executable memory; it owns its mapping and derefs
/// to the finalized machine code.
#[verifier::external_type_specification]
#[verifier::external_body]
pub struct ExExecutableBuffer(dynasmrt::ExecutableBuffer);

/// The machine code an executable buffer holds.
pub uninterp spec fn buffer_bytes(buf: &dynasmrt::ExecutableBuffer) -> Seq<u8>;

/// Relies on dynasmrt's `ExecutableBuffer::deref`: it yields the written
/// part of the mapping, the very bytes the assembler was handed.
pub assume_specification[ <dynasmrt::ExecutableBuffer as core::ops::Deref>::deref ](
    buf: &dynasmrt::ExecutableBuffer,
) -> (r: &[u8])
    ensures
        r@ == buffer_bytes(buf),
;

/// Relies on dynasmrt's x64 `Assembler`: `new` maps a fresh writable page,
/// `extend` appends the given bytes verbatim to the assembling buffer, and
/// `finalize` remaps the buffer read-execute and hands it over holding
/// exactly those bytes. A failure to map pages surfaces as an error.
#[verifier::external_body]
fn assemble(bytes: &Vec<u8>) -> (r: Result<dynasmrt::ExecutableBuffer, VmError>)
    ensures
        match r {
            Ok(buf) => buffer_bytes(&buf) == bytes@,
            Err(e) => e == VmError::Finalize,
        },
{
    let mut ops = match dynasmrt::x64::Assembler::new() {
        Ok(ops) => ops,
        Err(_) => return Err(VmError::Finalize),
    };
    ops.extend(bytes);
    match ops.finalize() {
        Ok(buf) => Ok(buf),
        Err(_) => Err(VmError::Finalize),
    }
}

/// Compile the program and finalize it into executable memory: the buffer
/// then holds exactly the bytes of `jit_code`, entry point at offset zero.
/// Emission fails exactly where decoding fails; a finalization failure is
/// reported as such.
pub fn make_jit(code: &[u8]) -> (r: Result<dynasmrt::ExecutableBuffer, VmError>)
    ensures
        match r {
            Ok(buf) => jit_code(code@) matches Ok(bytes) && buffer_bytes(&buf) == bytes,
            Err(e) => (e == VmError::Finalize && jit_code(code@) is Ok) || jit_code(code@)
                == Err::<Seq<u8>, VmError>(e),
        },
{
    match compile_bytes(code) {
        Ok(bytes) => assemble(&bytes),
        Err(e) => Err(e),
    }
}

/// The machine model of the emitted code. `native` is the native stack,
/// bottom first: the words below index `snap` are the caller's, the words
/// from `snap` on are the evaluation stack the templates push and pop.
/// `mem` is the dense 256-slot array that RBX points at. Each case is the
/// effect of the template of that opcode; STOP models the epilogue, which
/// restores RSP from the R12 snapshot, discarding the evaluation stack.
/// `None` marks machine behavior outside the model: running off the end of
/// the code, a byte no template exists for, or popping past the bottom of
/// the modeled stack.
pub open spec fn jit_exec(code: Seq<u8>, pc: int, native: Seq<u64>, snap: int, mem: Seq<u64>) -> Option<
    (Seq<u64>, Seq<u64>),
>
    decreases code.len() - pc,
{
    if pc < 0 || pc >= code.len() {
        None
    } else {
        let op = code[pc];
        if op == STOP {
            Some((native.take(snap), mem))
        } else if has_imm(op) {
            if pc + 1 >= code.len() {
                None
            } else {
                let imm = code[pc + 1];
                if op == PUSH {
                    jit_exec(code, pc + 2, native.push(imm as u64), snap, mem)
                } else if op == SLOAD {
                    jit_exec(code, pc + 2, native.push(mem[imm as int]), snap, mem)
                } else {
                    if native.len() == 0 {
                        None
                    } else {
                        jit_exec(
                            code,
                            pc + 2,
                            native.drop_last(),
                            snap,
                            mem.update(imm as int, native.last()),
                        )
                    }
                }
            }
        } else if is_binop(op) {
            if native.len() < 2 {
                None
            } else {
                let b = native.last();
                let a = native.drop_last().last();
                jit_exec(
                    code,
                    pc + 1,
                    native.drop_last().drop_last().push(binop_eval(op, a, b)),
                    snap,
                    mem,
                )
            }
        } else if op == DUP {
            if native.len() == 0 {
                None
            } else {
                jit_exec(code, pc + 1, native.push(native.last()), snap, mem)
            }
        } else if op == SWAP {
            if native.len() < 2 {
                None
            } else {
                let b = native.last();
                let a = native.drop_last().last();
                jit_exec(code, pc + 1, native.drop_last().drop_last().push(b).push(a), snap, mem)
            }
        } else {
            None
        }
    }
}

/// The sparse interpreter memory and the dense 256-slot array hold the same
/// values: an absent key reads as zero on both sides.
pub open spec fn mem_agrees(smem: Map<u8, u64>, dmem: Seq<u64>) -> bool {
    dmem.len() == 256 && forall|k: u8| #[trigger] dmem[k as int] == mem_get(smem, k)
}

proof fn lemma_skip_take_push(native: Seq<u64>, snap: int, v: u64)
    requires
        0 <= snap <= native.len(),
    ensures
        native.push(v).skip(snap) == native.skip(snap).push(v),
        native.push(v).take(snap) == native.take(snap),
{
    assert(native.push(v).skip(snap) =~= native.skip(snap).push(v));
    assert(native.push(v).take(snap) =~= native.take(snap));
}

proof fn lemma_skip_take_drop(native: Seq<u64>, snap: int)
    requires
        0 <= snap < native.len(),
    ensures
        native.drop_last().skip(snap) == native.skip(snap).drop_last(),
        native.drop_last().take(snap) == native.take(snap),
        native.skip(snap).last() == native.last(),
{
    assert(native.drop_last().skip(snap) =~= native.skip(snap).drop_last());
    assert(native.drop_last().take(snap) =~= native.take(snap));
    assert(native.skip(snap).last() == native[native.len() - 1]);
}

/// The heart of the equivalence: as long as the program respects the stack
/// discipline, the machine model of the emitted templates runs in lockstep
/// with the interpreter semantics. The run ends without error; the model
/// ends at a STOP with the caller's part of the native stack untouched and
/// with a dense memory that still agrees, key for key, with the sparse one.
pub proof fn lemma_jit_matches_interpreter(
    code: Seq<u8>,
    pc: int,
    native: Seq<u64>,
    snap: int,
    smem: Map<u8, u64>,
    dmem: Seq<u64>,
)
    requires
        0 <= snap <= native.len(),
        wf_from(code, pc, native.len() - snap),
        mem_agrees(smem, dmem),
    ensures
        run_from(code, pc, native.skip(snap), smem).error is None,
        jit_exec(code, pc, native, snap, dmem) matches Some(res) && res.0 == native.take(snap)
            && mem_agrees(run_from(code, pc, native.skip(snap), smem).mem, res.1),
    decreases code.len() - pc,
{
    let s = native.skip(snap);
    assert(s.len() == native.len() - snap);
    let op = code[pc];
    if op == STOP {
    } else if op == PUSH || op == SLOAD {
        let imm = code[pc + 1];
        let v = if op == PUSH {
            imm as u64
        } else {
            mem_get(smem, imm)
        };
        assert(dmem[imm as int] == mem_get(smem, imm));
        lemma_skip_take_push(native, snap, v);
        lemma_jit_matches_interpreter(code, pc + 2, native.push(v), snap, smem, dmem);
    } else if op == SSTORE {
        let imm = code[pc + 1];
        lemma_skip_take_drop(native, snap);
        let v = native.last();
        let smem2 = smem.insert(imm, v);
        let dmem2 = dmem.update(imm as int, v);
        assert(mem_agrees(smem2, dmem2)) by {
            assert forall|k: u8| #[trigger] dmem2[k as int] == mem_get(smem2, k) by {
                if k == imm {
                    assert(dmem2[k as int] == v);
                } else {
                    assert(k as int != imm as int);
                    assert(dmem2[k as int] == dmem[k as int]);
                }
            }
        }
        lemma_jit_matches_interpreter(code, pc + 2, native.drop_last(), snap, smem2, dmem2);
    } else if is_binop(op) {
        let b = native.last();
        lemma_skip_take_drop(native, snap);
        let n1 = native.drop_last();
        let a = n1.last();
        lemma_skip_take_drop(n1, snap);
        let n2 = n1.drop_last();
        let r = binop_eval(op, a, b);
        lemma_skip_take_push(n2, snap, r);
        assert(s.drop_last().drop_last().push(r) == n2.push(r).skip(snap));
        lemma_jit_matches_interpreter(code, pc + 1, n2.push(r), snap, smem, dmem);
    } else if op == DUP {
        lemma_skip_take_drop(native, snap);
        let v = native.last();
        lemma_skip_take_push(native, snap, v);
        lemma_jit_matches_interpreter(code, pc + 1, native.push(v), snap, smem, dmem);
    } else {
        // SWAP: well-formedness rules every other byte out
        let b = native.last();
        lemma_skip_take_drop(native, snap);
        let n1 = native.drop_last();
        let a = n1.last();
        lemma_skip_take_drop(n1, snap);
        let n2 = n1.drop_last();
        lemma_skip_take_push(n2, snap, b);
        lemma_skip_take_push(n2.push(b), snap, a);
        assert(s.drop_last().drop_last().push(b).push(a) == n2.push(b).push(a).skip(snap));
        lemma_jit_matches_interpreter(code, pc + 1, n2.push(b).push(a), snap, smem, dmem);
    }
}

/// Equivalence of the two execution paths: a well-formed program, run by the
/// interpreter from empty state and by the modeled JIT against a zeroed
/// 256-slot array, ends without error, and every memory key holds the same
/// value on both sides. The caller's native stack comes back exactly as it
/// was.
pub proof fn lemma_jit_equivalence(code: Seq<u8>, native: Seq<u64>, dmem: Seq<u64>)
    requires
        well_formed(code),
        dmem.len() == 256,
        forall|i: int| 0 <= i < 256 ==> dmem[i] == 0,
    ensures
        run(code).error is None,
        jit_exec(code, 0, native, native.len() as int, dmem) matches Some(res) && res.0 == native
            && forall|k: u8| #[trigger] res.1[k as int] == mem_get(run(code).mem, k),
{
    let smem = Map::<u8, u64>::empty();
    assert(mem_agrees(smem, dmem)) by {
        assert forall|k: u8| #[trigger] dmem[k as int] == mem_get(smem, k) by {
            assert((k as int) < 256);
        }
    }
    lemma_jit_matches_interpreter(code, 0, native, native.len() as int, smem, dmem);
    assert(native.skip(native.len() as int) =~= Seq::<u64>::empty());
    assert(native.take(native.len() as int) =~= native);
}

/// Stack-neutrality of the JIT, whatever the memory holds at entry: after
/// the modeled run of a well-formed program, the native stack is exactly the
/// caller's again, the snapshot-and-restore epilogue having discarded every
/// leftover evaluation value.
pub proof fn lemma_jit_stack_neutral(code: Seq<u8>, native: Seq<u64>, dmem: Seq<u64>)
    requires
        well_formed(code),
        dmem.len() == 256,
    ensures
        jit_exec(code, 0, native, native.len() as int, dmem) matches Some(res) && res.0 == native,
{
    let smem = Map::<u8, u64>::new(|k: u8| true, |k: u8| dmem[k as int]);
    assert(mem_agrees(smem, dmem)) by {
        assert forall|k: u8| #[trigger] dmem[k as int] == mem_get(smem, k) by {
            assert(smem.contains_key(k));
        }
    }
    lemma_jit_matches_interpreter(code, 0, native, native.len() as int, smem, dmem);
    assert(native.take(native.len() as int) =~= native);
}

/// A byte outside the instruction table makes compilation fail at once,
/// with the same error the interpreter reports.
pub proof fn lemma_unknown_opcode_compile(b: u8)
    requires
        !is_opcode(b),
    ensures
        jit_code(seq![b]) == Err::<Seq<u8>, VmError>(VmError::InvalidOpcode(b)),
{
}

/// Emission over a suffix reads the same after any prefix.
pub proof fn lemma_emit_shift(a: Seq<u8>, b: Seq<u8>, k: int)
    requires
        0 <= k,
    ensures
        emit_from(a + b, a.len() + k) == emit_from(b, k),
    decreases b.len() - k,
{
    if k < b.len() {
        assert((a + b)[a.len() + k] == b[k]);
        lemma_emit_shift(a, b, k + 1);
        if k + 1 < b.len() {
            assert((a + b)[a.len() + k + 1] == b[k + 1]);
            lemma_emit_shift(a, b, k + 2);
        }
    }
}

/// Wherever a run ends fatally, emission over the same bytes ends fatally
/// too, with the very same error: the two paths decode alike up to the
/// position the run reached.
pub proof fn lemma_run_error_implies_emit_error(
    code: Seq<u8>,
    pc: int,
    stack: Seq<u64>,
    mem: Map<u8, u64>,
)
    ensures
        run_from(code, pc, stack, mem).error matches Some(e) ==> emit_from(code, pc)
            == Err::<Seq<u8>, VmError>(e),
    decreases code.len() - pc,
{
    if pc < 0 || pc >= code.len() {
    } else {
        let op = code[pc];
        if op == STOP {
        } else if has_imm(op) {
            if pc + 1 < code.len() {
                let imm = code[pc + 1];
                if op == PUSH {
                    lemma_run_error_implies_emit_error(code, pc + 2, stack.push(imm as u64), mem);
                } else if op == SLOAD {
                    lemma_run_error_implies_emit_error(
                        code,
                        pc + 2,
                        stack.push(mem_get(mem, imm)),
                        mem,
                    );
                } else {
                    let (v, rest) = crate::semantics::pop1(stack);
                    lemma_run_error_implies_emit_error(code, pc + 2, rest, mem.insert(imm, v));
                }
            }
        } else if is_binop(op) {
            let (b, s1) = crate::semantics::pop1(stack);
            let (a, s2) = crate::semantics::pop1(s1);
            lemma_run_error_implies_emit_error(code, pc + 1, s2.push(binop_eval(op, a, b)), mem);
        } else if op == DUP {
            lemma_run_error_implies_emit_error(
                code,
                pc + 1,
                stack.push(crate::semantics::top_or_zero(stack)),
                mem,
            );
        } else if op == SWAP {
            let (b, s1) = crate::semantics::pop1(stack);
            let (a, s2) = crate::semantics::pop1(s1);
            lemma_run_error_implies_emit_error(code, pc + 1, s2.push(b).push(a), mem);
        }
    }
}

} // verus!
