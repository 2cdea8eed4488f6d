//! The interpreter: a fetch-decode-execute loop over the bytecode, proved to
//! land exactly in the state that the reference semantics `run_from` gives.

use std::collections::HashMap;
use vstd::prelude::*;

use crate::instructions::{
    ADD, AND, DIV, DUP, EQ, GT, LT, MOD, MUL, OR, PUSH, SLOAD, SSTORE, STOP, SUB, SWAP, XOR,
};
use crate::semantics::{binop_eval, mem_get, pop1, run_from, top_or_zero, VmError};

verus! {

broadcast use vstd::std_specs::hash::group_hash_axioms;

/// The virtual machine: an evaluation stack of 64-bit values and a sparse
/// memory keyed by a byte, where absent keys read as zero.
pub struct VM {
    memory: HashMap<u8, u64>,
    stack: Vec<u64>,
}

impl VM {
    /// The evaluation stack as a sequence, bottom first.
    pub closed spec fn stack_view(&self) -> Seq<u64> {
        self.stack@
    }

    /// The memory as a mapping holding exactly the keys ever stored to.
    pub closed spec fn mem_view(&self) -> Map<u8, u64> {
        self.memory@
    }

    /// Run the program to its end and leave the machine in the final state
    /// of the reference semantics; a fatal byte stops the run right there
    /// and is reported.
    pub fn interpret(&mut self, code: &[u8]) -> (r: Result<(), VmError>)
        ensures
            ({
                let outcome = run_from(code@, 0, old(self).stack_view(), old(self).mem_view());
                &&& final(self).stack_view() == outcome.stack
                &&& final(self).mem_view() == outcome.mem
                &&& match r {
                    Ok(()) => outcome.error is None,
                    Err(e) => outcome.error == Some(e),
                }
            }),
    {
        let ghost orig = run_from(code@, 0, self.stack_view(), self.mem_view());
        let mut pc: usize = 0;
        while pc < code.len()
            invariant
                pc <= code.len(),
                orig == run_from(code@, 0, old(self).stack_view(), old(self).mem_view()),
                orig == run_from(code@, pc as int, self.stack_view(), self.mem_view()),
            decreases code.len() - pc,
        {
            let ghost pre_stack = self.stack_view();
            let ghost pre_mem = self.mem_view();
            let op = code[pc];
            if op == STOP {
                return Ok(());
            } else if op == PUSH || op == SLOAD || op == SSTORE {
                if pc + 1 >= code.len() {
                    return Err(VmError::MissingImmediate);
                }
                let imm = code[pc + 1];
                if op == PUSH {
                    self.stack.push(imm as u64);
                } else if op == SLOAD {
                    let val = match self.memory.get(&imm) {
                        Some(v) => *v,
                        None => 0,
                    };
                    assert(val == mem_get(self.mem_view(), imm));
                    self.stack.push(val);
                } else {
                    let val = match self.stack.pop() {
                        Some(v) => v,
                        None => 0,
                    };
                    proof {
                        assert((val, self.stack_view()) == pop1(pre_stack));
                    }
                    self.memory.insert(imm, val);
                }
                pc = pc + 2;
            } else if op == DUP {
                let val = if self.stack.len() > 0 {
                    self.stack[self.stack.len() - 1]
                } else {
                    0
                };
                assert(val == top_or_zero(self.stack_view()));
                self.stack.push(val);
                pc = pc + 1;
            } else if op == SWAP {
                let b = match self.stack.pop() {
                    Some(v) => v,
                    None => 0,
                };
                let a = match self.stack.pop() {
                    Some(v) => v,
                    None => 0,
                };
                self.stack.push(b);
                self.stack.push(a);
                pc = pc + 1;
            } else if op == ADD || op == SUB || op == MUL || op == DIV || op == MOD || op == EQ
                || op == LT || op == GT || op == AND || op == OR || op == XOR {
                let b = match self.stack.pop() {
                    Some(v) => v,
                    None => 0,
                };
                let a = match self.stack.pop() {
                    Some(v) => v,
                    None => 0,
                };
                let res = if op == ADD {
                    a.wrapping_add(b)
                } else if op == SUB {
                    a.wrapping_sub(b)
                } else if op == MUL {
                    a.wrapping_mul(b)
                } else if op == DIV {
                    if b == 0 {
                        0
                    } else {
                        a / b
                    }
                } else if op == MOD {
                    if b == 0 {
                        0
                    } else {
                        a % b
                    }
                } else if op == EQ {
                    if a == b {
                        1
                    } else {
                        0
                    }
                } else if op == LT {
                    if a < b {
                        1
                    } else {
                        0
                    }
                } else if op == GT {
                    if a > b {
                        1
                    } else {
                        0
                    }
                } else if op == AND {
                    a & b
                } else if op == OR {
                    a | b
                } else {
                    a ^ b
                };
                assert(res == binop_eval(op, a, b));
                self.stack.push(res);
                pc = pc + 1;
            } else {
                return Err(VmError::InvalidOpcode(op));
            }
        }
        Ok(())
    }

    /// Read-only view of the final evaluation stack.
    pub fn stack(&self) -> (r: &[u64])
        ensures
            r@ == self.stack_view(),
    {
        self.stack.as_slice()
    }

    /// Read-only view of the memory, covering exactly the stored keys.
    pub fn memory(&self) -> (r: &HashMap<u8, u64>)
        ensures
            r@ == self.mem_view(),
    {
        &self.memory
    }
}

impl Default for VM {
    /// A fresh machine: empty stack, no key yet stored.
    fn default() -> (r: Self)
        ensures
            r.stack_view() == Seq::<u64>::empty(),
            r.mem_view() == Map::<u8, u64>::empty(),
    {
        VM { memory: HashMap::new(), stack: Vec::new() }
    }
}

} // verus!
