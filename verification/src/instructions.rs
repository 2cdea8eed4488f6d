//! The instruction set: one byte per opcode, with an optional one-byte
//! immediate operand (a memory key or a value to push).

use vstd::prelude::*;

verus! {

pub const SLOAD: u8 = 0x01;
pub const SSTORE: u8 = 0x02;
pub const PUSH: u8 = 0x03;
pub const ADD: u8 = 0x04;
pub const SUB: u8 = 0x05;
pub const MUL: u8 = 0x06;
pub const DIV: u8 = 0x07;
pub const MOD: u8 = 0x08;
pub const EQ: u8 = 0x09;
pub const LT: u8 = 0x0A;
pub const GT: u8 = 0x0B;
pub const AND: u8 = 0x0C;
pub const OR: u8 = 0x0D;
pub const XOR: u8 = 0x0E;
pub const DUP: u8 = 0x0F;
pub const SWAP: u8 = 0x10;
pub const STOP: u8 = 0xFF;

/// True of the opcodes that carry a one-byte immediate operand.
pub open spec fn has_imm(op: u8) -> bool {
    op == SLOAD || op == SSTORE || op == PUSH
}

/// True of the two-operand arithmetic, comparison and bitwise opcodes.
pub open spec fn is_binop(op: u8) -> bool {
    op == ADD || op == SUB || op == MUL || op == DIV || op == MOD || op == EQ || op == LT
        || op == GT || op == AND || op == OR || op == XOR
}

/// True of every byte in the instruction table.
pub open spec fn is_opcode(op: u8) -> bool {
    has_imm(op) || is_binop(op) || op == DUP || op == SWAP || op == STOP
}

/// Encoded length in bytes of the instruction starting with `op`.
pub open spec fn instr_len(op: u8) -> int {
    if has_imm(op) {
        2
    } else {
        1
    }
}

} // verus!
