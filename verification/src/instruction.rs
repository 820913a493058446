//! The decoded-instruction representation: one structured value per machine
//! instruction, carrying its operands, its encoded byte length and whether it
//! ends a basic block.

use vstd::prelude::*;

verus! {

/// How many general-purpose registers the machine has. Register operands of
/// decoded instructions are always below this bound.
pub const REGISTER_COUNT: usize = 8;

/// A decoded instruction. Produced by the decoder for exactly one
/// (address, memory-contents) pair and immutable once produced.
///
/// Register operands are indices below [`REGISTER_COUNT`]; immediates are
/// 16-bit values taken from the instruction encoding.
#[derive(Clone, Copy, Debug, PartialEq, Eq, Structural)]
pub enum Instruction {
    /// Load a zero-extended 16-bit immediate into a register.
    Li { rd: u8, imm: u16 },
    /// Wrapping 64-bit addition of two registers into a third.
    Add { rd: u8, rs1: u8, rs2: u8 },
    /// Store the low byte of one register at the address held in another.
    Sb { rs_addr: u8, rs_val: u8 },
    /// Load one byte, zero-extended, from the address held in a register.
    Lb { rd: u8, rs_addr: u8 },
    /// Two-byte no-operation (the compressed encoding).
    Cnop,
    /// Unconditional jump to an absolute address; ends a basic block.
    Jmp { target: u16 },
    /// Branch to an absolute address if a register is zero; ends a basic block.
    Beqz { rs: u8, target: u16 },
    /// Environment call: halt the machine, exiting with the low byte of a
    /// register; ends a basic block.
    Ecall { rs: u8 },
    /// Environment breakpoint: traps to the host, which this core reports as
    /// a fatal host-call fault; ends a basic block.
    Ebreak,
}

/// The encoded byte length of an instruction: compressed instructions take
/// two bytes, all others four.
pub open spec fn spec_instruction_length(i: Instruction) -> int {
    match i {
        Instruction::Cnop => 2,
        _ => 4,
    }
}

/// Whether an instruction can transfer control elsewhere, and therefore ends
/// the basic block it appears in.
pub open spec fn spec_is_basic_block_end(i: Instruction) -> bool {
    match i {
        Instruction::Jmp { .. } => true,
        Instruction::Beqz { .. } => true,
        Instruction::Ecall { .. } => true,
        Instruction::Ebreak => true,
        _ => false,
    }
}

/// Every register operand of the instruction is a valid register index.
pub open spec fn wf_instruction(i: Instruction) -> bool {
    match i {
        Instruction::Li { rd, .. } => rd < REGISTER_COUNT,
        Instruction::Add { rd, rs1, rs2 } => {
            rd < REGISTER_COUNT && rs1 < REGISTER_COUNT && rs2 < REGISTER_COUNT
        },
        Instruction::Sb { rs_addr, rs_val } => {
            rs_addr < REGISTER_COUNT && rs_val < REGISTER_COUNT
        },
        Instruction::Lb { rd, rs_addr } => rd < REGISTER_COUNT && rs_addr < REGISTER_COUNT,
        Instruction::Cnop => true,
        Instruction::Jmp { .. } => true,
        Instruction::Beqz { rs, .. } => rs < REGISTER_COUNT,
        Instruction::Ecall { rs } => rs < REGISTER_COUNT,
        Instruction::Ebreak => true,
    }
}

/// Executable form of [`spec_instruction_length`].
pub fn instruction_length(i: Instruction) -> (n: usize)
    ensures
        n == spec_instruction_length(i),
{
    match i {
        Instruction::Cnop => 2,
        _ => 4,
    }
}

/// Executable form of [`spec_is_basic_block_end`].
pub fn is_basic_block_end_instruction(i: Instruction) -> (b: bool)
    ensures
        b == spec_is_basic_block_end(i),
{
    match i {
        Instruction::Jmp { .. } => true,
        Instruction::Beqz { .. } => true,
        Instruction::Ecall { .. } => true,
        Instruction::Ebreak => true,
        _ => false,
    }
}

} // verus!
