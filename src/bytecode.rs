//! The source instruction format that the converter consumes.
use vstd::prelude::*;

verus! {

/// One source instruction: an opcode with its operands. Registers are given
/// as wide words and must name one of the 256 registers.
#[derive(Clone, Copy, Debug, PartialEq, Eq, Structural)]
pub enum Bytecode {
    /// `dst <- imm`
    Load { dst: u32, imm: u32 },
    /// `dst <- lhs + rhs`
    Add { dst: u32, lhs: u32, rhs: u32 },
    /// Go to the instruction at index `target` when `lhs` and `rhs` differ.
    JmpNe { lhs: u32, rhs: u32, target: i32 },
    /// Emit the value of register `src`.
    Print { src: u32 },
    /// Stop the program.
    Ret,
}

} // verus!
