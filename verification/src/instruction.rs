//! The instruction encoding shared by the compiler and the interpreter.

use vstd::prelude::*;

verus! {

/// Number of slots in a program, terminator included.
pub const PROGRAM_SIZE: usize = 4096;

/// Deepest nesting of loop brackets the compiler keeps track of.
pub const STACK_SIZE: usize = 512;

/// Number of cells on the tape.
pub const DATA_SIZE: usize = 65535;

/// What an instruction does.
#[derive(Clone, Copy, Debug, PartialEq, Eq, Structural)]
pub enum Opcode {
    /// Stop the program.
    End,
    /// Move the data pointer one cell to the right.
    IncPtr,
    /// Move the data pointer one cell to the left.
    DecPtr,
    /// Add one to the current cell, wrapping from 255 to 0.
    IncCell,
    /// Subtract one from the current cell, wrapping from 0 to 255.
    DecCell,
    /// Emit the current cell.
    Output,
    /// Store the next input byte in the current cell.
    Input,
    /// Jump past the matching loop end when the current cell is zero.
    JumpIfZero,
    /// Jump back behind the matching loop start when the current cell is
    /// not zero.
    JumpIfNonZero,
}

/// One slot of a program: an opcode and, for the two jumps, the slot of
/// the partner bracket. Every other opcode carries the operand zero.
#[derive(Clone, Copy, Debug, PartialEq, Eq, Structural)]
pub struct Instruction {
    pub operator: Opcode,
    pub operand: usize,
}

} // verus!
