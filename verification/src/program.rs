//! Compiled programs.

use vstd::prelude::*;
use crate::instruction::{Instruction, Opcode, PROGRAM_SIZE};

verus! {

/// Whether the instruction at `pc` is in order: `End` stands in the last
/// slot and nowhere else, a jump names its partner, which names it back,
/// and every other instruction has the operand zero.
pub open spec fn slot_well_formed(code: Seq<Instruction>, pc: int) -> bool {
    let ins = code[pc];
    let partner = code[ins.operand as int];
    &&& ins.operator == Opcode::End <==> pc == code.len() - 1
    &&& match ins.operator {
        Opcode::JumpIfZero => {
            &&& pc < ins.operand < code.len()
            &&& partner.operator == Opcode::JumpIfNonZero
            &&& partner.operand == pc
        },
        Opcode::JumpIfNonZero => {
            &&& ins.operand < pc
            &&& partner.operator == Opcode::JumpIfZero
            &&& partner.operand == pc
        },
        _ => ins.operand == 0,
    }
}

/// Whether `code` is a finished program: it fits the program store, and
/// each of its instructions is in order.
pub open spec fn well_formed(code: Seq<Instruction>) -> bool {
    &&& 0 < code.len() <= PROGRAM_SIZE
    &&& forall|pc: int| 0 <= pc < code.len() ==> #[trigger] slot_well_formed(code, pc)
}

/// A compiled program: at most [`PROGRAM_SIZE`] instructions, indexed by
/// program counter.
///
/// Its view is the sequence of its instructions.
#[derive(Clone, Debug)]
pub struct Program {
    code: Vec<Instruction>,
}

impl View for Program {
    type V = Seq<Instruction>;

    closed spec fn view(&self) -> Seq<Instruction> {
        self.code@
    }
}

impl Program {
    /// Every program handed out by the compiler is well formed.
    pub open spec fn wf(&self) -> bool {
        well_formed(self@)
    }

    /// Wraps a finished instruction sequence.
    pub(crate) fn from_code(code: Vec<Instruction>) -> (program: Program)
        requires
            well_formed(code@),
        ensures
            program@ == code@,
            program.wf(),
    {
        Program { code }
    }

    /// Number of instructions, terminator included.
    pub fn len(&self) -> (n: usize)
        ensures
            n == self@.len(),
    {
        self.code.len()
    }

    /// The instruction at `pc`, if there is one.
    pub fn get(&self, pc: usize) -> (ins: Option<Instruction>)
        ensures
            ins == (if pc < self@.len() {
                Some(self@[pc as int])
            } else {
                None
            }),
    {
        if pc < self.code.len() {
            Some(self.code[pc])
        } else {
            None
        }
    }

    /// All instructions, in the order of their slots.
    pub fn as_slice(&self) -> (code: &[Instruction])
        ensures
            code@ == self@,
    {
        self.code.as_slice()
    }

    /// The instruction at `pc`.
    pub fn fetch(&self, pc: usize) -> (ins: Instruction)
        requires
            pc < self@.len(),
        ensures
            ins == self@[pc as int],
    {
        self.code[pc]
    }
}

} // verus!
