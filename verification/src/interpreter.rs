//! The interpreter: a program run against a bounded tape of byte cells.

use vstd::prelude::*;
use crate::instruction::{Instruction, Opcode, DATA_SIZE};
use crate::program::{slot_well_formed, well_formed, Program};

verus! {

/// Why a program stops before it reaches `End`.
#[derive(Clone, Copy, Debug, PartialEq, Eq, Structural)]
pub enum ExecError {
    /// The data pointer was moved off either end of the tape.
    PointerOutOfBounds,
    /// An `Input` instruction found no byte to read.
    InputClosed,
}

/// What one instruction did, as far as the world outside can tell.
#[derive(Clone, Copy, Debug, PartialEq, Eq, Structural)]
pub enum Step {
    /// The instruction ran and emitted nothing.
    Ran,
    /// The instruction emitted this byte.
    Wrote(u8),
    /// The instruction is `End`: the program is over.
    Halted,
}

/// The state of a run: the tape, the data pointer and the program counter.
pub struct Machine {
    pub cells: Seq<u8>,
    pub pointer: int,
    pub pc: int,
}

/// The state in which every run starts: all cells zero, the data pointer
/// on the first cell, the program counter on the first instruction.
pub open spec fn start() -> Machine {
    Machine { cells: Seq::new(DATA_SIZE as nat, |i: int| 0u8), pointer: 0, pc: 0 }
}

/// Whether `machine` can run `program`: the tape has its full length, the
/// data pointer is on the tape, and the program counter is in the program.
pub open spec fn fits(program: Seq<Instruction>, machine: Machine) -> bool {
    &&& machine.cells.len() == DATA_SIZE
    &&& 0 <= machine.pointer < DATA_SIZE
    &&& 0 <= machine.pc < program.len()
}

/// A cell value plus one, modulo 256.
pub open spec fn incremented(cell: u8) -> u8 {
    ((cell + 1) % 256) as u8
}

/// A cell value minus one, modulo 256.
pub open spec fn decremented(cell: u8) -> u8 {
    ((cell + 255) % 256) as u8
}

/// Cell arithmetic is arithmetic modulo 256: adding one to 255 gives 0,
/// taking one from 0 gives 255, and each of the two undoes the other.
pub proof fn lemma_cells_wrap(cell: u8)
    ensures
        incremented(cell) as int == (cell as int + 1) % 256,
        decremented(cell) as int == (cell as int - 1) % 256,
        incremented(cell) == (if cell == 255 { 0 } else { cell + 1 }),
        decremented(cell) == (if cell == 0 { 255 } else { cell - 1 }),
        decremented(incremented(cell)) == cell,
        incremented(decremented(cell)) == cell,
{
}

/// Whether the instruction that `machine` is about to run reads input.
pub open spec fn awaits_input(program: Seq<Instruction>, machine: Machine) -> bool {
    program[machine.pc].operator == Opcode::Input
}

/// The state after the instruction at the program counter has run, with
/// `input` as the byte on offer to an `Input` instruction. An instruction
/// that fails, and `End`, leave the state as it is.
pub open spec fn state_after(
    program: Seq<Instruction>,
    machine: Machine,
    input: Option<u8>,
) -> Machine {
    let ins = program[machine.pc];
    let cell = machine.cells[machine.pointer];
    let onward = Machine { pc: machine.pc + 1, ..machine };
    match ins.operator {
        Opcode::End => machine,
        Opcode::IncPtr => if machine.pointer + 1 < DATA_SIZE {
            Machine { pointer: machine.pointer + 1, ..onward }
        } else {
            machine
        },
        Opcode::DecPtr => if machine.pointer > 0 {
            Machine { pointer: machine.pointer - 1, ..onward }
        } else {
            machine
        },
        Opcode::IncCell => Machine {
            cells: machine.cells.update(machine.pointer, incremented(cell)),
            ..onward
        },
        Opcode::DecCell => Machine {
            cells: machine.cells.update(machine.pointer, decremented(cell)),
            ..onward
        },
        Opcode::Output => onward,
        Opcode::Input => match input {
            Some(byte) => Machine { cells: machine.cells.update(machine.pointer, byte), ..onward },
            None => machine,
        },
        Opcode::JumpIfZero => if cell == 0 {
            Machine { pc: ins.operand + 1, ..machine }
        } else {
            onward
        },
        Opcode::JumpIfNonZero => if cell != 0 {
            Machine { pc: ins.operand + 1, ..machine }
        } else {
            onward
        },
    }
}

/// What the instruction at the program counter reports when it runs with
/// `input` as the byte on offer to an `Input` instruction.
pub open spec fn step_result(
    program: Seq<Instruction>,
    machine: Machine,
    input: Option<u8>,
) -> Result<Step, ExecError> {
    match program[machine.pc].operator {
        Opcode::End => Ok(Step::Halted),
        Opcode::IncPtr => if machine.pointer + 1 < DATA_SIZE {
            Ok(Step::Ran)
        } else {
            Err(ExecError::PointerOutOfBounds)
        },
        Opcode::DecPtr => if machine.pointer > 0 {
            Ok(Step::Ran)
        } else {
            Err(ExecError::PointerOutOfBounds)
        },
        Opcode::Output => Ok(Step::Wrote(machine.cells[machine.pointer])),
        Opcode::Input => match input {
            Some(_) => Ok(Step::Ran),
            None => Err(ExecError::InputClosed),
        },
        _ => Ok(Step::Ran),
    }
}

/// A well-formed program keeps the machine within its bounds.
pub proof fn lemma_step_fits(program: Seq<Instruction>, machine: Machine, input: Option<u8>)
    requires
        well_formed(program),
        fits(program, machine),
    ensures
        fits(program, state_after(program, machine, input)),
{
    let ins = program[machine.pc];
    assert(slot_well_formed(program, machine.pc));
    if ins.operator == Opcode::JumpIfZero || ins.operator == Opcode::JumpIfNonZero {
        assert(slot_well_formed(program, ins.operand as int));
    }
}

/// How a run with a bounded number of steps ended.
#[derive(Clone, Copy, Debug, PartialEq, Eq, Structural)]
pub enum Status {
    /// The program reached `End`.
    Halted,
    /// An instruction failed.
    Failed(ExecError),
    /// The steps were used up before the program halted or failed.
    Suspended,
}

/// A run as far as it went: the state it reached, the bytes it emitted,
/// the number of input bytes it read, and how it ended.
pub struct Trace {
    pub machine: Machine,
    pub output: Seq<u8>,
    pub consumed: int,
    pub status: Status,
}

/// The byte on offer to an `Input` instruction once `consumed` bytes of
/// `input` have been read.
pub open spec fn offered(input: Seq<u8>, consumed: int) -> Option<u8> {
    if 0 <= consumed < input.len() {
        Some(input[consumed])
    } else {
        None
    }
}

/// The run of at most `budget` steps that starts in `machine`, with
/// `consumed` bytes of `input` already read and `output` already emitted.
/// Halting and failing each take one step.
pub open spec fn run_from(
    program: Seq<Instruction>,
    machine: Machine,
    input: Seq<u8>,
    consumed: int,
    output: Seq<u8>,
    budget: nat,
) -> Trace
    decreases budget,
{
    if budget == 0 {
        Trace { machine, output, consumed, status: Status::Suspended }
    } else {
        let offer = offered(input, consumed);
        let next = state_after(program, machine, offer);
        match step_result(program, machine, offer) {
            Err(error) => Trace { machine, output, consumed, status: Status::Failed(error) },
            Ok(Step::Halted) => Trace { machine, output, consumed, status: Status::Halted },
            Ok(Step::Wrote(byte)) => run_from(
                program,
                next,
                input,
                consumed,
                output.push(byte),
                (budget - 1) as nat,
            ),
            Ok(Step::Ran) => run_from(
                program,
                next,
                input,
                if awaits_input(program, machine) {
                    consumed + 1
                } else {
                    consumed
                },
                output,
                (budget - 1) as nat,
            ),
        }
    }
}

/// The run of at most `budget` steps of `program` from the start state on
/// the input `input`.
pub open spec fn execution(program: Seq<Instruction>, input: Seq<u8>, budget: nat) -> Trace {
    run_from(program, start(), input, 0, Seq::empty(), budget)
}

/// The budget is only a limit: a run that halted or failed within its
/// budget comes out the same with any larger one.
pub proof fn lemma_finished_run_is_final(
    program: Seq<Instruction>,
    machine: Machine,
    input: Seq<u8>,
    consumed: int,
    output: Seq<u8>,
    budget: nat,
    more: nat,
)
    requires
        run_from(program, machine, input, consumed, output, budget).status != Status::Suspended,
        budget <= more,
    ensures
        run_from(program, machine, input, consumed, output, more) == run_from(
            program,
            machine,
            input,
            consumed,
            output,
            budget,
        ),
    decreases budget,
{
    if budget > 0 {
        let offer = offered(input, consumed);
        let next = state_after(program, machine, offer);
        match step_result(program, machine, offer) {
            Ok(Step::Wrote(byte)) => {
                lemma_finished_run_is_final(
                    program,
                    next,
                    input,
                    consumed,
                    output.push(byte),
                    (budget - 1) as nat,
                    (more - 1) as nat,
                );
            },
            Ok(Step::Ran) => {
                let read = if awaits_input(program, machine) {
                    consumed + 1
                } else {
                    consumed
                };
                lemma_finished_run_is_final(
                    program,
                    next,
                    input,
                    read,
                    output,
                    (budget - 1) as nat,
                    (more - 1) as nat,
                );
            },
            _ => {},
        }
    }
}

/// A suspended run can go on: running `first` steps and, from where that
/// run stopped, `rest` more is running `first + rest` steps at once.
pub proof fn lemma_run_resumes(
    program: Seq<Instruction>,
    machine: Machine,
    input: Seq<u8>,
    consumed: int,
    output: Seq<u8>,
    first: nat,
    rest: nat,
)
    ensures
        run_from(program, machine, input, consumed, output, first + rest) == ({
            let part = run_from(program, machine, input, consumed, output, first);
            if part.status == Status::Suspended {
                run_from(program, part.machine, input, part.consumed, part.output, rest)
            } else {
                part
            }
        }),
    decreases first,
{
    if first > 0 {
        let offer = offered(input, consumed);
        let next = state_after(program, machine, offer);
        match step_result(program, machine, offer) {
            Ok(Step::Wrote(byte)) => {
                lemma_run_resumes(
                    program,
                    next,
                    input,
                    consumed,
                    output.push(byte),
                    (first - 1) as nat,
                    rest,
                );
            },
            Ok(Step::Ran) => {
                let read = if awaits_input(program, machine) {
                    consumed + 1
                } else {
                    consumed
                };
                lemma_run_resumes(program, next, input, read, output, (first - 1) as nat, rest);
            },
            _ => {},
        }
    }
}

/// A run as far as it went: how it ended, the bytes it emitted, and the
/// number of input bytes it read.
#[derive(Clone, Debug, PartialEq, Eq)]
pub struct Run {
    pub status: Status,
    pub output: Vec<u8>,
    pub consumed: usize,
}

impl Run {
    /// Whether this is the outcome of the run `trace`.
    pub open spec fn matches_trace(&self, trace: Trace) -> bool {
        &&& self.status == trace.status
        &&& self.output@ == trace.output
        &&& self.consumed == trace.consumed
    }
}

/// An interpreter for one program: it owns the program, the tape and the
/// data pointer, and runs one instruction at a time.
///
/// Its view is the state of the run.
pub struct Interpreter {
    program: Program,
    tape: Vec<u8>,
    pointer: usize,
    pc: usize,
}

impl View for Interpreter {
    type V = Machine;

    closed spec fn view(&self) -> Machine {
        Machine { cells: self.tape@, pointer: self.pointer as int, pc: self.pc as int }
    }
}

impl Interpreter {
    /// The instructions of the program that this interpreter runs.
    pub closed spec fn code(&self) -> Seq<Instruction> {
        self.program@
    }

    /// The program is well formed and the state of the run is within its
    /// bounds.
    pub open spec fn wf(&self) -> bool {
        &&& well_formed(self.code())
        &&& fits(self.code(), self@)
    }

    /// An interpreter at the start of a run of `program`.
    pub fn new(program: Program) -> (interpreter: Interpreter)
        requires
            program.wf(),
        ensures
            interpreter.wf(),
            interpreter.code() == program@,
            interpreter@ == start(),
    {
        let tape: Vec<u8> = vec![0u8; DATA_SIZE];
        assert(tape@ =~= start().cells);
        Interpreter { program, tape, pointer: 0, pc: 0 }
    }

    /// The slot of the instruction that runs next.
    pub fn pc(&self) -> (pc: usize)
        ensures
            pc == self@.pc,
    {
        self.pc
    }

    /// The cell that the data pointer is on, counted from the first.
    pub fn pointer(&self) -> (pointer: usize)
        ensures
            pointer == self@.pointer,
    {
        self.pointer
    }

    /// The value of the cell that the data pointer is on.
    pub fn cell(&self) -> (cell: u8)
        requires
            self.wf(),
        ensures
            cell == self@.cells[self@.pointer],
    {
        self.tape[self.pointer]
    }

    /// Whether the next instruction reads input.
    pub fn needs_input(&self) -> (needed: bool)
        requires
            self.wf(),
        ensures
            needed == awaits_input(self.code(), self@),
    {
        self.program.fetch(self.pc).operator == Opcode::Input
    }

    /// Runs the instruction at the program counter. `input` is the byte on
    /// offer: an `Input` instruction stores it, or fails where there is
    /// none; every other instruction leaves it alone.
    pub fn step(&mut self, input: Option<u8>) -> (done: Result<Step, ExecError>)
        requires
            old(self).wf(),
        ensures
            final(self).wf(),
            final(self).code() == old(self).code(),
            final(self)@ == state_after(old(self).code(), old(self)@, input),
            done == step_result(old(self).code(), old(self)@, input),
    {
        proof {
            lemma_step_fits(self.code(), self@, input);
        }
        let ins = self.program.fetch(self.pc);
        let cell = self.tape[self.pointer];
        match ins.operator {
            Opcode::End => {
                return Ok(Step::Halted);
            },
            Opcode::IncPtr => {
                if self.pointer + 1 >= DATA_SIZE {
                    return Err(ExecError::PointerOutOfBounds);
                }
                self.pointer = self.pointer + 1;
            },
            Opcode::DecPtr => {
                if self.pointer == 0 {
                    return Err(ExecError::PointerOutOfBounds);
                }
                self.pointer = self.pointer - 1;
            },
            Opcode::IncCell => {
                self.tape[self.pointer] = cell.wrapping_add(1);
            },
            Opcode::DecCell => {
                self.tape[self.pointer] = cell.wrapping_sub(1);
            },
            Opcode::Output => {
                self.pc = self.pc + 1;
                return Ok(Step::Wrote(cell));
            },
            Opcode::Input => {
                match input {
                    Some(byte) => {
                        self.tape[self.pointer] = byte;
                    },
                    None => {
                        return Err(ExecError::InputClosed);
                    },
                }
            },
            Opcode::JumpIfZero => {
                if cell == 0 {
                    self.pc = ins.operand;
                }
            },
            Opcode::JumpIfNonZero => {
                if cell != 0 {
                    self.pc = ins.operand;
                }
            },
        }
        self.pc = self.pc + 1;
        Ok(Step::Ran)
    }

    /// Runs the program on, for at most `budget` steps, reading from
    /// `input` and collecting what is emitted.
    pub fn run(&mut self, input: &[u8], budget: u64) -> (run: Run)
        requires
            old(self).wf(),
        ensures
            final(self).wf(),
            final(self).code() == old(self).code(),
            run.matches_trace(
                run_from(old(self).code(), old(self)@, input@, 0, Seq::empty(), budget as nat),
            ),
            final(self)@ == run_from(
                old(self).code(),
                old(self)@,
                input@,
                0,
                Seq::empty(),
                budget as nat,
            ).machine,
    {
        let ghost code = self.code();
        let ghost origin = self@;
        let mut output: Vec<u8> = Vec::new();
        let mut consumed: usize = 0;
        let mut left = budget;
        while left > 0
            invariant
                self.wf(),
                self.code() == code,
                code == old(self).code(),
                origin == old(self)@,
                consumed <= input.len(),
                run_from(code, origin, input@, 0, Seq::empty(), budget as nat) == run_from(
                    code,
                    self@,
                    input@,
                    consumed as int,
                    output@,
                    left as nat,
                ),
            decreases left,
        {
            let offer = if consumed < input.len() {
                Some(input[consumed])
            } else {
                None
            };
            let reads = self.needs_input();
            match self.step(offer) {
                Err(error) => {
                    return Run { status: Status::Failed(error), output, consumed };
                },
                Ok(Step::Halted) => {
                    return Run { status: Status::Halted, output, consumed };
                },
                Ok(Step::Wrote(byte)) => {
                    output.push(byte);
                },
                Ok(Step::Ran) => {
                    if reads {
                        consumed = consumed + 1;
                    }
                },
            }
            left = left - 1;
        }
        Run { status: Status::Suspended, output, consumed }
    }
}

/// Runs `program` from the start state for at most `budget` steps, reading
/// from `input` and collecting what is emitted.
pub fn execute(program: Program, input: &[u8], budget: u64) -> (run: Run)
    requires
        program.wf(),
    ensures
        run.matches_trace(execution(program@, input@, budget as nat)),
{
    let mut interpreter = Interpreter::new(program);
    interpreter.run(input, budget)
}

} // verus!
