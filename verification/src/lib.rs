//! A compiler and interpreter for an eight-symbol, bracket-structured tape
//! language.
//!
//! A source text is a sequence of bytes. Eight of them are symbols: `>` and
//! `<` move a data pointer along a tape of byte cells, `+` and `-` change
//! the cell under it, `.` and `,` write and read it, and `[` and `]` bracket
//! a loop that runs while the cell is not zero. Every other byte is a
//! comment.
//!
//! [`compile`] turns a source into a [`Program`]: one [`Instruction`] for
//! each symbol, with each loop bracket holding the slot of its partner, and
//! `End` behind the last. An [`Interpreter`] runs a program one instruction
//! at a time and leaves reading and writing to its caller; [`execute`] runs
//! it on a buffer of input for a bounded number of steps.
//!
//! ```
//! use bf_interp::{compile, execute, Status};
//!
//! let program = compile(b"++[>+++<-]>.").unwrap();
//! let run = execute(program, b"", 1000);
//! assert_eq!(run.status, Status::Halted);
//! assert_eq!(run.output, vec![6]);
//! ```

pub mod compiler;
pub mod instruction;
pub mod interpreter;
pub mod laws;
pub mod nesting;
pub mod program;
pub mod stack;
pub mod syntax;

pub use compiler::{compile, CompileError, Compiler};
pub use instruction::{Instruction, Opcode, DATA_SIZE, PROGRAM_SIZE, STACK_SIZE};
pub use interpreter::{execute, ExecError, Interpreter, Run, Status, Step};
pub use program::Program;
pub use stack::BracketStack;
