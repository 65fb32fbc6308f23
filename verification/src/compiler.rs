//! The compiler: from source bytes to a program with resolved jumps.

use vstd::prelude::*;
use crate::instruction::{Instruction, Opcode, PROGRAM_SIZE, STACK_SIZE};
use crate::program::{slot_well_formed, well_formed, Program};
use crate::stack::BracketStack;
use crate::nesting::{
    balanced, depth, encloses, lemma_balanced_by_depth, lemma_level_push, lemma_partner, level,
    nesting_change, never_negative, partner, unclosed,
};
use crate::syntax::{
    decode, is_symbol, lemma_symbols_step, opcode_of, symbol_of, symbols, LOOP_CLOSE, LOOP_OPEN,
};

verus! {

/// Why a source text does not compile.
#[derive(Clone, Copy, Debug, PartialEq, Eq, Structural)]
pub enum CompileError {
    /// More than [`STACK_SIZE`] loops are open at once.
    StackOverflow,
    /// A loop end without a loop start.
    UnmatchedClose,
    /// A loop start without a loop end.
    UnmatchedOpen,
    /// The program and its terminator need more than [`PROGRAM_SIZE`] slots.
    ProgramTooLarge,
}

/// The error that `byte` raises when it follows the symbols `seen`, if it
/// raises one. A loop bracket is checked against the open loops before any
/// symbol is checked against the room left in the program.
pub open spec fn fault(seen: Seq<u8>, byte: u8) -> Option<CompileError> {
    if byte == LOOP_OPEN && depth(seen) >= STACK_SIZE {
        Some(CompileError::StackOverflow)
    } else if byte == LOOP_CLOSE && depth(seen) <= 0 {
        Some(CompileError::UnmatchedClose)
    } else if is_symbol(byte) && seen.len() >= PROGRAM_SIZE {
        Some(CompileError::ProgramTooLarge)
    } else {
        None
    }
}

/// The first error raised while the bytes of `source` are taken in order.
pub open spec fn scan_fault(source: Seq<u8>) -> Option<CompileError>
    decreases source.len(),
{
    if source.len() == 0 {
        None
    } else {
        match scan_fault(source.drop_last()) {
            Some(error) => Some(error),
            None => fault(symbols(source.drop_last()), source.last()),
        }
    }
}

/// The instruction that stands for the symbol at `slot`: its opcode and,
/// for a loop bracket, the slot of its partner.
pub open spec fn instruction_at(text: Seq<u8>, slot: int) -> Instruction {
    Instruction {
        operator: opcode_of(text[slot]).unwrap(),
        operand: if text[slot] == LOOP_OPEN || text[slot] == LOOP_CLOSE {
            partner(text, slot) as usize
        } else {
            0
        },
    }
}

/// The program for the symbols `text`: one instruction for each symbol,
/// then `End`.
pub open spec fn encoding(text: Seq<u8>) -> Seq<Instruction> {
    Seq::new(
        text.len() + 1,
        |slot: int|
            if slot < text.len() {
                instruction_at(text, slot)
            } else {
                Instruction { operator: Opcode::End, operand: 0 }
            },
    )
}

/// What becomes of the symbols `text` once no more follow: a loop that is
/// still open is an error, and so is a text that leaves no slot for the
/// terminator.
pub open spec fn completion(text: Seq<u8>) -> Result<Seq<Instruction>, CompileError> {
    if depth(text) > 0 {
        Err(CompileError::UnmatchedOpen)
    } else if text.len() >= PROGRAM_SIZE {
        Err(CompileError::ProgramTooLarge)
    } else {
        Ok(encoding(text))
    }
}

/// What `source` compiles to.
pub open spec fn compilation(source: Seq<u8>) -> Result<Seq<Instruction>, CompileError> {
    match scan_fault(source) {
        Some(error) => Err(error),
        None => completion(symbols(source)),
    }
}

/// What a call of [`compile`] came to, with the program seen as its
/// instructions.
pub open spec fn outcome(compiled: Result<Program, CompileError>) -> Result<
    Seq<Instruction>,
    CompileError,
> {
    match compiled {
        Ok(program) => Ok(program@),
        Err(error) => Err(error),
    }
}

/// What the compiler knows of the loop start that sits at height `d` of the
/// stack: it is at depth `d` and no symbol behind it closes it.
spec fn pending_ok(text: Seq<u8>, stack: Seq<usize>, d: int) -> bool {
    &&& unclosed(text, stack[d] as int, text.len() as int)
    &&& level(text, stack[d] as int) == d
}

/// What the compiler knows of the instruction at slot `i`.
spec fn slot_ok(text: Seq<u8>, code: Seq<Instruction>, stack: Seq<usize>, i: int) -> bool {
    &&& opcode_of(text[i]) == Some(code[i].operator)
    &&& if text[i] == LOOP_OPEN {
        ||| encloses(text, i, code[i].operand as int)
        ||| {
            &&& code[i].operand == 0
            &&& 0 <= level(text, i) < stack.len()
            &&& stack[level(text, i)] == i
        }
    } else if text[i] == LOOP_CLOSE {
        encloses(text, code[i].operand as int, i)
    } else {
        code[i].operand == 0
    }
}

/// How the instructions emitted so far and the stack of open loops relate
/// to the symbols taken in so far.
spec fn consistent(text: Seq<u8>, code: Seq<Instruction>, stack: Seq<usize>) -> bool {
    &&& code.len() == text.len()
    &&& never_negative(text)
    &&& stack.len() == depth(text)
    &&& forall|d: int| 0 <= d < stack.len() ==> #[trigger] pending_ok(text, stack, d)
    &&& forall|i: int| 0 <= i < text.len() ==> #[trigger] slot_ok(text, code, stack, i)
}

/// Loop pairs found among the symbols taken in stay pairs when another
/// symbol follows.
proof fn lemma_encloses_push(text: Seq<u8>, byte: u8, open: int, close: int)
    requires
        encloses(text, open, close),
    ensures
        encloses(text.push(byte), open, close),
{
    lemma_level_push(text, byte);
}

/// A loop stays open when the symbol that follows leaves the depth above
/// the depth at which the loop started.
proof fn lemma_unclosed_push(text: Seq<u8>, byte: u8, open: int)
    requires
        unclosed(text, open, text.len() as int),
        depth(text) + nesting_change(byte) > level(text, open),
    ensures
        unclosed(text.push(byte), open, text.len() as int + 1),
        level(text.push(byte), open) == level(text, open),
{
    lemma_level_push(text, byte);
}

/// Taking in a symbol that is no loop bracket.
proof fn lemma_take_plain(
    text: Seq<u8>,
    code: Seq<Instruction>,
    stack: Seq<usize>,
    byte: u8,
    op: Opcode,
)
    requires
        consistent(text, code, stack),
        opcode_of(byte) == Some(op),
        byte != LOOP_OPEN,
        byte != LOOP_CLOSE,
    ensures
        consistent(text.push(byte), code.push(Instruction { operator: op, operand: 0 }), stack),
{
    let text2 = text.push(byte);
    let code2 = code.push(Instruction { operator: op, operand: 0 });
    lemma_level_push(text, byte);
    assert forall|d: int| 0 <= d < stack.len() implies #[trigger] pending_ok(text2, stack, d) by {
        assert(pending_ok(text, stack, d));
        lemma_unclosed_push(text, byte, stack[d] as int);
    }
    assert forall|i: int| 0 <= i < text2.len() implies #[trigger] slot_ok(
        text2,
        code2,
        stack,
        i,
    ) by {
        if i < text.len() {
            assert(slot_ok(text, code, stack, i));
            if text[i] == LOOP_OPEN {
                if encloses(text, i, code[i].operand as int) {
                    lemma_encloses_push(text, byte, i, code[i].operand as int);
                }
            } else if text[i] == LOOP_CLOSE {
                lemma_encloses_push(text, byte, code[i].operand as int, i);
            }
        }
    }
}

/// Taking in a loop start: its slot goes on the stack.
proof fn lemma_take_open(text: Seq<u8>, code: Seq<Instruction>, stack: Seq<usize>)
    requires
        consistent(text, code, stack),
        text.len() <= usize::MAX,
    ensures
        consistent(
            text.push(LOOP_OPEN),
            code.push(Instruction { operator: Opcode::JumpIfZero, operand: 0 }),
            stack.push(text.len() as usize),
        ),
{
    let n = text.len() as int;
    let text2 = text.push(LOOP_OPEN);
    let code2 = code.push(Instruction { operator: Opcode::JumpIfZero, operand: 0 });
    let stack2 = stack.push(n as usize);
    lemma_level_push(text, LOOP_OPEN);
    assert forall|d: int| 0 <= d < stack2.len() implies #[trigger] pending_ok(
        text2,
        stack2,
        d,
    ) by {
        if d < stack.len() {
            assert(pending_ok(text, stack, d));
            lemma_unclosed_push(text, LOOP_OPEN, stack[d] as int);
        }
    }
    assert forall|i: int| 0 <= i < text2.len() implies #[trigger] slot_ok(
        text2,
        code2,
        stack2,
        i,
    ) by {
        if i < n {
            assert(slot_ok(text, code, stack, i));
            if text[i] == LOOP_OPEN {
                if encloses(text, i, code[i].operand as int) {
                    lemma_encloses_push(text, LOOP_OPEN, i, code[i].operand as int);
                }
            } else if text[i] == LOOP_CLOSE {
                lemma_encloses_push(text, LOOP_OPEN, code[i].operand as int, i);
            }
        }
    }
}

/// Taking in a loop end: the loop start on top of the stack is its
/// partner, and each of the two gets the other's slot.
proof fn lemma_take_close(text: Seq<u8>, code: Seq<Instruction>, stack: Seq<usize>)
    requires
        consistent(text, code, stack),
        stack.len() > 0,
        text.len() <= usize::MAX,
    ensures
        stack.last() < text.len(),
        code[stack.last() as int].operator == Opcode::JumpIfZero,
        consistent(
            text.push(LOOP_CLOSE),
            code.push(Instruction { operator: Opcode::JumpIfNonZero, operand: stack.last() })
                .update(
                stack.last() as int,
                Instruction { operator: Opcode::JumpIfZero, operand: text.len() as usize },
            ),
            stack.drop_last(),
        ),
{
    let n = text.len() as int;
    let open = stack.last() as int;
    let top = stack.len() - 1;
    let text2 = text.push(LOOP_CLOSE);
    let code2 = code.push(Instruction { operator: Opcode::JumpIfNonZero, operand: stack.last() })
        .update(open, Instruction { operator: Opcode::JumpIfZero, operand: n as usize });
    let stack2 = stack.drop_last();
    lemma_level_push(text, LOOP_CLOSE);
    assert(pending_ok(text, stack, top));
    assert(slot_ok(text, code, stack, open));
    assert(encloses(text2, open, n));
    assert forall|d: int| 0 <= d < stack2.len() implies #[trigger] pending_ok(
        text2,
        stack2,
        d,
    ) by {
        assert(pending_ok(text, stack, d));
        lemma_unclosed_push(text, LOOP_CLOSE, stack[d] as int);
    }
    assert forall|i: int| 0 <= i < text2.len() implies #[trigger] slot_ok(
        text2,
        code2,
        stack2,
        i,
    ) by {
        if i < n && i != open {
            assert(slot_ok(text, code, stack, i));
            if text[i] == LOOP_OPEN {
                if encloses(text, i, code[i].operand as int) {
                    lemma_encloses_push(text, LOOP_CLOSE, i, code[i].operand as int);
                }
            } else if text[i] == LOOP_CLOSE {
                lemma_encloses_push(text, LOOP_CLOSE, code[i].operand as int, i);
            }
        }
    }
}

/// The program for a text in which every loop bracket has its partner is
/// well formed: each jump names its partner, which names it back.
pub proof fn lemma_encoding_well_formed(text: Seq<u8>)
    requires
        balanced(text),
        text.len() < PROGRAM_SIZE,
        forall|i: int| 0 <= i < text.len() ==> is_symbol(#[trigger] text[i]),
    ensures
        well_formed(encoding(text)),
{
    let program = encoding(text);
    assert forall|pc: int| 0 <= pc < program.len() implies #[trigger] slot_well_formed(
        program,
        pc,
    ) by {
        if pc < text.len() {
            if text[pc] == LOOP_OPEN {
                let close = choose|close: int| encloses(text, pc, close);
                lemma_partner(text, pc, close);
            } else if text[pc] == LOOP_CLOSE {
                let open = choose|open: int| encloses(text, open, pc);
                lemma_partner(text, open, pc);
            }
        }
    }
}

/// With no loop open, the instruction at slot `i` is the one that stands
/// for the symbol there.
proof fn lemma_slot_complete(text: Seq<u8>, code: Seq<Instruction>, stack: Seq<usize>, i: int)
    requires
        consistent(text, code, stack),
        stack.len() == 0,
        0 <= i < text.len(),
    ensures
        code[i] == instruction_at(text, i),
        is_symbol(text[i]),
{
    assert(slot_ok(text, code, stack, i));
    if text[i] == LOOP_OPEN {
        lemma_partner(text, i, code[i].operand as int);
    } else if text[i] == LOOP_CLOSE {
        lemma_partner(text, code[i].operand as int, i);
    }
}

/// When the last loop is closed, the instructions with `End` behind them
/// are the program for the symbols, and it is well formed.
proof fn lemma_complete(text: Seq<u8>, code: Seq<Instruction>, stack: Seq<usize>)
    requires
        consistent(text, code, stack),
        stack.len() == 0,
        text.len() < PROGRAM_SIZE,
    ensures
        code.push(Instruction { operator: Opcode::End, operand: 0 }) == encoding(text),
        well_formed(encoding(text)),
{
    let program = code.push(Instruction { operator: Opcode::End, operand: 0 });
    assert forall|i: int| 0 <= i < text.len() implies #[trigger] program[i] == instruction_at(
        text,
        i,
    ) by {
        lemma_slot_complete(text, code, stack, i);
    }
    assert(program =~= encoding(text));
    assert forall|i: int| 0 <= i < text.len() implies is_symbol(#[trigger] text[i]) by {
        lemma_slot_complete(text, code, stack, i);
    }
    lemma_balanced_by_depth(text);
    lemma_encoding_well_formed(text);
}

/// An error raised within the first `k` bytes of a source is the error of
/// the whole source.
pub proof fn lemma_scan_fault_stays(source: Seq<u8>, k: int)
    requires
        0 <= k <= source.len(),
        scan_fault(source.take(k)) is Some,
    ensures
        scan_fault(source) == scan_fault(source.take(k)),
    decreases source.len(),
{
    if k == source.len() {
        assert(source.take(k) =~= source);
    } else {
        assert(source.drop_last().take(k) =~= source.take(k));
        lemma_scan_fault_stays(source.drop_last(), k);
    }
}

/// The symbols that the instructions `code` stand for.
spec fn written(code: Seq<Instruction>) -> Seq<u8> {
    Seq::new(code.len(), |i: int| symbol_of(code[i].operator))
}

/// A compiler that takes its source one byte at a time.
///
/// Its view is the sequence of the symbols it has taken in so far.
pub struct Compiler {
    code: Vec<Instruction>,
    stack: BracketStack,
}

impl View for Compiler {
    type V = Seq<u8>;

    closed spec fn view(&self) -> Seq<u8> {
        written(self.code@)
    }
}

impl Compiler {
    /// The instructions and the stack agree with the symbols taken in, and
    /// both are within their bounds.
    pub closed spec fn wf(&self) -> bool {
        &&& self.code@.len() <= PROGRAM_SIZE
        &&& self.stack.wf()
        &&& consistent(self@, self.code@, self.stack@)
    }

    /// The slots of the loops that are still open, outermost first.
    pub closed spec fn open_loops(&self) -> Seq<usize> {
        self.stack@
    }

    /// The stack holds the loop starts that no symbol taken in so far
    /// closes, one for each level of nesting.
    pub proof fn lemma_open_loops(&self)
        requires
            self.wf(),
        ensures
            self.open_loops().len() == depth(self@),
            (forall|d: int|
                0 <= d < self.open_loops().len() ==> {
                    let open = (#[trigger] self.open_loops()[d]) as int;
                    &&& unclosed(self@, open, self@.len() as int)
                    &&& level(self@, open) == d
                }),
    {
        assert forall|d: int| 0 <= d < self.open_loops().len() implies {
            let open = (#[trigger] self.open_loops()[d]) as int;
            &&& unclosed(self@, open, self@.len() as int)
            &&& level(self@, open) == d
        } by {
            assert(pending_ok(self@, self.stack@, d));
        }
    }

    /// A compiler that has seen nothing yet.
    pub fn new() -> (compiler: Compiler)
        ensures
            compiler.wf(),
            compiler@ == Seq::<u8>::empty(),
            compiler.open_loops() == Seq::<usize>::empty(),
    {
        let compiler = Compiler {
            code: Vec::with_capacity(PROGRAM_SIZE),
            stack: BracketStack::new(),
        };
        assert(compiler@ =~= Seq::<u8>::empty());
        compiler
    }

    /// Takes in the next byte of the source. A byte that is no symbol
    /// changes nothing; a symbol becomes the next instruction, unless it
    /// raises an error, which leaves the compiler as it was.
    pub fn feed(&mut self, byte: u8) -> (taken: Result<(), CompileError>)
        requires
            old(self).wf(),
        ensures
            final(self).wf(),
            (match taken {
                Ok(()) => {
                    &&& fault(old(self)@, byte) is None
                    &&& final(self)@ == if is_symbol(byte) {
                        old(self)@.push(byte)
                    } else {
                        old(self)@
                    }
                },
                Err(error) => {
                    &&& fault(old(self)@, byte) == Some(error)
                    &&& final(self)@ == old(self)@
                    &&& final(self).open_loops() == old(self).open_loops()
                },
            }),
            final(self).open_loops().len() == depth(final(self)@),
    {
        let op = match decode(byte) {
            Some(op) => op,
            None => {
                return Ok(());
            },
        };
        let pc = self.code.len();
        let ghost text = self@;
        let ghost code = self.code@;
        let ghost stack = self.stack@;
        match op {
            Opcode::JumpIfZero => {
                if self.stack.is_full() {
                    return Err(CompileError::StackOverflow);
                }
                if pc >= PROGRAM_SIZE {
                    return Err(CompileError::ProgramTooLarge);
                }
                self.stack.push(pc);
                self.code.push(Instruction { operator: Opcode::JumpIfZero, operand: 0 });
                proof {
                    lemma_take_open(text, code, stack);
                }
            },
            Opcode::JumpIfNonZero => {
                if self.stack.is_empty() {
                    return Err(CompileError::UnmatchedClose);
                }
                if pc >= PROGRAM_SIZE {
                    return Err(CompileError::ProgramTooLarge);
                }
                let open = self.stack.pop();
                proof {
                    lemma_take_close(text, code, stack);
                }
                self.code.push(Instruction { operator: Opcode::JumpIfNonZero, operand: open });
                self.code[open] = Instruction { operator: Opcode::JumpIfZero, operand: pc };
            },
            _ => {
                if pc >= PROGRAM_SIZE {
                    return Err(CompileError::ProgramTooLarge);
                }
                self.code.push(Instruction { operator: op, operand: 0 });
                proof {
                    lemma_take_plain(text, code, stack, byte, op);
                }
            },
        }
        assert(self@ =~= text.push(byte));
        Ok(())
    }

    /// Ends the source: closes the program with `End`, unless a loop is
    /// still open or no slot is left for the terminator.
    pub fn finish(self) -> (done: Result<Program, CompileError>)
        requires
            self.wf(),
        ensures
            outcome(done) == completion(self@),
            done matches Ok(program) ==> program.wf() && self.open_loops().len() == 0,
    {
        if !self.stack.is_empty() {
            return Err(CompileError::UnmatchedOpen);
        }
        if self.code.len() >= PROGRAM_SIZE {
            return Err(CompileError::ProgramTooLarge);
        }
        proof {
            lemma_complete(self@, self.code@, self.stack@);
        }
        let mut code = self.code;
        code.push(Instruction { operator: Opcode::End, operand: 0 });
        Ok(Program::from_code(code))
    }
}

/// Compiles a source text: each of the eight symbols becomes one
/// instruction, every other byte is skipped, each loop bracket gets the
/// slot of its partner, and `End` closes the program.
pub fn compile(source: &[u8]) -> (compiled: Result<Program, CompileError>)
    ensures
        outcome(compiled) == compilation(source@),
        compiled matches Ok(program) ==> program.wf(),
{
    let mut compiler = Compiler::new();
    let mut i: usize = 0;
    while i < source.len()
        invariant
            i <= source.len(),
            compiler.wf(),
            compiler@ == symbols(source@.take(i as int)),
            scan_fault(source@.take(i as int)) is None,
        decreases source.len() - i,
    {
        proof {
            lemma_symbols_step(source@, i as int);
            assert(source@.take(i + 1).drop_last() =~= source@.take(i as int));
        }
        match compiler.feed(source[i]) {
            Ok(()) => {},
            Err(error) => {
                proof {
                    lemma_scan_fault_stays(source@, i + 1);
                }
                return Err(error);
            },
        }
        i += 1;
    }
    assert(source@.take(i as int) =~= source@);
    compiler.finish()
}

} // verus!
