//! The source language: its eight symbols and the nesting of its loop
//! brackets.

use vstd::prelude::*;
use crate::instruction::Opcode;

verus! {

/// `>`: move the data pointer right.
pub const MOVE_RIGHT: u8 = 62;

/// `<`: move the data pointer left.
pub const MOVE_LEFT: u8 = 60;

/// `+`: add one to the current cell.
pub const INCREMENT: u8 = 43;

/// `-`: subtract one from the current cell.
pub const DECREMENT: u8 = 45;

/// `.`: emit the current cell.
pub const WRITE: u8 = 46;

/// `,`: read a byte into the current cell.
pub const READ: u8 = 44;

/// `[`: start of a loop.
pub const LOOP_OPEN: u8 = 91;

/// `]`: end of a loop.
pub const LOOP_CLOSE: u8 = 93;

/// The opcode that a source byte stands for; `None` for every byte that is
/// not one of the eight symbols.
pub open spec fn opcode_of(byte: u8) -> Option<Opcode> {
    if byte == MOVE_RIGHT {
        Some(Opcode::IncPtr)
    } else if byte == MOVE_LEFT {
        Some(Opcode::DecPtr)
    } else if byte == INCREMENT {
        Some(Opcode::IncCell)
    } else if byte == DECREMENT {
        Some(Opcode::DecCell)
    } else if byte == WRITE {
        Some(Opcode::Output)
    } else if byte == READ {
        Some(Opcode::Input)
    } else if byte == LOOP_OPEN {
        Some(Opcode::JumpIfZero)
    } else if byte == LOOP_CLOSE {
        Some(Opcode::JumpIfNonZero)
    } else {
        None
    }
}

/// Whether `byte` is one of the eight symbols of the language.
pub open spec fn is_symbol(byte: u8) -> bool {
    opcode_of(byte) is Some
}

/// Decodes one source byte.
pub fn decode(byte: u8) -> (op: Option<Opcode>)
    ensures
        op == opcode_of(byte),
{
    if byte == MOVE_RIGHT {
        Some(Opcode::IncPtr)
    } else if byte == MOVE_LEFT {
        Some(Opcode::DecPtr)
    } else if byte == INCREMENT {
        Some(Opcode::IncCell)
    } else if byte == DECREMENT {
        Some(Opcode::DecCell)
    } else if byte == WRITE {
        Some(Opcode::Output)
    } else if byte == READ {
        Some(Opcode::Input)
    } else if byte == LOOP_OPEN {
        Some(Opcode::JumpIfZero)
    } else if byte == LOOP_CLOSE {
        Some(Opcode::JumpIfNonZero)
    } else {
        None
    }
}

/// The symbol that an opcode is written as; `End` is written as no symbol
/// and gets the byte zero.
pub open spec fn symbol_of(op: Opcode) -> u8 {
    match op {
        Opcode::End => 0,
        Opcode::IncPtr => MOVE_RIGHT,
        Opcode::DecPtr => MOVE_LEFT,
        Opcode::IncCell => INCREMENT,
        Opcode::DecCell => DECREMENT,
        Opcode::Output => WRITE,
        Opcode::Input => READ,
        Opcode::JumpIfZero => LOOP_OPEN,
        Opcode::JumpIfNonZero => LOOP_CLOSE,
    }
}

/// The symbols of a source text in their order, with every other byte
/// left out.
pub open spec fn symbols(source: Seq<u8>) -> Seq<u8> {
    source.filter(|byte: u8| is_symbol(byte))
}

/// The symbols of a source grow by its next byte where that byte is a
/// symbol, and stay as they are where it is not.
pub proof fn lemma_symbols_step(source: Seq<u8>, i: int)
    requires
        0 <= i < source.len(),
    ensures
        symbols(source.take(i + 1)) == (if is_symbol(source[i]) {
            symbols(source.take(i)).push(source[i])
        } else {
            symbols(source.take(i))
        }),
{
    reveal(Seq::filter);
    assert(source.take(i + 1).drop_last() =~= source.take(i));
}

/// The symbols of the first `i` bytes of a source are the first symbols of
/// the whole source.
pub proof fn lemma_symbols_prefix(source: Seq<u8>, i: int)
    requires
        0 <= i <= source.len(),
    ensures
        symbols(source.take(i)).len() <= symbols(source).len(),
        symbols(source.take(i)) == symbols(source).take(symbols(source.take(i)).len() as int),
{
    let pred = |byte: u8| is_symbol(byte);
    assert(source =~= source.take(i) + source.skip(i));
    Seq::filter_distributes_over_add(source.take(i), source.skip(i), pred);
    assert(symbols(source) == symbols(source.take(i)) + symbols(source.skip(i)));
    assert(symbols(source).take(symbols(source.take(i)).len() as int) =~= symbols(
        source.take(i),
    ));
}

/// Every member of the symbols of a source is a symbol.
pub proof fn lemma_symbols_are_symbols(source: Seq<u8>)
    ensures
        forall|j: int| 0 <= j < symbols(source).len() ==> is_symbol(#[trigger] symbols(source)[j]),
{
    let pred = |byte: u8| is_symbol(byte);
    assert forall|j: int| 0 <= j < symbols(source).len() implies is_symbol(
        #[trigger] symbols(source)[j],
    ) by {
        source.lemma_filter_pred(pred, j);
    }
}

/// The byte of the source that the symbol at slot `j` comes from.
pub proof fn lemma_position(source: Seq<u8>, j: int) -> (i: int)
    requires
        0 <= j < symbols(source).len(),
    ensures
        0 <= i < source.len(),
        source[i] == symbols(source)[j],
        symbols(source.take(i)).len() == j,
    decreases source.len(),
{
    reveal(Seq::filter);
    let front = source.drop_last();
    if j < symbols(front).len() {
        let i = lemma_position(front, j);
        assert(front.take(i) =~= source.take(i));
        i
    } else {
        let i = source.len() - 1;
        assert(source.take(i) =~= front);
        i
    }
}

/// A text that holds nothing but symbols is its own sequence of symbols.
pub proof fn lemma_symbols_of_text(text: Seq<u8>)
    requires
        forall|i: int| 0 <= i < text.len() ==> is_symbol(#[trigger] text[i]),
    ensures
        symbols(text) == text,
    decreases text.len(),
{
    reveal(Seq::filter);
    if text.len() > 0 {
        assert(is_symbol(text[text.len() - 1]));
        lemma_symbols_of_text(text.drop_last());
        assert(text.drop_last().push(text.last()) =~= text);
    }
}

} // verus!
