//! What holds of every compilation: which sources compile, which error a
//! source with a stray bracket gets, and what a compiled program looks like.

use vstd::prelude::*;
use crate::compiler::{
    compilation, encoding, fault, lemma_encoding_well_formed, lemma_scan_fault_stays, outcome,
    scan_fault, CompileError,
};
use crate::instruction::{Instruction, PROGRAM_SIZE, STACK_SIZE};
use crate::nesting::{
    balanced, closes_matched, depth, encloses, lemma_balanced_by_depth, lemma_close_is_opened,
    lemma_closes_matched_never_negative, lemma_first_dip, lemma_level_push, lemma_level_take,
    lemma_open_is_closed, level,
};
use crate::program::{well_formed, Program};
use crate::syntax::{
    is_symbol, lemma_position, lemma_symbols_are_symbols, lemma_symbols_of_text,
    lemma_symbols_prefix, lemma_symbols_step, symbols, LOOP_CLOSE, LOOP_OPEN,
};

verus! {

/// Whether the first `m` symbols of `text` can be taken in without an
/// error: each finds a free slot, no loop end finds the stack empty, and no
/// loop start finds it full.
pub open spec fn admissible(text: Seq<u8>, m: int) -> bool {
    &&& 0 <= m <= text.len()
    &&& m <= PROGRAM_SIZE
    &&& forall|k: int| 0 <= k <= m ==> #[trigger] level(text, k) >= 0
    &&& forall|k: int| 0 <= k <= m ==> #[trigger] level(text, k) <= STACK_SIZE
}

/// A source whose symbols are admissible up to those of its first `i`
/// bytes raises no error within those bytes.
proof fn lemma_admissible_scans_clean(source: Seq<u8>, i: int)
    requires
        0 <= i <= source.len(),
        admissible(symbols(source), symbols(source.take(i)).len() as int),
    ensures
        scan_fault(source.take(i)) is None,
    decreases i,
{
    if i > 0 {
        let text = symbols(source);
        let seen = symbols(source.take(i - 1));
        let byte = source[i - 1];
        let m = seen.len() as int;
        assert(source.take(i).drop_last() =~= source.take(i - 1));
        lemma_symbols_step(source, i - 1);
        lemma_symbols_prefix(source, i - 1);
        lemma_symbols_prefix(source, i);
        lemma_admissible_scans_clean(source, i - 1);
        lemma_level_take(text, m, m);
        if is_symbol(byte) {
            assert(text.take(m + 1)[m] == byte);
            assert(level(text, m + 1) >= 0);
            assert(level(text, m + 1) <= STACK_SIZE);
        }
        assert(fault(seen, byte) is None);
    }
}

/// The symbols of a source that raises no error are admissible.
proof fn lemma_clean_scan_admissible(source: Seq<u8>)
    requires
        scan_fault(source) is None,
    ensures
        admissible(symbols(source), symbols(source).len() as int),
    decreases source.len(),
{
    reveal(Seq::filter);
    if source.len() > 0 {
        let front = source.drop_last();
        let seen = symbols(front);
        let byte = source.last();
        lemma_clean_scan_admissible(front);
        assert(fault(seen, byte) is None);
        if is_symbol(byte) {
            lemma_level_push(seen, byte);
            let text = seen.push(byte);
            assert forall|k: int| 0 <= k <= text.len() implies #[trigger] level(text, k) >= 0 by {
                if k <= seen.len() {
                    assert(level(seen, k) >= 0);
                }
            }
            assert forall|k: int| 0 <= k <= text.len() implies #[trigger] level(text, k)
                <= STACK_SIZE by {
                if k <= seen.len() {
                    assert(level(seen, k) <= STACK_SIZE);
                }
            }
        }
    }
}

/// A source raises no error while its bytes are taken in exactly when all
/// of its symbols are admissible.
pub proof fn lemma_scan_is_clean_iff_admissible(source: Seq<u8>)
    ensures
        scan_fault(source) is None <==> admissible(
            symbols(source),
            symbols(source).len() as int,
        ),
{
    if scan_fault(source) is None {
        lemma_clean_scan_admissible(source);
    }
    if admissible(symbols(source), symbols(source).len() as int) {
        assert(source.take(source.len() as int) =~= source);
        lemma_admissible_scans_clean(source, source.len() as int);
    }
}

/// A source in which every loop start has its loop end and every loop end
/// its loop start compiles, provided it fits: fewer symbols than the
/// program has slots, and never more loops open than the stack holds. No
/// loop is open when it ends.
pub proof fn lemma_balanced_source_compiles(source: Seq<u8>)
    requires
        balanced(symbols(source)),
        symbols(source).len() < PROGRAM_SIZE,
        forall|k: int|
            0 <= k <= symbols(source).len() ==> #[trigger] level(symbols(source), k) <= STACK_SIZE,
    ensures
        compilation(source) == Ok::<Seq<Instruction>, CompileError>(encoding(symbols(source))),
        depth(symbols(source)) == 0,
{
    let text = symbols(source);
    lemma_balanced_by_depth(text);
    assert(source.take(source.len() as int) =~= source);
    lemma_admissible_scans_clean(source, source.len() as int);
}

/// A source with a loop start that has no loop end fails with
/// `UnmatchedOpen`, provided every loop end has its loop start, the symbols
/// fit the program, and never more loops are open than the stack holds.
pub proof fn lemma_unmatched_open_fails(source: Seq<u8>, open: int)
    requires
        0 <= open < symbols(source).len(),
        symbols(source)[open] == LOOP_OPEN,
        forall|close: int| !encloses(symbols(source), open, close),
        closes_matched(symbols(source)),
        symbols(source).len() <= PROGRAM_SIZE,
        forall|k: int|
            0 <= k <= symbols(source).len() ==> #[trigger] level(symbols(source), k) <= STACK_SIZE,
    ensures
        compilation(source) == Err::<Seq<Instruction>, CompileError>(CompileError::UnmatchedOpen),
{
    let text = symbols(source);
    lemma_closes_matched_never_negative(text);
    assert(source.take(source.len() as int) =~= source);
    lemma_admissible_scans_clean(source, source.len() as int);
    assert(level(text, open) >= 0);
    if depth(text) <= 0 {
        let close = lemma_open_is_closed(text, open, text.len() as int);
    }
}

/// A source with a loop end that has no loop start fails with
/// `UnmatchedClose`, provided the symbols before that loop end fit the
/// program and never have more loops open than the stack holds.
pub proof fn lemma_unmatched_close_fails(source: Seq<u8>, close: int)
    requires
        0 <= close < symbols(source).len(),
        symbols(source)[close] == LOOP_CLOSE,
        forall|open: int| !encloses(symbols(source), open, close),
        close <= PROGRAM_SIZE,
        forall|k: int| 0 <= k <= close ==> #[trigger] level(symbols(source), k) <= STACK_SIZE,
    ensures
        compilation(source) == Err::<Seq<Instruction>, CompileError>(CompileError::UnmatchedClose),
{
    let text = symbols(source);
    if forall|k: int| 0 <= k <= close + 1 ==> #[trigger] level(text, k) >= 0 {
        assert(level(text, 0) <= level(text, close + 1));
        let open = lemma_close_is_opened(text, close, 0);
        assert(false);
    }
    let dip = choose|k: int| 0 <= k <= close + 1 && #[trigger] level(text, k) < 0;
    let first = lemma_first_dip(text, dip);
    let i = lemma_position(source, first);
    lemma_admissible_scans_clean(source, i);
    lemma_symbols_prefix(source, i);
    lemma_level_take(text, first, first);
    assert(source.take(i + 1).drop_last() =~= source.take(i));
    assert(fault(symbols(source.take(i)), source[i]) == Some(CompileError::UnmatchedClose));
    lemma_scan_fault_stays(source, i + 1);
}

/// In every compiled program each jump names its partner, which names it
/// back, and the program holds the one instruction for each symbol of its
/// source.
pub proof fn lemma_compiled_program_is_well_formed(source: Seq<u8>)
    requires
        compilation(source) is Ok,
    ensures
        compilation(source) == Ok::<Seq<Instruction>, CompileError>(encoding(symbols(source))),
        well_formed(encoding(symbols(source))),
        balanced(symbols(source)),
{
    let text = symbols(source);
    lemma_clean_scan_admissible(source);
    assert(level(text, text.len() as int) >= 0);
    lemma_balanced_by_depth(text);
    lemma_symbols_are_symbols(source);
    lemma_encoding_well_formed(text);
}

/// The first error of a source is the first error of its symbols alone.
pub proof fn lemma_scan_fault_by_symbols(source: Seq<u8>)
    ensures
        scan_fault(source) == scan_fault(symbols(source)),
    decreases source.len(),
{
    reveal(Seq::filter);
    if source.len() > 0 {
        let front = source.drop_last();
        let byte = source.last();
        lemma_scan_fault_by_symbols(front);
        if is_symbol(byte) {
            let text = symbols(front).push(byte);
            lemma_symbols_are_symbols(front);
            lemma_symbols_of_text(symbols(front));
            assert(text.drop_last() =~= symbols(front));
        }
    }
}

/// Bytes that are no symbols make no difference: two sources with the same
/// symbols compile to the same program, or fail with the same error.
pub proof fn lemma_other_bytes_are_ignored(a: Seq<u8>, b: Seq<u8>)
    requires
        symbols(a) == symbols(b),
    ensures
        compilation(a) == compilation(b),
{
    lemma_scan_fault_by_symbols(a);
    lemma_scan_fault_by_symbols(b);
}

/// Compiling is a function of the source: two calls of `compile` on the
/// same bytes give programs with the same instructions, or the same error.
pub proof fn lemma_compile_is_deterministic(
    source: Seq<u8>,
    first: Result<Program, CompileError>,
    second: Result<Program, CompileError>,
)
    requires
        outcome(first) == compilation(source),
        outcome(second) == compilation(source),
    ensures
        outcome(first) == outcome(second),
        first matches Ok(program) ==> second is Ok && second.unwrap()@ == program@,
        first matches Err(error) ==> second == Err::<Program, CompileError>(error),
{
}

} // verus!
