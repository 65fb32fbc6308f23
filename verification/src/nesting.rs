//! How loop brackets nest: the depth of a text of symbols, and which loop
//! start belongs together with which loop end.

use vstd::prelude::*;
use crate::syntax::{LOOP_CLOSE, LOOP_OPEN};

verus! {

/// By how much a symbol changes the nesting depth.
pub open spec fn nesting_change(symbol: u8) -> int {
    if symbol == LOOP_OPEN {
        1
    } else if symbol == LOOP_CLOSE {
        -1
    } else {
        0
    }
}

/// The nesting depth after the first `k` symbols of `text`: the number of
/// loop starts among them less the number of loop ends.
pub open spec fn level(text: Seq<u8>, k: int) -> int
    decreases k,
{
    if k <= 0 {
        0
    } else {
        level(text, k - 1) + nesting_change(text[k - 1])
    }
}

/// The nesting depth at the end of `text`.
pub open spec fn depth(text: Seq<u8>) -> int {
    level(text, text.len() as int)
}

/// Whether the loop start at `open` and the loop end at `close` belong
/// together: the depth after `close` is back to what it was before
/// `open`, and it stayed above that everywhere in between.
pub open spec fn encloses(text: Seq<u8>, open: int, close: int) -> bool {
    &&& 0 <= open < close < text.len()
    &&& text[open] == LOOP_OPEN
    &&& text[close] == LOOP_CLOSE
    &&& level(text, close + 1) == level(text, open)
    &&& forall|k: int| open < k <= close ==> #[trigger] level(text, k) > level(text, open)
}

/// Whether the loop start at `open` has no loop end among the first `n`
/// symbols.
pub open spec fn unclosed(text: Seq<u8>, open: int, n: int) -> bool {
    &&& 0 <= open < n <= text.len()
    &&& text[open] == LOOP_OPEN
    &&& forall|k: int| open < k <= n ==> #[trigger] level(text, k) > level(text, open)
}

/// The slot that the bracket at `slot` belongs together with.
pub open spec fn partner(text: Seq<u8>, slot: int) -> int {
    choose|other: int| encloses(text, slot, other) || encloses(text, other, slot)
}

/// Appending a symbol leaves the depth after every earlier symbol as it was
/// and changes the depth at the end by what the symbol adds.
pub proof fn lemma_level_push(text: Seq<u8>, symbol: u8)
    ensures
        forall|k: int|
            0 <= k <= text.len() ==> #[trigger] level(text.push(symbol), k) == level(text, k),
        depth(text.push(symbol)) == depth(text) + nesting_change(symbol),
{
    assert forall|k: int| 0 <= k <= text.len() implies #[trigger] level(text.push(symbol), k)
        == level(text, k) by {
        lemma_level_push_at(text, symbol, k);
    }
    lemma_level_push_at(text, symbol, text.len() as int);
}

proof fn lemma_level_push_at(text: Seq<u8>, symbol: u8, k: int)
    requires
        0 <= k <= text.len(),
    ensures
        level(text.push(symbol), k) == level(text, k),
    decreases k,
{
    if k > 0 {
        lemma_level_push_at(text, symbol, k - 1);
    }
}

/// A loop start has at most one loop end.
pub proof fn lemma_close_unique(text: Seq<u8>, open: int, a: int, b: int)
    requires
        encloses(text, open, a),
        encloses(text, open, b),
    ensures
        a == b,
{
    if a < b {
        assert(level(text, a + 1) > level(text, open));
    } else if b < a {
        assert(level(text, b + 1) > level(text, open));
    }
}

/// A loop end has at most one loop start.
pub proof fn lemma_open_unique(text: Seq<u8>, a: int, b: int, close: int)
    requires
        encloses(text, a, close),
        encloses(text, b, close),
    ensures
        a == b,
{
    if a < b {
        assert(level(text, b) > level(text, a));
    } else if b < a {
        assert(level(text, a) > level(text, b));
    }
}

/// The partner of a bracket is the one slot that it belongs together with.
pub proof fn lemma_partner(text: Seq<u8>, open: int, close: int)
    requires
        encloses(text, open, close),
    ensures
        partner(text, open) == close,
        partner(text, close) == open,
{
    let p = partner(text, open);
    assert(encloses(text, open, close) || encloses(text, close, open));
    assert(encloses(text, open, p));
    lemma_close_unique(text, open, p, close);
    let q = partner(text, close);
    assert(encloses(text, close, open) || encloses(text, open, close));
    assert(encloses(text, q, close));
    lemma_open_unique(text, q, open, close);
}

/// Whether every loop end of `text` has its loop start.
pub open spec fn closes_matched(text: Seq<u8>) -> bool {
    forall|close: int|
        0 <= close < text.len() && #[trigger] text[close] == LOOP_CLOSE ==> exists|open: int|
            encloses(text, open, close)
}

/// Whether every loop start of `text` has its loop end.
pub open spec fn opens_matched(text: Seq<u8>) -> bool {
    forall|open: int|
        0 <= open < text.len() && #[trigger] text[open] == LOOP_OPEN ==> exists|close: int|
            encloses(text, open, close)
}

/// Whether every loop bracket of `text` has its partner.
pub open spec fn balanced(text: Seq<u8>) -> bool {
    opens_matched(text) && closes_matched(text)
}

/// Whether the depth stays at or above zero throughout `text`.
pub open spec fn never_negative(text: Seq<u8>) -> bool {
    forall|k: int| 0 <= k <= text.len() ==> #[trigger] level(text, k) >= 0
}

/// The depth within the first `m` symbols of a text does not depend on
/// what follows them.
pub proof fn lemma_level_take(text: Seq<u8>, m: int, k: int)
    requires
        0 <= k <= m <= text.len(),
    ensures
        level(text.take(m), k) == level(text, k),
    decreases k,
{
    if k > 0 {
        lemma_level_take(text, m, k - 1);
    }
}

/// A loop start is closed before `upto` when the depth at `upto` is no
/// higher than it was before the loop start.
pub proof fn lemma_open_is_closed(text: Seq<u8>, open: int, upto: int) -> (close: int)
    requires
        0 <= open < upto <= text.len(),
        text[open] == LOOP_OPEN,
        level(text, upto) <= level(text, open),
    ensures
        encloses(text, open, close),
        close < upto,
{
    assert(level(text, open + 1) == level(text, open) + 1);
    lemma_search_close(text, open, open + 1, upto)
}

proof fn lemma_search_close(text: Seq<u8>, open: int, from: int, upto: int) -> (close: int)
    requires
        0 <= open < from <= upto <= text.len(),
        text[open] == LOOP_OPEN,
        forall|k: int| open < k <= from ==> #[trigger] level(text, k) > level(text, open),
        level(text, upto) <= level(text, open),
    ensures
        encloses(text, open, close),
        close < upto,
    decreases upto - from,
{
    assert(level(text, from) > level(text, open));
    assert(level(text, from + 1) == level(text, from) + nesting_change(text[from]));
    if level(text, from + 1) <= level(text, open) {
        from
    } else {
        lemma_search_close(text, open, from + 1, upto)
    }
}

/// A loop end is opened at or behind `downto` when the depth at `downto`
/// is no higher than it is behind the loop end.
pub proof fn lemma_close_is_opened(text: Seq<u8>, close: int, downto: int) -> (open: int)
    requires
        0 <= downto <= close < text.len(),
        text[close] == LOOP_CLOSE,
        level(text, downto) <= level(text, close + 1),
    ensures
        encloses(text, open, close),
        downto <= open,
{
    assert(level(text, close + 1) == level(text, close) - 1);
    lemma_search_open(text, close, close - 1, downto)
}

proof fn lemma_search_open(text: Seq<u8>, close: int, at: int, downto: int) -> (open: int)
    requires
        0 <= downto <= at < close < text.len(),
        text[close] == LOOP_CLOSE,
        forall|k: int| at < k <= close ==> #[trigger] level(text, k) > level(text, close + 1),
        level(text, downto) <= level(text, close + 1),
    ensures
        encloses(text, open, close),
        downto <= open,
    decreases at - downto,
{
    assert(level(text, at + 1) > level(text, close + 1));
    assert(level(text, at + 1) == level(text, at) + nesting_change(text[at]));
    if level(text, at) <= level(text, close + 1) {
        at
    } else {
        lemma_search_open(text, close, at - 1, downto)
    }
}

/// Where every loop end has its loop start, the depth never falls below
/// zero.
pub proof fn lemma_closes_matched_never_negative(text: Seq<u8>)
    requires
        closes_matched(text),
    ensures
        never_negative(text),
{
    assert forall|k: int| 0 <= k <= text.len() implies #[trigger] level(text, k) >= 0 by {
        lemma_level_not_negative(text, k);
    }
}

proof fn lemma_level_not_negative(text: Seq<u8>, k: int)
    requires
        closes_matched(text),
        0 <= k <= text.len(),
    ensures
        level(text, k) >= 0,
    decreases k,
{
    if k > 0 {
        lemma_level_not_negative(text, k - 1);
        let close = k - 1;
        if text[close] == LOOP_CLOSE {
            let open = choose|open: int| encloses(text, open, close);
            lemma_level_not_negative(text, open);
        }
    }
}

/// A text that ends above depth zero holds a loop start that is never
/// closed.
pub proof fn lemma_open_left_over(text: Seq<u8>) -> (open: int)
    requires
        depth(text) > 0,
    ensures
        unclosed(text, open, text.len() as int),
{
    lemma_search_left_over(text, text.len() - 1)
}

proof fn lemma_search_left_over(text: Seq<u8>, at: int) -> (open: int)
    requires
        0 <= at < text.len(),
        depth(text) > 0,
        forall|k: int| at < k <= text.len() ==> #[trigger] level(text, k) >= depth(text),
    ensures
        unclosed(text, open, text.len() as int),
    decreases at,
{
    assert(level(text, at + 1) >= depth(text));
    assert(level(text, at + 1) == level(text, at) + nesting_change(text[at]));
    if level(text, at) < depth(text) {
        at
    } else {
        lemma_search_left_over(text, at - 1)
    }
}

/// A text whose depth falls below zero holds a loop end that finds no loop
/// open; the first such loop end stands where the depth is zero for the
/// last time before it falls.
pub proof fn lemma_first_dip(text: Seq<u8>, bound: int) -> (close: int)
    requires
        0 <= bound <= text.len(),
        level(text, bound) < 0,
    ensures
        0 <= close < bound,
        text[close] == LOOP_CLOSE,
        level(text, close) == 0,
        forall|k: int| 0 <= k <= close ==> #[trigger] level(text, k) >= 0,
{
    lemma_search_dip(text, 0, bound)
}

proof fn lemma_search_dip(text: Seq<u8>, at: int, bound: int) -> (close: int)
    requires
        0 <= at < bound <= text.len(),
        level(text, bound) < 0,
        forall|k: int| 0 <= k <= at ==> #[trigger] level(text, k) >= 0,
    ensures
        0 <= close < bound,
        text[close] == LOOP_CLOSE,
        level(text, close) == 0,
        forall|k: int| 0 <= k <= close ==> #[trigger] level(text, k) >= 0,
    decreases bound - at,
{
    assert(level(text, at) >= 0);
    assert(level(text, at + 1) == level(text, at) + nesting_change(text[at]));
    if level(text, at + 1) < 0 {
        at
    } else {
        assert forall|k: int| 0 <= k <= at + 1 implies #[trigger] level(text, k) >= 0 by {
            if k <= at {
                assert(level(text, k) >= 0);
            }
        }
        lemma_search_dip(text, at + 1, bound)
    }
}

/// Every loop bracket has its partner exactly where the depth never falls
/// below zero and ends at zero.
pub proof fn lemma_balanced_by_depth(text: Seq<u8>)
    ensures
        balanced(text) <==> never_negative(text) && depth(text) == 0,
{
    if balanced(text) {
        lemma_closes_matched_never_negative(text);
        assert(level(text, text.len() as int) >= 0);
        if depth(text) > 0 {
            let open = lemma_open_left_over(text);
            let close = choose|close: int| encloses(text, open, close);
            assert(level(text, close + 1) > level(text, open));
        }
    }
    if never_negative(text) && depth(text) == 0 {
        assert forall|open: int|
            0 <= open < text.len() && #[trigger] text[open] == LOOP_OPEN implies exists|
            close: int,
        | encloses(text, open, close) by {
            assert(level(text, open) >= 0);
            let close = lemma_open_is_closed(text, open, text.len() as int);
        }
        assert forall|close: int|
            0 <= close < text.len() && #[trigger] text[close] == LOOP_CLOSE implies exists|
            open: int,
        | encloses(text, open, close) by {
            assert(level(text, close + 1) >= 0);
            let open = lemma_close_is_opened(text, close, 0);
        }
    }
}

} // verus!
