//! The bounded stack of loop starts that still wait for their loop end.

use vstd::prelude::*;
use crate::instruction::STACK_SIZE;

verus! {

/// A last-in, first-out store of at most [`STACK_SIZE`] program slots.
///
/// Its view is the sequence of the slots it holds, oldest first.
pub struct BracketStack {
    slots: Vec<usize>,
}

impl View for BracketStack {
    type V = Seq<usize>;

    closed spec fn view(&self) -> Seq<usize> {
        self.slots@
    }
}

impl BracketStack {
    /// The stack never holds more than [`STACK_SIZE`] slots.
    pub open spec fn wf(&self) -> bool {
        self@.len() <= STACK_SIZE
    }

    /// An empty stack.
    pub fn new() -> (stack: BracketStack)
        ensures
            stack.wf(),
            stack@ == Seq::<usize>::empty(),
    {
        BracketStack { slots: Vec::with_capacity(STACK_SIZE) }
    }

    /// Whether nothing is on the stack.
    pub fn is_empty(&self) -> (empty: bool)
        ensures
            empty == (self@.len() == 0),
    {
        self.slots.len() == 0
    }

    /// Whether the stack has no room for another slot.
    pub fn is_full(&self) -> (full: bool)
        ensures
            full == (self@.len() >= STACK_SIZE),
    {
        self.slots.len() >= STACK_SIZE
    }

    /// Number of slots on the stack.
    pub fn len(&self) -> (n: usize)
        ensures
            n == self@.len(),
    {
        self.slots.len()
    }

    /// Puts `slot` on top of the stack.
    pub fn push(&mut self, slot: usize)
        requires
            old(self).wf(),
            old(self)@.len() < STACK_SIZE,
        ensures
            final(self).wf(),
            final(self)@ == old(self)@.push(slot),
    {
        self.slots.push(slot);
    }

    /// Takes the most recently pushed slot off the stack.
    pub fn pop(&mut self) -> (slot: usize)
        requires
            old(self)@.len() > 0,
        ensures
            slot == old(self)@.last(),
            final(self)@ == old(self)@.drop_last(),
            old(self).wf() ==> final(self).wf(),
    {
        self.slots.pop().unwrap()
    }
}

} // verus!
