//! Block identifiers and slots.

use vstd::prelude::*;

verus! {

/// Identifier of a block: an opaque fixed-size digest, compared bitwise.
#[derive(Clone, Copy, PartialEq, Eq, Structural, Hash, Debug)]
pub struct BlockId(pub u64);

/// A slot `(thread, period)`: the unit of block production scheduling.
/// Slots are totally ordered by `period`, then `thread`.
#[derive(Clone, Copy, PartialEq, Eq, Structural, Hash, Debug)]
pub struct Slot {
    pub thread: u8,
    pub period: u64,
}

/// The total order on slots: compare `period` first, then `thread`.
pub open spec fn slot_lt(a: Slot, b: Slot) -> bool {
    a.period < b.period || (a.period == b.period && a.thread < b.thread)
}

impl Slot {
    pub fn new(thread: u8, period: u64) -> (r: Slot)
        ensures
            r.thread == thread,
            r.period == period,
    {
        Slot { thread, period }
    }

    /// Executable comparison deciding `slot_lt`.
    pub fn is_before(&self, other: &Slot) -> (r: bool)
        ensures
            r == slot_lt(*self, *other),
    {
        self.period < other.period || (self.period == other.period && self.thread < other.thread)
    }
}

/// `slot_lt` is a strict total order.
pub proof fn lemma_slot_order_total(a: Slot, b: Slot)
    ensures
        slot_lt(a, b) || slot_lt(b, a) || a == b,
        !(slot_lt(a, b) && slot_lt(b, a)),
{
}

} // verus!
