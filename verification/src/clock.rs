//! Log positions and their happens-before order.

use vstd::prelude::*;

verus! {

/// Election epoch.
pub type Term = u64;

/// Position of an entry in the log. Index 0 means "nothing".
pub type Index = u64;

/// Identity of a node.
pub type NodeId = u64;

/// Identity of one Raft group among those hosted by a node.
pub type LaneId = u32;

/// A `(term, index)` pair naming a log position.
#[derive(Clone, Copy, Debug, PartialEq, Eq, Structural)]
pub struct Clock {
    pub term: Term,
    pub index: Index,
}

impl Clock {
    /// Lexicographic order on `(term, index)`.
    pub open spec fn precedes_or_equals(self, other: Clock) -> bool {
        self.term < other.term || (self.term == other.term && self.index <= other.index)
    }

    pub fn new(term: Term, index: Index) -> (c: Clock)
        ensures
            c.term == term,
            c.index == index,
    {
        Clock { term, index }
    }

    /// The clock that precedes every entry.
    pub fn zero() -> (c: Clock)
        ensures
            c == (Clock { term: 0, index: 0 }),
    {
        Clock { term: 0, index: 0 }
    }

    /// Whether `self` is at or before `other` in the happens-before order.
    pub fn le(&self, other: &Clock) -> (b: bool)
        ensures
            b == self.precedes_or_equals(*other),
    {
        self.term < other.term || (self.term == other.term && self.index <= other.index)
    }

    /// Whether a log ending at `self` is at least as up to date as one ending at `other`.
    pub fn at_least(&self, other: &Clock) -> (b: bool)
        ensures
            b == other.precedes_or_equals(*self),
    {
        other.le(self)
    }
}

/// The order on clocks is total.
pub proof fn lemma_clock_order_total(a: Clock, b: Clock)
    ensures
        a.precedes_or_equals(b) || b.precedes_or_equals(a),
        a.precedes_or_equals(b) && b.precedes_or_equals(a) ==> a == b,
{
}

/// The order on clocks is transitive.
pub proof fn lemma_clock_order_transitive(a: Clock, b: Clock, c: Clock)
    requires
        a.precedes_or_equals(b),
        b.precedes_or_equals(c),
    ensures
        a.precedes_or_equals(c),
{
}

} // verus!
