//! The mathematical model of a lane's command log: what a well-formed log is,
//! which entry carries the membership in force, and how both behave when the
//! log grows, shrinks or is rewritten in place.

use crate::clock::{Index, NodeId};
use crate::command::{decode_command, CommandView};
use crate::entry::EntryView;
use crate::log_store::LogView;
use vstd::prelude::*;

verus! {

/// Whether the entry carries a membership: a snapshot or a configuration change.
pub open spec fn config_bearing(e: EntryView) -> bool {
    decode_command(e.command) matches Some(c) && c.membership() is Some
}

/// Whether the entry marks a snapshot boundary.
pub open spec fn is_snapshot(e: EntryView) -> bool {
    decode_command(e.command) matches Some(CommandView::Snapshot(_))
}

/// The membership that a configuration-bearing entry carries.
pub open spec fn membership_of(e: EntryView) -> Seq<NodeId> {
    decode_command(e.command)->Some_0.membership()->Some_0
}

/// The entry at index `i` is stamped with `i`, names `i - 1` as its
/// predecessor, is of no older term than its predecessor, carries a valid
/// command, and, unless it is the first retained entry, names the clock of the
/// entry before it.
pub open spec fn entry_ok(log: LogView, i: int) -> bool {
    let e = log.at(i);
    &&& e.this_clock.index == i
    &&& e.prev_clock.index + 1 == i
    &&& e.prev_clock.term <= e.this_clock.term
    &&& decode_command(e.command) is Some
    &&& (i > log.head ==> e.prev_clock == log.at(i - 1).this_clock)
}

/// Every retained entry is in order.
pub open spec fn entries_ok(log: LogView) -> bool {
    forall|i: int| #[trigger] log.contains(i) ==> entry_ok(log, i)
}

/// Index of the last configuration-bearing entry among those retained at or
/// below `i`; 0 when there is none.
pub open spec fn config_index_upto(log: LogView, i: int) -> int
    decreases i,
{
    if i < log.head || i < 1 {
        0
    } else if config_bearing(log.at(i)) {
        i
    } else {
        config_index_upto(log, i - 1)
    }
}

/// Index of the last snapshot entry in `(lo, hi]`; 0 when there is none.
pub open spec fn snapshot_index_within(log: LogView, lo: int, hi: int) -> int
    decreases hi,
{
    if hi <= lo || hi < 1 {
        0
    } else if is_snapshot(log.at(hi)) {
        hi
    } else {
        snapshot_index_within(log, lo, hi - 1)
    }
}

/// The state of a command log: the retained entries and the four pointers.
pub struct CommandLogView {
    pub log: LogView,
    pub snapshot_pointer: Index,
    pub commit_pointer: Index,
    pub last_applied: Index,
    pub membership_pointer: Index,
}

impl CommandLogView {
    /// The invariants of a command log. An empty log has every pointer at 0.
    /// Otherwise the pointers are ordered, the entry at the snapshot pointer is
    /// a snapshot, and the membership pointer names the last
    /// configuration-bearing entry.
    pub open spec fn wf(self) -> bool {
        &&& self.log.wf()
        &&& entries_ok(self.log)
        &&& if self.log.is_empty() {
            &&& self.snapshot_pointer == 0
            &&& self.commit_pointer == 0
            &&& self.last_applied == 0
            &&& self.membership_pointer == 0
        } else {
            &&& self.log.head <= self.snapshot_pointer <= self.last_applied
            &&& self.last_applied <= self.commit_pointer <= self.log.last_index()
            &&& is_snapshot(self.log.at(self.snapshot_pointer as int))
            &&& self.membership_pointer == config_index_upto(self.log, self.log.last_index())
        }
    }

    /// No pointer of `self` is ahead of the same pointer of `later`.
    pub open spec fn pointers_not_after(self, later: CommandLogView) -> bool {
        &&& self.snapshot_pointer <= later.snapshot_pointer
        &&& self.commit_pointer <= later.commit_pointer
        &&& self.last_applied <= later.last_applied
    }

    /// The membership in force at index `i`: the one carried by the last
    /// configuration-bearing entry at or below `i`.
    pub open spec fn membership_at(self, i: int) -> Option<Seq<NodeId>> {
        let upto = if i > self.log.last_index() {
            self.log.last_index()
        } else {
            i
        };
        let at = config_index_upto(self.log, upto);
        if at == 0 {
            None
        } else {
            Some(membership_of(self.log.at(at)))
        }
    }

    /// The clock of the last retained entry, or the zero clock.
    pub open spec fn last_clock(self) -> crate::clock::Clock {
        if self.log.is_empty() {
            crate::clock::Clock { term: 0, index: 0 }
        } else {
            self.log.at(self.log.last_index()).this_clock
        }
    }
}

/// Where the scan for a configuration-bearing entry lands: on such an entry
/// within range, with none above it, or on 0.
pub proof fn lemma_config_index_bounds(log: LogView, i: int)
    ensures
        config_index_upto(log, i) == 0 || (log.head <= config_index_upto(log, i) <= i && 1
            <= config_index_upto(log, i) && config_bearing(log.at(config_index_upto(log, i)))),
        forall|j: int|
            config_index_upto(log, i) < j <= i && log.head <= j && 1 <= j ==> !config_bearing(
                #[trigger] log.at(j),
            ),
    decreases i,
{
    if i < log.head || i < 1 {
    } else if config_bearing(log.at(i)) {
    } else {
        lemma_config_index_bounds(log, i - 1);
    }
}

/// A configuration-bearing entry at `m` is found by every scan that starts at
/// or above it.
pub proof fn lemma_config_index_reaches(log: LogView, i: int, m: int)
    requires
        log.head <= m <= i,
        1 <= m,
        config_bearing(log.at(m)),
    ensures
        config_index_upto(log, i) >= m,
    decreases i,
{
    if i > m && !config_bearing(log.at(i)) {
        lemma_config_index_reaches(log, i - 1, m);
    }
}

/// The scan depends only on the entries between where it lands and where it
/// starts: two logs that agree there give the same result, even when the
/// second retains less at the front.
pub proof fn lemma_config_index_agrees(a: LogView, b: LogView, i: int)
    requires
        a.head <= b.head,
        forall|j: int| b.head <= j <= i ==> a.at(j) == b.at(j),
        config_index_upto(a, i) >= b.head || a.head == b.head,
    ensures
        config_index_upto(b, i) == config_index_upto(a, i),
    decreases i,
{
    if i < b.head || i < 1 {
        lemma_config_index_bounds(a, i);
    } else if config_bearing(a.at(i)) {
    } else {
        lemma_config_index_agrees(a, b, i - 1);
    }
}


/// Clocks ascend along a well-formed log.
pub proof fn lemma_clocks_ascend(log: LogView, i: int, j: int)
    requires
        entries_ok(log),
        log.contains(i),
        log.contains(j),
        i <= j,
    ensures
        log.at(i).this_clock.precedes_or_equals(log.at(j).this_clock),
        log.at(i).this_clock.term <= log.at(j).this_clock.term,
    decreases j - i,
{
    assert(entry_ok(log, i));
    assert(entry_ok(log, j));
    if i < j {
        assert(log.contains(j - 1));
        lemma_clocks_ascend(log, i, j - 1);
    }
}

/// Where the scan for a snapshot lands: on a snapshot entry in `(lo, hi]`, or on 0.
pub proof fn lemma_snapshot_index_bounds(log: LogView, lo: int, hi: int)
    ensures
        snapshot_index_within(log, lo, hi) == 0 || (lo < snapshot_index_within(log, lo, hi) <= hi
            && is_snapshot(log.at(snapshot_index_within(log, lo, hi)))),
    decreases hi,
{
    if hi <= lo || hi < 1 {
    } else if is_snapshot(log.at(hi)) {
    } else {
        lemma_snapshot_index_bounds(log, lo, hi - 1);
    }
}

} // verus!
