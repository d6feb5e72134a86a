//! The background loops of a lane. Each loop wakes on a notification or on an
//! interval tick, does one bounded round of work and goes back to sleep. What
//! a round does is decided here; waiting is left to the embedding program.

pub mod advance_snapshot;
pub mod commit;
pub mod execution;
pub mod gc;
pub mod stepdown;

use vstd::prelude::*;

verus! {

/// The loops that a lane runs.
#[derive(Clone, Copy, Debug, PartialEq, Eq, Structural)]
pub enum ThreadKind {
    AdvanceCommit,
    AdvanceUser,
    AdvanceKern,
    AdvanceSnapshot,
    Election,
    Heartbeat,
    LogCompaction,
    QueryExecution,
    Replication,
    SnapshotDeleter,
    Stepdown,
}

/// The notifications that wake loops.
#[derive(Clone, Copy, Debug, PartialEq, Eq, Structural)]
pub enum Wakeup {
    Queue,
    Replication,
    Commit,
    Kern,
}

/// The longest time, in milliseconds, that a loop sleeps between two rounds;
/// `None` for a loop that only wakes on its notification.
pub open spec fn interval_of(kind: ThreadKind) -> Option<u64> {
    match kind {
        ThreadKind::AdvanceCommit => Some(100u64),
        ThreadKind::AdvanceUser => Some(100u64),
        ThreadKind::AdvanceKern => Some(100u64),
        ThreadKind::AdvanceSnapshot => Some(1000u64),
        ThreadKind::Election => Some(crate::voter::ELECTION_TIMEOUT_MIN_MS),
        ThreadKind::Heartbeat => Some(crate::heartbeat::HEARTBEAT_INTERVAL_MS),
        ThreadKind::LogCompaction => Some(1000u64),
        ThreadKind::QueryExecution => None,
        ThreadKind::Replication => None,
        ThreadKind::SnapshotDeleter => Some(1000u64),
        ThreadKind::Stepdown => Some(100u64),
    }
}

/// The notification that wakes a loop before its interval is over; `None` for
/// a loop that only wakes on its interval.
pub open spec fn wakeup_of(kind: ThreadKind) -> Option<Wakeup> {
    match kind {
        ThreadKind::AdvanceCommit => Some(Wakeup::Commit),
        ThreadKind::AdvanceUser => Some(Wakeup::Commit),
        ThreadKind::AdvanceKern => Some(Wakeup::Kern),
        ThreadKind::QueryExecution => Some(Wakeup::Queue),
        ThreadKind::Replication => Some(Wakeup::Replication),
        _ => None,
    }
}

impl ThreadKind {
    /// See [`interval_of`].
    pub fn interval_ms(&self) -> (r: Option<u64>)
        ensures
            r == interval_of(*self),
    {
        match self {
            ThreadKind::AdvanceCommit => Some(100),
            ThreadKind::AdvanceUser => Some(100),
            ThreadKind::AdvanceKern => Some(100),
            ThreadKind::AdvanceSnapshot => Some(1000),
            ThreadKind::Election => Some(crate::voter::ELECTION_TIMEOUT_MIN_MS),
            ThreadKind::Heartbeat => Some(crate::heartbeat::HEARTBEAT_INTERVAL_MS),
            ThreadKind::LogCompaction => Some(1000),
            ThreadKind::QueryExecution => None,
            ThreadKind::Replication => None,
            ThreadKind::SnapshotDeleter => Some(1000),
            ThreadKind::Stepdown => Some(100),
        }
    }

    /// See [`wakeup_of`].
    pub fn wakeup(&self) -> (r: Option<Wakeup>)
        ensures
            r == wakeup_of(*self),
    {
        match self {
            ThreadKind::AdvanceCommit => Some(Wakeup::Commit),
            ThreadKind::AdvanceUser => Some(Wakeup::Commit),
            ThreadKind::AdvanceKern => Some(Wakeup::Kern),
            ThreadKind::QueryExecution => Some(Wakeup::Queue),
            ThreadKind::Replication => Some(Wakeup::Replication),
            _ => None,
        }
    }
}

} // verus!
