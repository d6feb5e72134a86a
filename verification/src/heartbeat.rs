//! Heartbeats of all lanes that one node leads, gathered between two ticks so
//! that one message per peer carries them all.

use crate::clock::{Index, LaneId, Term};
use std::collections::HashMap;
use vstd::prelude::*;

verus! {

broadcast use vstd::std_specs::hash::group_hash_axioms;

/// Time between two multiplexed heartbeats, in milliseconds.
pub const HEARTBEAT_INTERVAL_MS: u64 = 300;

/// What a leader tells the followers of one lane: its term and how far it has committed.
#[derive(Clone, Copy, Debug, PartialEq, Eq, Structural)]
pub struct Heartbeat {
    pub leader_term: Term,
    pub leader_commit_index: Index,
}

impl Heartbeat {
    /// Whether `self` carries at least the term and at least the commit index
    /// of `other`.
    pub open spec fn dominates_spec(self, other: Heartbeat) -> bool {
        self.leader_term >= other.leader_term && self.leader_commit_index
            >= other.leader_commit_index
    }

    /// Whether a heartbeat that arrives after `other` may still be accepted.
    pub fn dominates(&self, other: &Heartbeat) -> (b: bool)
        ensures
            b == self.dominates_spec(*other),
    {
        self.leader_term >= other.leader_term && self.leader_commit_index
            >= other.leader_commit_index
    }
}

/// The heartbeats waiting for the next tick, one per lane at most.
pub struct HeartbeatBuffer {
    buf: HashMap<LaneId, Heartbeat>,
}

impl View for HeartbeatBuffer {
    type V = Map<LaneId, Heartbeat>;

    closed spec fn view(&self) -> Map<LaneId, Heartbeat> {
        self.buf@
    }
}

impl HeartbeatBuffer {
    /// An empty buffer.
    pub fn new() -> (b: HeartbeatBuffer)
        ensures
            b@ == Map::<LaneId, Heartbeat>::empty(),
    {
        HeartbeatBuffer { buf: HashMap::new() }
    }

    /// Stores the heartbeat of a lane; one that was waiting for the same lane
    /// is superseded.
    pub fn push(&mut self, lane_id: LaneId, req: Heartbeat)
        ensures
            final(self)@ == old(self)@.insert(lane_id, req),
    {
        self.buf.insert(lane_id, req);
    }

    /// The number of lanes with a waiting heartbeat.
    pub fn len(&self) -> (n: usize)
        ensures
            n == self@.len(),
    {
        self.buf.len()
    }

    /// Takes everything out of the buffer.
    pub fn drain(&mut self) -> (out: HashMap<LaneId, Heartbeat>)
        ensures
            out@ == old(self)@,
            final(self)@ == Map::<LaneId, Heartbeat>::empty(),
    {
        let mut out: HashMap<LaneId, Heartbeat> = HashMap::new();
        std::mem::swap(&mut self.buf, &mut out);
        out
    }
}

/// Pushing twice for one lane leaves only the later heartbeat, and leaves the
/// heartbeats of other lanes alone.
pub proof fn lemma_later_heartbeat_supersedes(
    m: Map<LaneId, Heartbeat>,
    lane_id: LaneId,
    first: Heartbeat,
    second: Heartbeat,
)
    ensures
        m.insert(lane_id, first).insert(lane_id, second) == m.insert(lane_id, second),
        forall|other: LaneId|
            other != lane_id && m.contains_key(other) ==> m.insert(lane_id, second)[other]
                == m[other],
{
    assert(m.insert(lane_id, first).insert(lane_id, second) =~= m.insert(lane_id, second));
}

} // verus!
