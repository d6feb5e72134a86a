//! Failures that the core surfaces to its callers.

use crate::clock::{Index, LaneId, NodeId};
use vstd::prelude::*;

verus! {

/// What can go wrong inside one lane.
#[derive(Clone, Copy, Debug, PartialEq, Eq, Structural)]
pub enum Error {
    /// The log would violate one of its invariants; fatal for the lane.
    BadLogState,
    /// A replication session broke; the session is dropped and restarted.
    BadReplicationStream,
    /// A snapshot chunk arrived out of order or for another snapshot.
    BadSnapshotChunk,
    /// No entry is retained at this index.
    EntryNotFound(Index),
    /// No leader is known to redirect the request to.
    LeaderUnknown,
    /// The node is not in the peer directory.
    PeerNotFound(NodeId),
    /// The node hosts no lane of this identity.
    ProcessNotFound(LaneId),
}

impl Error {
    /// Whether the lane must halt on this error rather than retry.
    pub open spec fn is_fatal(self) -> bool {
        self == Error::BadLogState
    }

    /// Whether the lane must halt on this error rather than retry.
    pub fn fatal(&self) -> (b: bool)
        ensures
            b == self.is_fatal(),
    {
        match self {
            Error::BadLogState => true,
            _ => false,
        }
    }
}

} // verus!
