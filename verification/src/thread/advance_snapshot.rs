//! The snapshot loop: the application is asked where a new snapshot may be cut.

use crate::clock::Index;
use crate::error::Error;
use crate::command_log::{after_proposal, proposal_result};
use crate::process::{peers_synced, RaftProcess};
use vstd::prelude::*;

verus! {

/// The snapshot loop of one lane.
#[derive(Clone, Copy, Debug)]
pub struct Thread {
    pub interval_ms: u64,
}

impl Thread {
    pub fn new() -> (t: Thread)
        ensures
            t.interval_ms == 1000,
    {
        Thread { interval_ms: 1000 }
    }

    /// One round, given the snapshot point that the application proposes; see
    /// [`RaftProcess::advance_snapshot`].
    pub fn run_once(&self, process: &mut RaftProcess, proposed: Index) -> (r: Result<bool, Error>)
        requires
            old(process).wf(),
        ensures
            final(process).wf(),
            final(process)@.verified == old(process)@.verified,
            final(process)@.voter == old(process)@.voter,
            peers_synced(
                old(process)@.peers,
                final(process)@.peers,
                final(process)@.log.log.last_index() as Index,
            ),
            old(process)@.log.pointers_not_after(final(process)@.log),
            r == proposal_result(old(process)@.log, proposed),
            final(process)@.log == after_proposal(old(process)@.log, proposed),
    {
        process.advance_snapshot(proposed)
    }
}

} // verus!
