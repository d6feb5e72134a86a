//! The compaction loop: entries that a snapshot covers are dropped.

use crate::clock::Index;
use crate::log_model::CommandLogView;
use crate::process::{peers_synced, RaftProcess};
use vstd::prelude::*;

verus! {

/// The compaction loop of one lane.
#[derive(Clone, Copy, Debug)]
pub struct Thread {
    pub interval_ms: u64,
}

impl Thread {
    pub fn new() -> (t: Thread)
        ensures
            t.interval_ms == 1000,
    {
        Thread { interval_ms: 1000 }
    }

    /// One round; see [`RaftProcess::compact`]. Returns the index below which
    /// the application may delete its snapshots.
    pub fn run_once(&self, process: &mut RaftProcess) -> (reclaim_before: Index)
        requires
            old(process).wf(),
        ensures
            final(process).wf(),
            final(process)@.verified == old(process)@.verified,
            final(process)@.voter == old(process)@.voter,
            peers_synced(
                old(process)@.peers,
                final(process)@.peers,
                final(process)@.log.log.last_index() as Index,
            ),
            final(process)@.log == (CommandLogView {
                log: old(process)@.log.log.delete_before(
                    old(process)@.log.snapshot_pointer,
                ),
                ..old(process)@.log
            }),
            reclaim_before == old(process)@.log.snapshot_pointer,
    {
        process.compact()
    }
}

} // verus!
