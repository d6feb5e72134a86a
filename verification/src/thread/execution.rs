//! The execution loop: committed entries are handed to the application.

use crate::command_log::{after_apply, applied_at, Applied};
use crate::process::RaftProcess;
use vstd::prelude::*;

verus! {

/// The execution loop of one lane.
#[derive(Clone, Copy, Debug)]
pub struct Thread {
    /// How long the loop sleeps when no commit wakes it.
    pub interval_ms: u64,
}

impl Thread {
    pub fn new() -> (t: Thread)
        ensures
            t.interval_ms == 100,
    {
        Thread { interval_ms: 100 }
    }

    /// One round: when something is committed and not applied, hands it over;
    /// see [`RaftProcess::advance_applied`]. Reports whether there was work.
    pub fn run_once(&self, process: &mut RaftProcess) -> (r: (bool, Vec<Applied>))
        requires
            old(process).wf(),
        ensures
            final(process).wf(),
            final(process)@.verified == old(process)@.verified,
            final(process)@.voter == old(process)@.voter,
            final(process)@.peers == old(process)@.peers,
            final(process)@.log == after_apply(old(process)@.log),
            old(process)@.log.pointers_not_after(final(process)@.log),
            r.0 == (old(process)@.log.last_applied
                < old(process)@.log.commit_pointer),
            r.1@.len() == old(process)@.log.commit_pointer
                - old(process)@.log.last_applied,
            forall|k: int|
                0 <= k < r.1@.len() ==> applied_at(
                    old(process)@.log.log,
                    old(process)@.log.last_applied + 1 + k,
                    #[trigger] r.1@[k],
                ),
    {
        process.advance_applied()
    }
}

} // verus!
