//! The step-down loop: a leader that was removed from the membership yields.

use crate::clock::{Index, NodeId};
use crate::process::RaftProcess;
use crate::voter::{stepdown_refusal, stepdown_result, Stepdown};
use vstd::prelude::*;

verus! {

/// The step-down loop of one lane.
#[derive(Clone, Copy, Debug)]
pub struct Thread {
    pub interval_ms: u64,
}

impl Thread {
    pub fn new() -> (t: Thread)
        ensures
            t.interval_ms == 100,
    {
        Thread { interval_ms: 100 }
    }

    /// The first step of a round: whether the node must step down, and to
    /// whom it hands leadership first. The node is left as it is. See
    /// [`RaftProcess::plan_stepdown`].
    pub fn run_once(&self, process: &RaftProcess) -> (r: Result<Option<NodeId>, Stepdown>)
        requires
            process.wf(),
        ensures
            match stepdown_refusal(process@.voter, process@.log) {
                Some(why) => r == Err::<Option<NodeId>, Stepdown>(why),
                None => r matches Ok(target) && process@.peers.transfer_target_is(
                    process@.log.log.last_index() as Index,
                    target,
                ),
            },
    {
        process.plan_stepdown()
    }

    /// The second step of a round, taken after the hand-over was sent: the
    /// node steps down. See [`RaftProcess::try_stepdown`].
    pub fn transfer_sent(&self, process: &mut RaftProcess) -> (r: Result<(), Stepdown>)
        requires
            old(process).wf(),
        ensures
            final(process).wf(),
            final(process)@.verified == old(process)@.verified,
            final(process)@.log == old(process)@.log,
            final(process)@.peers == old(process)@.peers,
            r == stepdown_result(old(process)@.voter, old(process)@.log),
            final(process)@.voter == if r is Ok {
                old(process)@.voter.retired()
            } else {
                old(process)@.voter
            },
    {
        process.try_stepdown()
    }
}

} // verus!
