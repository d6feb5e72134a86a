//! The commit loop: a leader recomputes what a majority holds.

use crate::clock::Index;
use crate::log_model::CommandLogView;
use crate::process::{commit_settled, RaftProcess};
use crate::voter::ElectionState;
use vstd::prelude::*;

verus! {

/// The commit loop of one lane.
#[derive(Clone, Copy, Debug)]
pub struct Thread {
    /// How long the loop sleeps when no notification wakes it. In a cluster
    /// of one nothing may ever notify the loop, so it must not wait for a
    /// notification alone.
    pub interval_ms: u64,
}

impl Thread {
    pub fn new() -> (t: Thread)
        ensures
            t.interval_ms == 100,
    {
        Thread { interval_ms: 100 }
    }

    /// One round; see [`RaftProcess::advance_commit`].
    pub fn run_once(&self, process: &mut RaftProcess) -> (moved: bool)
        requires
            old(process).wf(),
        ensures
            final(process).wf(),
            final(process)@.verified == old(process)@.verified,
            final(process)@.voter == old(process)@.voter,
            final(process)@.peers == old(process)@.peers,
            final(process)@.log == (CommandLogView {
                commit_pointer: final(process)@.log.commit_pointer,
                ..old(process)@.log
            }),
            commit_settled(
                old(process)@.voter,
                old(process)@.peers,
                old(process)@.log,
                final(process)@.log.commit_pointer,
            ),
            moved == (final(process)@.log.commit_pointer
                > old(process)@.log.commit_pointer),
            old(process)@.voter.state == ElectionState::Leader
                && old(process)@.peers.committable(
                old(process)@.log.log,
                old(process)@.voter.ballot.cur_term,
                old(process)@.log.log.last_index() as Index,
            ) ==> final(process)@.log.commit_pointer == old(process)@.log.log.last_index(),
    {
        process.advance_commit()
    }

    /// Runs rounds until one makes no progress, and returns the number of
    /// rounds that moved the commit pointer. One round takes the pointer as
    /// far as it can go, so no second one moves it.
    pub fn run(&self, process: &mut RaftProcess) -> (rounds: usize)
        requires
            old(process).wf(),
        ensures
            final(process).wf(),
            final(process)@.verified == old(process)@.verified,
            final(process)@.voter == old(process)@.voter,
            final(process)@.peers == old(process)@.peers,
            final(process)@.log == (CommandLogView {
                commit_pointer: final(process)@.log.commit_pointer,
                ..old(process)@.log
            }),
            commit_settled(
                old(process)@.voter,
                old(process)@.peers,
                old(process)@.log,
                final(process)@.log.commit_pointer,
            ),
            rounds == if final(process)@.log.commit_pointer
                > old(process)@.log.commit_pointer {
                1usize
            } else {
                0usize
            },
    {
        let mut rounds: usize = 0;
        let ghost start = process@.log;
        loop
            invariant
                process.wf(),
                process@.verified == old(process)@.verified,
                process@.voter == old(process)@.voter,
                process@.peers == old(process)@.peers,
                start == old(process)@.log,
                process@.log == (CommandLogView {
                    commit_pointer: process@.log.commit_pointer,
                    ..start
                }),
                rounds <= 1,
                rounds == 0 ==> process@.log == start,
                rounds == 1 ==> process@.log.commit_pointer > start.commit_pointer
                    && commit_settled(
                    process@.voter,
                    process@.peers,
                    start,
                    process@.log.commit_pointer,
                ),
            decreases 1 - rounds,
        {
            let moved = self.run_once(process);
            if !moved {
                return rounds;
            }
            proof {
                if rounds == 1 {
                    assert(process@.peers.committable(
                        start.log,
                        process@.voter.ballot.cur_term,
                        process@.log.commit_pointer,
                    ));
                    assert(false);
                }
            }
            rounds = rounds + 1;
        }
    }
}

} // verus!
