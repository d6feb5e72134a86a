//! The host of all lanes of one node: it finds the lane that a message is
//! for, and gathers the heartbeats of the lanes that the node leads.

use crate::clock::{LaneId, NodeId};
use crate::error::Error;
use crate::heartbeat::{Heartbeat, HeartbeatBuffer};
use crate::log_model::CommandLogView;
use crate::process::{declines, heartbeat_commit, RaftProcess};
use crate::voter::ElectionState;
use std::collections::BTreeMap;
use vstd::prelude::*;
use vstd::std_specs::btree::spec_keys_iter;
use vstd::std_specs::iter::IteratorSpec;

verus! {

/// Every hosted lane is well formed and belongs to the node.
pub open spec fn lanes_ok(lanes: Map<LaneId, RaftProcess>, self_id: NodeId) -> bool {
    forall|id: LaneId| #[trigger]
        lanes.contains_key(id) ==> lanes[id].wf() && lanes[id]@.voter.self_id == self_id
}

/// The heartbeat that a leading lane sends.
pub open spec fn heartbeat_of(p: RaftProcess) -> Heartbeat {
    Heartbeat { leader_term: p@.voter.ballot.cur_term, leader_commit_index: p@.log.commit_pointer }
}

/// The heartbeats that the lanes send: one for each lane that the node leads.
pub open spec fn heartbeats_of(lanes: Map<LaneId, RaftProcess>) -> Map<LaneId, Heartbeat> {
    Map::new(
        |id: LaneId| lanes.contains_key(id) && lanes[id]@.voter.state == ElectionState::Leader,
        |id: LaneId| heartbeat_of(lanes[id]),
    )
}

/// Whether `id` is among the first `k` of `ids`.
pub open spec fn among_first(ids: Seq<LaneId>, k: int, id: LaneId) -> bool {
    exists|c: int| 0 <= c < k && ids[c] == id
}

/// The host of all lanes of one node.
#[derive(Debug)]
pub struct RaftDriver {
    self_id: NodeId,
    lanes: BTreeMap<LaneId, RaftProcess>,
}

/// The mathematical content of a [`RaftDriver`].
pub struct DriverView {
    pub self_id: NodeId,
    /// The hosted lanes, by their identities.
    pub lanes: Map<LaneId, RaftProcess>,
}

impl View for RaftDriver {
    type V = DriverView;

    closed spec fn view(&self) -> DriverView {
        DriverView { self_id: self.self_id, lanes: self.lanes@ }
    }
}

impl RaftDriver {
    pub open spec fn wf(&self) -> bool {
        lanes_ok(self@.lanes, self@.self_id)
    }

    /// A node that hosts no lane yet.
    pub fn new(self_id: NodeId) -> (d: RaftDriver)
        ensures
            d.wf(),
            d@.self_id == self_id,
            d@.lanes == Map::<LaneId, RaftProcess>::empty(),
    {
        RaftDriver { self_id, lanes: BTreeMap::new() }
    }

    /// The identity of the node.
    pub fn self_node_id(&self) -> (id: NodeId)
        ensures
            id == self@.self_id,
    {
        self.self_id
    }

    /// The number of lanes hosted.
    pub fn lane_count(&self) -> (n: usize)
        ensures
            n == self@.lanes.len(),
    {
        broadcast use vstd::std_specs::btree::group_btree_axioms;

        self.lanes.len()
    }

    /// Whether the node hosts lane `id`.
    pub fn hosts(&self, id: LaneId) -> (b: bool)
        ensures
            b == self@.lanes.contains_key(id),
    {
        broadcast use vstd::std_specs::btree::group_btree_axioms;

        self.lanes.contains_key(&id)
    }

    /// The identities of the hosted lanes.
    pub fn lane_ids(&self) -> (out: Vec<LaneId>)
        ensures
            forall|id: LaneId| out@.contains(id) == self@.lanes.contains_key(id),
    {
        broadcast use vstd::std_specs::btree::group_btree_axioms;

        let ghost all = spec_keys_iter(&self.lanes).remaining();
        proof {
            vstd::std_specs::btree::axiom_spec_keys_iter(&self.lanes);
        }
        let mut out: Vec<LaneId> = Vec::new();
        for k in it: self.lanes.keys()
            invariant
                it.seq() == all,
                out@.len() == it.index(),
                forall|c: int| 0 <= c < out@.len() ==> out@[c] == *all[c],
        {
            out.push(*k);
        }
        proof {
            assert forall|id: LaneId| out@.contains(id) == self@.lanes.contains_key(id) by {
                if out@.contains(id) {
                    let c = choose|c: int| 0 <= c < out@.len() && out@[c] == id;
                    assert(all.unref()[c] == id);
                    assert(all.unref().to_set().contains(id));
                }
                if self.lanes@.contains_key(id) {
                    assert(all.unref().to_set().contains(id));
                    assert(all.unref().contains(id));
                    let c = choose|c: int| 0 <= c < all.unref().len() && all.unref()[c] == id;
                    assert(out@[c] == id);
                }
            }
        }
        out
    }

    /// Starts hosting a lane. A lane of the same identity that was hosted
    /// before is replaced and handed back.
    pub fn insert_process(&mut self, id: LaneId, process: RaftProcess) -> (replaced: Option<
        RaftProcess,
    >)
        requires
            old(self).wf(),
            process.wf(),
            process@.voter.self_id == old(self)@.self_id,
        ensures
            final(self).wf(),
            final(self)@.self_id == old(self)@.self_id,
            final(self)@.lanes == old(self)@.lanes.insert(id, process),
            replaced == if old(self)@.lanes.contains_key(id) {
                Some(old(self)@.lanes[id])
            } else {
                None
            },
    {
        broadcast use vstd::std_specs::btree::group_btree_axioms;

        self.lanes.insert(id, process)
    }

    /// Stops hosting lane `id` and hands its process over, for the caller to
    /// work on and to insert again.
    pub fn remove_process(&mut self, id: LaneId) -> (r: Result<RaftProcess, Error>)
        requires
            old(self).wf(),
        ensures
            final(self).wf(),
            final(self)@.self_id == old(self)@.self_id,
            r.is_ok() == old(self)@.lanes.contains_key(id),
            r matches Err(e) ==> e == Error::ProcessNotFound(id) && final(self)@ == old(self)@,
            r matches Ok(p) ==> {
                &&& p == old(self)@.lanes[id]
                &&& p.wf()
                &&& p@.voter.self_id == old(self)@.self_id
                &&& final(self)@.lanes == old(self)@.lanes.remove(id)
            },
    {
        broadcast use vstd::std_specs::btree::group_btree_axioms;

        match self.lanes.remove(&id) {
            Some(p) => {
                assert(old(self)@.lanes.contains_key(id));
                Ok(p)
            },
            None => {
                assert(self@.lanes =~= old(self)@.lanes);
                Err(Error::ProcessNotFound(id))
            },
        }
    }

    /// Hands the heartbeat that node `leader_id` sent for lane `id` to that
    /// lane; see [`RaftProcess::receive_heartbeat`]. Reports whether the lane
    /// accepted the sender as leader, or [`Error::ProcessNotFound`] when the
    /// node hosts no such lane, in which case nothing changes.
    pub fn receive_heartbeat(
        &mut self,
        leader_id: NodeId,
        id: LaneId,
        hb: &Heartbeat,
        now: u64,
        draw: u64,
    ) -> (r: Result<bool, Error>)
        requires
            old(self).wf(),
        ensures
            final(self).wf(),
            final(self)@.self_id == old(self)@.self_id,
            !old(self)@.lanes.contains_key(id) ==> r == Err::<bool, Error>(
                Error::ProcessNotFound(id),
            ) && final(self)@ == old(self)@,
            old(self)@.lanes.contains_key(id) ==> {
                let before = old(self)@.lanes[id];
                let after = final(self)@.lanes[id];
                &&& final(self)@.lanes == old(self)@.lanes.insert(id, after)
                &&& r == Ok::<bool, Error>(!declines(before@.voter, hb.leader_term))
                &&& after@.voter == before@.voter.after_heartbeat(
                    leader_id,
                    hb.leader_term,
                    now,
                    draw,
                )
                &&& after@.verified == before@.verified
                &&& after@.peers == before@.peers
                &&& after@.log == (CommandLogView {
                    commit_pointer: heartbeat_commit(
                        before@.log,
                        before@.verified,
                        !declines(before@.voter, hb.leader_term),
                        *hb,
                    ),
                    ..before@.log
                })
            },
    {
        let mut process = match self.remove_process(id) {
            Ok(p) => p,
            Err(e) => {
                return Err(e);
            },
        };
        let accepted = process.receive_heartbeat(leader_id, hb, now, draw);
        let _ = self.insert_process(id, process);
        proof {
            assert(old(self)@.lanes.remove(id).insert(id, process) =~= old(self)@.lanes.insert(
                id,
                process,
            ));
        }
        Ok(accepted)
    }

    /// Gathers into `buffer` the heartbeat of every lane that the node leads.
    pub fn collect_heartbeats(&self, buffer: &mut HeartbeatBuffer)
        requires
            self.wf(),
        ensures
            final(buffer)@ == old(buffer)@.union_prefer_right(heartbeats_of(self@.lanes)),
    {
        broadcast use vstd::std_specs::btree::group_btree_axioms;

        let ids = self.lane_ids();
        let n: usize = ids.len();
        let mut k: usize = 0;
        let ghost start = buffer@;
        let ghost lanes = self@.lanes;
        while k < n
            invariant
                n == ids@.len(),
                k <= n,
                lanes == self@.lanes,
                forall|id: LaneId| ids@.contains(id) == lanes.contains_key(id),
                forall|id: LaneId|
                    buffer@.contains_key(id) == (start.contains_key(id) || (heartbeats_of(
                        lanes,
                    ).contains_key(id) && among_first(ids@, k as int, id))),
                forall|id: LaneId|
                    buffer@.contains_key(id) ==> buffer@[id] == if heartbeats_of(
                        lanes,
                    ).contains_key(id) && among_first(ids@, k as int, id) {
                        heartbeat_of(lanes[id])
                    } else {
                        start[id]
                    },
            decreases n - k,
        {
            let id: LaneId = ids[k];
            assert(ids@.contains(id));
            match self.lanes.get(&id) {
                Some(p) => match p.heartbeat() {
                    Some(hb) => {
                        buffer.push(id, hb);
                    },
                    None => {},
                },
                None => {},
            }
            proof {
                assert forall|other: LaneId| #[trigger]
                    among_first(ids@, k + 1, other) == (among_first(ids@, k as int, other)
                        || other == id) by {
                    if among_first(ids@, k as int, other) {
                        let c = choose|c: int| 0 <= c < k && ids@[c] == other;
                        assert(0 <= c < k + 1 && ids@[c] == other);
                    }
                    if other == id {
                        assert(0 <= k < k + 1 && ids@[k as int] == other);
                    }
                    if among_first(ids@, k + 1, other) {
                        let c = choose|c: int| 0 <= c < k + 1 && ids@[c] == other;
                        if c < k {
                            assert(0 <= c < k && ids@[c] == other);
                        }
                    }
                }
            }
            k = k + 1;
        }
        proof {
            let sent = heartbeats_of(lanes);
            assert forall|id: LaneId| sent.contains_key(id) implies among_first(
                ids@,
                n as int,
                id,
            ) by {
                assert(ids@.contains(id));
                let c = choose|c: int| 0 <= c < ids@.len() && ids@[c] == id;
                assert(0 <= c < n && ids@[c] == id);
            }
            assert(buffer@ =~= start.union_prefer_right(sent));
        }
    }
}

} // verus!
