//! What the nodes of a lane take as committed. A node moves its commit
//! pointer only on the word of a sealed entry, so what it executes is a
//! prefix of the one chain of committed entries, and no two nodes execute
//! different commands at the same index.

use crate::clock::{Clock, NodeId};
use crate::commitment::{
    back, lemma_back_frame, lemma_back_twice, lemma_log_is_chain, lemma_run_keeps_commitment,
};
use crate::log_model::is_snapshot;
use crate::protocol::{is_run, Lane, Member, Step};
use vstd::prelude::*;

verus! {

impl Lane {
    /// Whether the node of this state takes as committed only what its
    /// witness says: above index 1, the entry at its commit pointer is the
    /// ancestor, at that index, of a sealed entry.
    pub open spec fn follows_witness(self, n: Member) -> bool {
        n.commit >= 2 ==> {
            &&& self.sealed.contains(n.witness)
            &&& n.witness.index >= n.commit
            &&& n.log.contains(n.commit as int)
            &&& n.log.at(n.commit as int).this_clock == back(
                self.created,
                n.witness,
                (n.witness.index - n.commit) as nat,
            )
        }
    }

    /// Every member takes as committed only what its witness says, and the
    /// entry at index 1 is the one that started the cluster.
    pub open spec fn inv_applied(self) -> bool {
        &&& forall|v: NodeId|
            self.members.contains(v) ==> self.follows_witness(#[trigger] self.nodes[v])
        &&& forall|c: Clock| #[trigger] self.created.contains_key(c) && c.index == 1 ==> c.term == 0
    }
}

/// The members follow their witnesses after a step that created and sealed
/// nothing and left every member other than one as it was, if that one
/// follows its witness.
proof fn lemma_others_follow(s: Lane, n: Lane, node: NodeId)
    requires
        s.inv_applied(),
        n.members == s.members,
        n.created == s.created,
        forall|c: Clock| s.sealed.contains(c) ==> n.sealed.contains(c),
        s.members.contains(node),
        n.nodes == s.nodes.insert(node, n.nodes[node]),
        n.follows_witness(n.nodes[node]),
    ensures
        n.inv_applied(),
{
    assert forall|v: NodeId| n.members.contains(v) implies n.follows_witness(
        #[trigger] n.nodes[v],
    ) by {
        if v != node {
            assert(s.follows_witness(s.nodes[v]));
        }
    }
}

/// The entry of a member at an index at or below its commit pointer is the
/// ancestor, at that index, of its witness. So what a leader takes as
/// committed, its followers may take as committed as far as their logs share it.
proof fn lemma_member_vouches(s: Lane, leader: NodeId, upto: int)
    requires
        s.inv(),
        s.inv_commitment(),
        s.inv_applied(),
        s.members.contains(leader),
        2 <= upto <= s.nodes[leader].commit,
        s.nodes[leader].log.contains(upto),
    ensures
        s.sealed.contains(s.nodes[leader].witness),
        s.nodes[leader].witness.index >= upto,
        s.nodes[leader].log.at(upto).this_clock == back(
            s.created,
            s.nodes[leader].witness,
            (s.nodes[leader].witness.index - upto) as nat,
        ),
{
    let l = s.nodes[leader];
    assert(s.nodes.contains_key(leader));
    assert(s.follows_witness(l));
    assert(s.created.contains_key(l.witness));
    lemma_log_is_chain(s, leader, l.commit as int, upto);
    lemma_back_twice(
        s.created,
        l.witness,
        (l.witness.index - l.commit) as nat,
        (l.commit - upto) as nat,
    );
}

/// Every step that can be taken keeps the members following their witnesses.
pub proof fn lemma_step_keeps_applied(s: Lane, step: Step)
    requires
        s.inv(),
        s.inv_commitment(),
        s.inv_applied(),
        s.enabled(step),
    ensures
        s.next(step).inv_applied(),
{
    let n = s.next(step);
    match step {
        Step::Bootstrap { node } => {
            assert(s.nodes.contains_key(node));
            assert forall|c: Clock| #[trigger] s.created.contains_key(c) implies c.index
                != 1 by {
                assert(s.created.dom().contains(c));
            }
            assert forall|c: Clock| s.sealed.contains(c) implies n.sealed.contains(c) by {}
            assert forall|v: NodeId| n.members.contains(v) implies n.follows_witness(
                #[trigger] n.nodes[v],
            ) by {
                if v != node {
                    assert(s.follows_witness(s.nodes[v]));
                    if s.nodes[v].commit >= 2 {
                        assert(s.created.contains_key(s.nodes[v].witness));
                        assert(s.created.dom().contains(s.nodes[v].witness));
                    }
                }
            }
        },
        Step::Campaign { node } => {
            assert(s.nodes.contains_key(node));
            assert(s.follows_witness(s.nodes[node]));
            lemma_others_follow(s, n, node);
        },
        Step::Vote { node, req } => {
            assert(s.nodes.contains_key(node));
            assert(s.follows_witness(s.nodes[node]));
            lemma_others_follow(s, n, node);
        },
        Step::Elect { node, supporters } => {
            assert(s.nodes.contains_key(node));
            assert(s.follows_witness(s.nodes[node]));
            lemma_others_follow(s, n, node);
        },
        Step::Yield { node, term } => {
            assert(s.nodes.contains_key(node));
            assert(s.follows_witness(s.nodes[node]));
            lemma_others_follow(s, n, node);
        },
        Step::Append { node, command } => {
            let log = s.nodes[node].log;
            let e = crate::protocol::appended_entry(log, s.term_of(node), command);
            assert(s.nodes.contains_key(node));
            crate::protocol::lemma_append(s, node, command);
            crate::protocol::lemma_append_keeps_order(log, s.term_of(node), command);
            assert(n.created == s.created.insert(e.this_clock, e));
            assert forall|v: NodeId| n.members.contains(v) implies n.follows_witness(
                #[trigger] n.nodes[v],
            ) by {
                assert(s.nodes.contains_key(v));
                assert(s.follows_witness(s.nodes[v]));
                let m = s.nodes[v];
                if m.commit >= 2 {
                    assert(s.created.contains_key(m.witness));
                    lemma_back_frame(
                        s.created,
                        e.this_clock,
                        e,
                        m.witness,
                        (m.witness.index - m.commit) as nat,
                    );
                    if v == node {
                        assert(log.contains(m.commit as int));
                    }
                }
            }
        },
        Step::Replicate { node, leader, entry, snapshot, commit } => {
            let log = s.nodes[node].log;
            assert(s.nodes.contains_key(node));
            assert(s.follows_witness(s.nodes[node]));
            crate::protocol::lemma_offer_keeps_order(log, snapshot, commit, entry);
            let after = crate::protocol::offered(log, snapshot, commit, entry);
            if after != log && s.nodes[node].commit >= 2 {
                // what is committed is not replaced: the entry offered lies above it
                let c = s.nodes[node].commit as int;
                assert(log.contains(c));
                assert(entry.this_clock.index > c) by {
                    let view = crate::log_model::CommandLogView {
                        log,
                        snapshot_pointer: snapshot,
                        commit_pointer: commit,
                        last_applied: snapshot,
                        membership_pointer: 0,
                    };
                    let case = crate::command_log::insert_case(view, entry, entry.prev_clock);
                    assert(case is Replaces || case is Extends);
                }
                assert(after.contains(c));
            }
            lemma_others_follow(s, n, node);
        },
        Step::Rewrite { node, index, membership } => {
            let log = s.nodes[node].log;
            let command = crate::command::encode_command(
                crate::command::CommandView::Snapshot(membership),
            );
            assert(s.nodes.contains_key(node));
            assert(s.follows_witness(s.nodes[node]));
            crate::command::lemma_decode_encode_command(
                crate::command::CommandView::Snapshot(membership),
            );
            crate::protocol::lemma_rewrite_keeps_order(log, index, command);
            if s.nodes[node].commit >= 2 {
                assert(log.contains(s.nodes[node].commit as int));
            }
            lemma_others_follow(s, n, node);
        },
        Step::Compact { node, before } => {
            let log = s.nodes[node].log;
            assert(s.nodes.contains_key(node));
            assert(s.follows_witness(s.nodes[node]));
            crate::protocol::lemma_compact_keeps_order(log, before);
            if s.nodes[node].commit >= 2 {
                assert(log.contains(s.nodes[node].commit as int));
                assert(log.delete_before(before).contains(s.nodes[node].commit as int));
            }
            lemma_others_follow(s, n, node);
        },
        Step::Install { node, leader, entry } => {
            let log = s.nodes[node].log;
            let idx = entry.this_clock.index as int;
            assert(s.nodes.contains_key(node) && s.nodes.contains_key(leader));
            if idx >= 2 {
                lemma_member_vouches(s, leader, idx);
            }
            let after = n.nodes[node].log;
            if crate::command_log::holds_entry(log, entry) {
                assert(after.entries =~= log.entries.update(idx - log.head, entry));
            }
            assert(after.contains(idx));
            assert(after.at(idx) == entry);
            lemma_others_follow(s, n, node);
        },
        Step::Ack { node, clock } => {
            assert forall|v: NodeId| n.members.contains(v) implies n.follows_witness(
                #[trigger] n.nodes[v],
            ) by {
                assert(s.follows_witness(s.nodes[v]));
            }
        },
        Step::Seal { clock, holders } => {
            assert forall|v: NodeId| n.members.contains(v) implies n.follows_witness(
                #[trigger] n.nodes[v],
            ) by {
                assert(s.follows_witness(s.nodes[v]));
            }
        },
        Step::LeaderCommit { node, clock } => {
            assert(s.nodes.contains_key(node));
            crate::commitment::lemma_leader_holds(s, node, clock, clock.index as int);
            lemma_others_follow(s, n, node);
        },
        Step::FollowerCommit { node, leader, upto } => {
            assert(s.nodes.contains_key(node) && s.nodes.contains_key(leader));
            if upto >= 2 {
                lemma_member_vouches(s, leader, upto as int);
            }
            lemma_others_follow(s, n, node);
        },
    }
}

/// The members follow their witnesses before anything happened.
pub proof fn lemma_initial_applied(s: Lane)
    requires
        s.initial(),
    ensures
        s.inv_applied(),
{
}

/// The members follow their witnesses in every state of every run.
pub proof fn lemma_run_keeps_applied(states: Seq<Lane>, steps: Seq<Step>, k: int)
    requires
        is_run(states, steps),
        0 <= k < states.len(),
    ensures
        states[k].inv(),
        states[k].inv_commitment(),
        states[k].inv_applied(),
    decreases k,
{
    lemma_run_keeps_commitment(states, steps, k);
    if k == 0 {
        lemma_initial_applied(states[0]);
    } else {
        lemma_run_keeps_applied(states, steps, k - 1);
        assert(crate::protocol::follows(states, steps, k - 1));
        lemma_step_keeps_applied(states[k - 1], steps[k - 1]);
    }
}

/// Two members that both take index `m` as committed and both retain it hold
/// entries of the same clock there.
proof fn lemma_committed_clocks_agree(s: Lane, a: NodeId, b: NodeId, m: int)
    requires
        s.inv(),
        s.inv_commitment(),
        s.inv_applied(),
        s.members.contains(a),
        s.members.contains(b),
        1 <= m <= s.nodes[a].commit,
        m <= s.nodes[b].commit,
        s.nodes[a].log.contains(m),
        s.nodes[b].log.contains(m),
    ensures
        s.nodes[a].log.at(m).this_clock == s.nodes[b].log.at(m).this_clock,
{
    let x = s.nodes[a].log.at(m).this_clock;
    let y = s.nodes[b].log.at(m).this_clock;
    crate::commitment::lemma_end_of_log_entry(s, a, m);
    crate::commitment::lemma_end_of_log_entry(s, b, m);
    if m >= 2 {
        lemma_member_vouches(s, a, m);
        lemma_member_vouches(s, b, m);
        let wa = s.nodes[a].witness;
        let wb = s.nodes[b].witness;
        assert(x == back(s.created, wa, (wa.index - m) as nat));
        assert(y == back(s.created, wb, (wb.index - m) as nat));
        if wa.index <= wb.index {
            lemma_one_chain(s, wa, wb, m);
        } else {
            lemma_one_chain(s, wb, wa, m);
        }
    } else {
        assert(s.created.contains_key(x));
        assert(s.created.contains_key(y));
        assert(x.index == 1 && y.index == 1);
    }
}

/// Going back from two sealed entries to an index at or below both leads to
/// the same entry.
proof fn lemma_one_chain(s: Lane, c: Clock, d: Clock, m: int)
    requires
        s.inv(),
        s.inv_commitment(),
        s.sealed.contains(c),
        s.sealed.contains(d),
        1 <= m <= c.index <= d.index,
    ensures
        back(s.created, d, (d.index - m) as nat) == back(s.created, c, (c.index - m) as nat),
{
    crate::commitment::lemma_alive_chain(s, c, d);
    assert(s.created.contains_key(d));
    lemma_back_twice(s.created, d, (d.index - c.index) as nat, (c.index - m) as nat);
}

/// State-machine safety: in every state of every run, two members that both
/// take index `m` as committed and both retain it hold entries of the same
/// clocks there, and of the same command unless one of them was rewritten
/// into a snapshot entry. So what two nodes execute at one index is the same.
pub proof fn theorem_state_machine_safety(
    states: Seq<Lane>,
    steps: Seq<Step>,
    k: int,
    a: NodeId,
    b: NodeId,
    m: int,
)
    requires
        is_run(states, steps),
        0 <= k < states.len(),
        states[k].members.contains(a),
        states[k].members.contains(b),
        1 <= m <= states[k].nodes[a].commit,
        m <= states[k].nodes[b].commit,
        states[k].nodes[a].log.contains(m),
        states[k].nodes[b].log.contains(m),
    ensures
        ({
            let x = states[k].nodes[a].log.at(m);
            let y = states[k].nodes[b].log.at(m);
            &&& x.this_clock == y.this_clock
            &&& x.prev_clock == y.prev_clock
            &&& (x.command == y.command || is_snapshot(x) || is_snapshot(y))
        }),
{
    lemma_run_keeps_applied(states, steps, k);
    let s = states[k];
    lemma_committed_clocks_agree(s, a, b, m);
    crate::commitment::lemma_end_of_log_entry(s, a, m);
    crate::commitment::lemma_end_of_log_entry(s, b, m);
}

} // verus!
