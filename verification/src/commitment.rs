//! What the lane keeps of committed entries. A node acknowledges an entry
//! that it holds while it is in the term of the entry; an entry is committed
//! once a majority has acknowledged it, and the model then calls it sealed.
//!
//! An entry that some node of every later election has acknowledged is called
//! alive. This module shows that every entry created at or after an entry
//! that is alive descends from it. A sealed entry is alive for good, so no
//! later leader lacks a committed entry.

use crate::clock::{Clock, Index, NodeId, Term};
use crate::entry::EntryView;
use crate::log_model::{entries_ok, entry_ok, lemma_clocks_ascend};
use crate::log_store::LogView;
use crate::membership::quorum_of;
use crate::protocol::{last_clock_of, stands_for, Lane, Step};
use crate::safety::lemma_majorities_intersect;
use vstd::prelude::*;

verus! {

/// The clock found by going `n` entries back from the entry of clock `c`,
/// along the predecessors that the entries name.
pub open spec fn back(created: Map<Clock, EntryView>, c: Clock, n: nat) -> Clock
    decreases n,
{
    if n == 0 || !created.contains_key(c) {
        c
    } else {
        back(created, created[c].prev_clock, (n - 1) as nat)
    }
}

/// Every entry that was created names a predecessor that was created, one
/// index below it and of no newer term; only the entry at index 1 has none.
pub open spec fn chain_ok(created: Map<Clock, EntryView>) -> bool {
    forall|c: Clock|
        #[trigger] created.contains_key(c) ==> {
            &&& created[c].this_clock == c
            &&& c.index >= 1
            &&& created[c].prev_clock.index + 1 == c.index
            &&& created[c].prev_clock.term <= c.term
            &&& (c.index >= 2 ==> created.contains_key(created[c].prev_clock))
        }
}

/// Going back along a chain stays among the created entries, moves down one
/// index per entry, and never moves up in the order of clocks.
pub proof fn lemma_back(created: Map<Clock, EntryView>, c: Clock, n: nat)
    requires
        chain_ok(created),
        created.contains_key(c),
        n < c.index,
    ensures
        created.contains_key(back(created, c, n)),
        back(created, c, n).index == c.index - n,
        back(created, c, n).term <= c.term,
        back(created, c, n).precedes_or_equals(c),
    decreases n,
{
    if n > 0 {
        lemma_back(created, created[c].prev_clock, (n - 1) as nat);
    }
}

/// Going back in two stages is going back in one.
pub proof fn lemma_back_twice(created: Map<Clock, EntryView>, c: Clock, n: nat, m: nat)
    requires
        chain_ok(created),
        created.contains_key(c),
        n + m < c.index,
    ensures
        back(created, back(created, c, n), m) == back(created, c, n + m),
    decreases n,
{
    if n > 0 {
        lemma_back_twice(created, created[c].prev_clock, (n - 1) as nat, m);
    }
}

/// A new entry does not change the way back from the entries that were there.
pub proof fn lemma_back_frame(
    created: Map<Clock, EntryView>,
    d: Clock,
    e: EntryView,
    c: Clock,
    n: nat,
)
    requires
        chain_ok(created),
        created.contains_key(c),
        !created.contains_key(d),
        n < c.index,
    ensures
        back(created.insert(d, e), c, n) == back(created, c, n),
    decreases n,
{
    if n > 0 {
        lemma_back_frame(created, d, e, created[c].prev_clock, (n - 1) as nat);
    }
}

/// The entries of a log are a chain: going back from a retained entry leads
/// to the retained entries below it.
pub proof fn lemma_log_is_chain(s: Lane, v: NodeId, hi: int, lo: int)
    requires
        s.inv(),
        chain_ok(s.created),
        s.members.contains(v),
        s.nodes[v].log.contains(hi),
        s.nodes[v].log.contains(lo),
        lo <= hi,
    ensures
        back(s.created, s.nodes[v].log.at(hi).this_clock, (hi - lo) as nat) == s.nodes[v].log.at(
            lo,
        ).this_clock,
    decreases hi - lo,
{
    let log = s.nodes[v].log;
    assert(s.nodes.contains_key(v));
    if lo < hi {
        assert(log.contains(hi - 1));
        assert(entry_ok(log, hi));
        assert(s.known(log.at(hi)));
        lemma_log_is_chain(s, v, hi - 1, lo);
    }
}

/// The last clock of a log in order is at or after the clock of every entry
/// that the log retains.
pub proof fn lemma_last_is_latest(log: LogView, i: int)
    requires
        log.wf(),
        entries_ok(log),
        log.contains(i),
    ensures
        log.at(i).this_clock.precedes_or_equals(last_clock_of(log)),
{
    assert(log.contains(log.last_index()));
    lemma_clocks_ascend(log, i, log.last_index());
}

impl Lane {
    /// The last entry of a log is of no newer term than the ballot of the
    /// node, and a vote is for a member that has reached the term of the vote.
    pub open spec fn inv_terms(self) -> bool {
        &&& forall|v: NodeId|
            self.members.contains(v) ==> last_clock_of((#[trigger] self.nodes[v]).log).term
                <= self.nodes[v].ballot.cur_term
        &&& forall|t: Term, v: NodeId|
            #[trigger] self.votes.contains_key((t, v)) ==> self.members.contains(
                self.votes[(t, v)],
            ) && t <= self.term_of(self.votes[(t, v)])
    }

    /// The log of a leader ends with an entry of its term once it has created
    /// one, and the entries of one term are one chain.
    pub open spec fn inv_own(self) -> bool {
        &&& forall|c: Clock, v: NodeId|
            #[trigger] self.created.contains_key(c) && self.members.contains(v) && (
            #[trigger] self.nodes[v]).leads && self.nodes[v].ballot.cur_term == c.term
                ==> last_clock_of(self.nodes[v].log).term == c.term
        &&& forall|c: Clock, d: Clock|
            #[trigger] self.created.contains_key(c) && #[trigger] self.created.contains_key(d)
                && c.term == d.term && c.index <= d.index ==> back(
                self.created,
                d,
                (d.index - c.index) as nat,
            ) == c
    }

    /// Whether the entry of clock `c` can still be sealed, or is sealed: it
    /// was created under a leader, and no leader was elected since without
    /// the vote of a node that had acknowledged it.
    pub open spec fn alive(self, c: Clock) -> bool {
        self.created.contains_key(c) && c.term >= 1 && !self.killer.contains_key(c)
    }

    /// What holds of an acknowledgement: it is of a created entry, by a member
    /// that has reached the term of the entry, and as long as the entry is
    /// alive the log of that member ends at or after it.
    pub open spec fn acked_ok(self, c: Clock, x: NodeId) -> bool {
        &&& self.created.contains_key(c)
        &&& c.term >= 1
        &&& self.members.contains(x)
        &&& self.term_of(x) >= c.term
        &&& (self.alive(c) ==> c.precedes_or_equals(last_clock_of(self.nodes[x].log)))
    }

    /// Every acknowledgement is in order; an entry that is not alive was left
    /// behind by the election of a later term; a sealed entry is alive and a
    /// majority has acknowledged it.
    pub open spec fn inv_acks(self) -> bool {
        &&& forall|c: Clock, x: NodeId| #[trigger] self.acks.contains((c, x)) ==> self.acked_ok(c, x)
        &&& forall|c: Clock|
            #[trigger] self.killer.contains_key(c) ==> self.created.contains_key(c)
                && self.leaders.contains_key(self.killer[c]) && self.killer[c] > c.term
                && self.unacked(c, self.supporters[self.killer[c]])
        &&& forall|c: Clock|
            #[trigger] self.sealed.contains(c) ==> {
                &&& self.alive(c)
                &&& self.holders.contains_key(c)
                &&& self.holders[c].subset_of(self.members)
                &&& self.holders[c].len() >= quorum_of(self.members.len())
            }
        &&& forall|c: Clock, h: NodeId|
            self.sealed.contains(c) && #[trigger] self.holders[c].contains(h)
                ==> self.acks.contains((c, h))
    }

    /// Every entry created at or after an entry that is alive descends from it.
    pub open spec fn inv_alive(self) -> bool {
        forall|c: Clock, d: Clock|
            #[trigger] self.alive(c) && #[trigger] self.created.contains_key(d)
                && c.precedes_or_equals(d) ==> d.index >= c.index && back(
                self.created,
                d,
                (d.index - c.index) as nat,
            ) == c
    }

    /// The log of a leader ends at or after every entry of an earlier term that
    /// is alive; so does the log of a candidate as far as nodes that
    /// acknowledged the entry have voted for it.
    pub open spec fn inv_elected(self) -> bool {
        &&& forall|c: Clock, v: NodeId|
            #[trigger] self.alive(c) && self.members.contains(v) && (
            #[trigger] self.nodes[v]).leads && c.term < self.nodes[v].ballot.cur_term
                ==> c.precedes_or_equals(last_clock_of(self.nodes[v].log))
        &&& forall|c: Clock, u: Term, x: NodeId|
            self.alive(c) && #[trigger] self.votes.contains_key((u, x))
                && #[trigger] self.acks.contains((c, x)) && c.term < u
                && self.nodes[self.votes[(u, x)]].campaigns && self.term_of(self.votes[(u, x)])
                == u ==> c.precedes_or_equals(last_clock_of(self.nodes[self.votes[(u, x)]].log))
    }

    /// What holds of the committed entries of a lane at all times.
    pub open spec fn inv_commitment(self) -> bool {
        &&& chain_ok(self.created)
        &&& self.inv_terms()
        &&& self.inv_own()
        &&& self.inv_acks()
        &&& self.inv_alive()
        &&& self.inv_elected()
    }
}

/// The acknowledgements stay in order when no record changes, no ballot goes
/// back, and no node that acknowledged an entry that is alive loses it.
proof fn lemma_acks_frame(s: Lane, n: Lane)
    requires
        s.inv_acks(),
        n.members == s.members,
        n.created == s.created,
        n.acks == s.acks,
        n.sealed == s.sealed,
        n.holders == s.holders,
        n.killer == s.killer,
        n.leaders == s.leaders,
        n.supporters == s.supporters,
        forall|v: NodeId|
            s.members.contains(v) ==> (#[trigger] n.nodes[v]).ballot.cur_term
                >= s.nodes[v].ballot.cur_term,
        forall|c: Clock, x: NodeId|
            #[trigger] s.acks.contains((c, x)) && s.alive(c) && c.precedes_or_equals(
                last_clock_of(s.nodes[x].log),
            ) ==> c.precedes_or_equals(last_clock_of(n.nodes[x].log)),
    ensures
        n.inv_acks(),
{
    assert forall|c: Clock, x: NodeId| #[trigger] n.acks.contains((c, x)) implies n.acked_ok(
        c,
        x,
    ) by {
        assert(s.acks.contains((c, x)));
        assert(s.acked_ok(c, x));
    }
    assert forall|c: Clock| #[trigger] n.killer.contains_key(c) implies n.created.contains_key(c)
        && n.leaders.contains_key(n.killer[c]) && n.killer[c] > c.term && n.unacked(
        c,
        n.supporters[n.killer[c]],
    ) by {
        assert(s.killer.contains_key(c));
        assert(s.unacked(c, s.supporters[s.killer[c]]));
    }
    assert forall|c: Clock| #[trigger] n.sealed.contains(c) implies {
        &&& n.alive(c)
        &&& n.holders.contains_key(c)
        &&& n.holders[c].subset_of(n.members)
        &&& n.holders[c].len() >= quorum_of(n.members.len())
    } by {
        assert(s.sealed.contains(c));
    }
    assert forall|c: Clock, h: NodeId|
        n.sealed.contains(c) && #[trigger] n.holders[c].contains(h) implies n.acks.contains(
        (c, h),
    ) by {
        assert(s.holders[c].contains(h));
    }
}

/// The entries that are alive keep their descendants when nothing is created
/// and no entry is left behind.
proof fn lemma_alive_frame(s: Lane, n: Lane)
    requires
        s.inv_alive(),
        n.created == s.created,
        n.killer == s.killer,
    ensures
        n.inv_alive(),
{
    assert forall|c: Clock, d: Clock|
        #[trigger] n.alive(c) && #[trigger] n.created.contains_key(d) && c.precedes_or_equals(
            d,
        ) implies d.index >= c.index && back(n.created, d, (d.index - c.index) as nat) == c by {
        assert(s.alive(c));
    }
}

/// The logs of leaders stay in order when nothing is created and every node
/// that leads led before, in the same term and with the same end of its log.
proof fn lemma_own_frame(s: Lane, n: Lane)
    requires
        s.inv_own(),
        n.members == s.members,
        n.created == s.created,
        forall|v: NodeId|
            n.members.contains(v) && (#[trigger] n.nodes[v]).leads ==> s.nodes[v].leads
                && n.nodes[v].ballot.cur_term == s.nodes[v].ballot.cur_term && last_clock_of(
                n.nodes[v].log,
            ).term == last_clock_of(s.nodes[v].log).term,
    ensures
        n.inv_own(),
{
    assert forall|c: Clock, v: NodeId|
        #[trigger] n.created.contains_key(c) && n.members.contains(v) && (
        #[trigger] n.nodes[v]).leads && n.nodes[v].ballot.cur_term
            == c.term implies last_clock_of(n.nodes[v].log).term == c.term by {
        assert(s.nodes[v].leads);
        assert(s.created.contains_key(c));
    }
}

/// The logs of leaders and candidates stay recent when no record changes,
/// every node with a role had it before in the same term, and the log of such
/// a node ends where it ended or further on.
proof fn lemma_elected_frame(s: Lane, n: Lane)
    requires
        s.inv(),
        s.inv_terms(),
        s.inv_elected(),
        n.members == s.members,
        n.created == s.created,
        n.killer == s.killer,
        n.votes == s.votes,
        n.acks == s.acks,
        forall|v: NodeId|
            n.members.contains(v) && ((#[trigger] n.nodes[v]).leads || n.nodes[v].campaigns) ==> {
                &&& n.nodes[v].leads == s.nodes[v].leads
                &&& n.nodes[v].campaigns == s.nodes[v].campaigns
                &&& n.nodes[v].ballot.cur_term == s.nodes[v].ballot.cur_term
                &&& last_clock_of(s.nodes[v].log).precedes_or_equals(
                    last_clock_of(n.nodes[v].log),
                )
            },
    ensures
        n.inv_elected(),
{
    assert forall|c: Clock, v: NodeId|
        #[trigger] n.alive(c) && n.members.contains(v) && (#[trigger] n.nodes[v]).leads && c.term
            < n.nodes[v].ballot.cur_term implies c.precedes_or_equals(
        last_clock_of(n.nodes[v].log),
    ) by {
        assert(s.alive(c));
        assert(s.nodes[v].leads);
        crate::clock::lemma_clock_order_transitive(
            c,
            last_clock_of(s.nodes[v].log),
            last_clock_of(n.nodes[v].log),
        );
    }
    assert forall|c: Clock, u: Term, x: NodeId|
        n.alive(c) && #[trigger] n.votes.contains_key((u, x)) && #[trigger] n.acks.contains(
            (c, x),
        ) && c.term < u && n.nodes[n.votes[(u, x)]].campaigns && n.term_of(n.votes[(u, x)])
            == u implies c.precedes_or_equals(last_clock_of(n.nodes[n.votes[(u, x)]].log)) by {
        let who = n.votes[(u, x)];
        assert(s.alive(c));
        assert(s.votes.contains_key((u, x)));
        assert(s.members.contains(who));
        assert(s.nodes[who].campaigns);
        crate::clock::lemma_clock_order_transitive(
            c,
            last_clock_of(s.nodes[who].log),
            last_clock_of(n.nodes[who].log),
        );
    }
}

/// The last entries of the logs stay within the terms of the ballots, and the
/// votes stay votes for members that have reached their term, when no vote is
/// cast and no ballot goes back.
proof fn lemma_terms_frame(s: Lane, n: Lane)
    requires
        s.inv_terms(),
        n.members == s.members,
        n.votes == s.votes,
        forall|v: NodeId|
            s.members.contains(v) ==> (#[trigger] n.nodes[v]).ballot.cur_term
                >= s.nodes[v].ballot.cur_term && last_clock_of(n.nodes[v].log).term
                <= n.nodes[v].ballot.cur_term,
    ensures
        n.inv_terms(),
{
    assert forall|t: Term, v: NodeId| #[trigger] n.votes.contains_key((t, v)) implies n.members.contains(
        n.votes[(t, v)],
    ) && t <= n.term_of(n.votes[(t, v)]) by {
        assert(s.votes.contains_key((t, v)));
        assert(s.members.contains(s.votes[(t, v)]));
    }
}

/// What a step that changes ballots and roles only leaves as it is: the logs
/// are the same and no ballot goes back.
spec fn same_logs(s: Lane, n: Lane) -> bool {
    &&& n.members == s.members
    &&& n.created == s.created
    &&& n.acks == s.acks
    &&& n.sealed == s.sealed
    &&& n.holders == s.holders
    &&& forall|v: NodeId|
        s.members.contains(v) ==> n.nodes.contains_key(v) && (#[trigger] n.nodes[v]).log
            == s.nodes[v].log && n.nodes[v].ballot.cur_term >= s.nodes[v].ballot.cur_term
}

/// A node that yields keeps the committed entries in order.
pub proof fn lemma_yield_commitment(s: Lane, node: NodeId, term: Term)
    requires
        s.inv(),
        s.inv_commitment(),
        s.enabled(Step::Yield { node, term }),
    ensures
        s.next(Step::Yield { node, term }).inv_commitment(),
{
    let n = s.next(Step::Yield { node, term });
    assert(s.nodes.contains_key(node));
    assert(same_logs(s, n)) by {
        assert forall|v: NodeId| s.members.contains(v) implies n.nodes.contains_key(v) && (
        #[trigger] n.nodes[v]).log == s.nodes[v].log && n.nodes[v].ballot.cur_term
            >= s.nodes[v].ballot.cur_term by {
            assert(s.nodes.contains_key(v));
        }
    }
    assert forall|v: NodeId| n.members.contains(v) implies (v == node || #[trigger] n.nodes[v]
        == s.nodes[v]) && !n.nodes[node].leads && !n.nodes[node].campaigns by {}
    lemma_terms_frame(s, n);
    lemma_own_frame(s, n);
    lemma_acks_frame(s, n);
    lemma_alive_frame(s, n);
    lemma_elected_frame(s, n);
}

/// A node that opens a campaign keeps the committed entries in order.
pub proof fn lemma_campaign_commitment(s: Lane, node: NodeId)
    requires
        s.inv(),
        s.inv_commitment(),
        s.enabled(Step::Campaign { node }),
    ensures
        s.next(Step::Campaign { node }).inv_commitment(),
{
    let n = s.next(Step::Campaign { node });
    let term = (s.term_of(node) + 1) as Term;
    assert(s.nodes.contains_key(node));
    assert(same_logs(s, n)) by {
        assert forall|v: NodeId| s.members.contains(v) implies n.nodes.contains_key(v) && (
        #[trigger] n.nodes[v]).log == s.nodes[v].log && n.nodes[v].ballot.cur_term
            >= s.nodes[v].ballot.cur_term by {
            assert(s.nodes.contains_key(v));
        }
    }
    assert forall|v: NodeId| n.members.contains(v) implies (v == node || #[trigger] n.nodes[v]
        == s.nodes[v]) && !n.nodes[node].leads by {}
    lemma_own_frame(s, n);
    lemma_acks_frame(s, n);
    lemma_alive_frame(s, n);
    assert(n.inv_terms()) by {
        assert forall|v: NodeId| n.members.contains(v) implies last_clock_of(
            (#[trigger] n.nodes[v]).log,
        ).term <= n.nodes[v].ballot.cur_term by {
            assert(last_clock_of(s.nodes[v].log).term <= s.nodes[v].ballot.cur_term);
        }
        assert forall|t: Term, v: NodeId| #[trigger] n.votes.contains_key((t, v)) implies n.members.contains(
            n.votes[(t, v)],
        ) && t <= n.term_of(n.votes[(t, v)]) by {
            if (t, v) != (term, node) {
                assert(s.votes.contains_key((t, v)));
                assert(s.members.contains(s.votes[(t, v)]));
            }
        }
    }
    assert(n.inv_elected()) by {
        assert forall|c: Clock, v: NodeId|
            #[trigger] n.alive(c) && n.members.contains(v) && (#[trigger] n.nodes[v]).leads
                && c.term < n.nodes[v].ballot.cur_term implies c.precedes_or_equals(
            last_clock_of(n.nodes[v].log),
        ) by {
            assert(s.alive(c));
            assert(s.nodes[v].leads);
        }
        assert forall|c: Clock, u: Term, x: NodeId|
            n.alive(c) && #[trigger] n.votes.contains_key((u, x)) && #[trigger] n.acks.contains(
                (c, x),
            ) && c.term < u && n.nodes[n.votes[(u, x)]].campaigns && n.term_of(n.votes[(u, x)])
                == u implies c.precedes_or_equals(last_clock_of(n.nodes[n.votes[(u, x)]].log)) by {
            let cand = n.votes[(u, x)];
            assert(s.alive(c));
            assert(s.acked_ok(c, x));
            if (u, x) == (term, node) {
                // the candidate counts its own vote: it acknowledged the entry itself
                assert(cand == node);
            } else {
                assert(s.votes.contains_key((u, x)));
                assert(s.members.contains(cand));
                if cand == node {
                    // nobody voted for the candidate in a term that it had not reached
                    assert(u <= s.term_of(node));
                }
            }
        }
    }
}

/// A node that answers a vote request keeps the committed entries in order.
pub proof fn lemma_vote_commitment(s: Lane, node: NodeId, req: crate::voter::VoteRequest)
    requires
        s.inv(),
        s.inv_commitment(),
        s.enabled(Step::Vote { node, req }),
    ensures
        s.next(Step::Vote { node, req }).inv_commitment(),
{
    let n = s.next(Step::Vote { node, req });
    let before = s.nodes[node];
    let last = last_clock_of(before.log);
    let granted = crate::voter::grants(before.ballot, req, last);
    let key = (req.term, node);
    let cand = req.candidate_id;
    assert(s.nodes.contains_key(node));
    assert(s.nodes.contains_key(cand));
    assert(same_logs(s, n)) by {
        assert forall|v: NodeId| s.members.contains(v) implies n.nodes.contains_key(v) && (
        #[trigger] n.nodes[v]).log == s.nodes[v].log && n.nodes[v].ballot.cur_term
            >= s.nodes[v].ballot.cur_term by {
            assert(s.nodes.contains_key(v));
        }
    }
    // a node with a role votes for nobody but itself in its own term
    if (before.leads || before.campaigns) && req.term <= before.ballot.cur_term {
        assert(before.ballot.voted_for == Some(node));
        assert(n.nodes[node].ballot == before.ballot);
    }
    assert forall|v: NodeId| n.members.contains(v) implies v == node || #[trigger] n.nodes[v]
        == s.nodes[v] by {}
    lemma_own_frame(s, n);
    lemma_acks_frame(s, n);
    lemma_alive_frame(s, n);
    assert(n.inv_terms()) by {
        assert forall|v: NodeId| n.members.contains(v) implies last_clock_of(
            (#[trigger] n.nodes[v]).log,
        ).term <= n.nodes[v].ballot.cur_term by {
            assert(last_clock_of(s.nodes[v].log).term <= s.nodes[v].ballot.cur_term);
        }
        assert forall|t: Term, v: NodeId| #[trigger] n.votes.contains_key((t, v)) implies n.members.contains(
            n.votes[(t, v)],
        ) && t <= n.term_of(n.votes[(t, v)]) by {
            if (t, v) == key && granted {
                assert(n.votes[(t, v)] == cand);
            } else {
                assert(s.votes.contains_key((t, v)));
                assert(s.members.contains(s.votes[(t, v)]));
            }
        }
    }
    assert(n.inv_elected()) by {
        assert forall|c: Clock, v: NodeId|
            #[trigger] n.alive(c) && n.members.contains(v) && (#[trigger] n.nodes[v]).leads
                && c.term < n.nodes[v].ballot.cur_term implies c.precedes_or_equals(
            last_clock_of(n.nodes[v].log),
        ) by {
            assert(s.alive(c));
            assert(s.nodes[v].leads);
        }
        assert forall|c: Clock, u: Term, x: NodeId|
            n.alive(c) && #[trigger] n.votes.contains_key((u, x)) && #[trigger] n.acks.contains(
                (c, x),
            ) && c.term < u && n.nodes[n.votes[(u, x)]].campaigns && n.term_of(n.votes[(u, x)])
                == u implies c.precedes_or_equals(last_clock_of(n.nodes[n.votes[(u, x)]].log)) by {
            let who = n.votes[(u, x)];
            assert(s.alive(c));
            assert(s.acked_ok(c, x));
            if (u, x) == key && granted {
                // the voter's log ends at or after the entry, and the candidate's
                // log is at least as recent as the voter's
                assert(who == cand);
                assert(c.precedes_or_equals(last));
                assert(s.nodes[cand].campaigns && s.term_of(cand) == u);
                assert(req.last_clock == last_clock_of(s.nodes[cand].log));
                crate::clock::lemma_clock_order_transitive(c, last, req.last_clock);
                assert(n.nodes[cand].log == s.nodes[cand].log);
            } else {
                assert(s.votes.contains_key((u, x)));
                assert(s.members.contains(who));
                assert(s.nodes[who].campaigns && s.term_of(who) == u);
            }
        }
    }
}

/// A candidate that takes office keeps the committed entries in order: its
/// log ends at or after every entry of an earlier term that stays alive,
/// since a node that acknowledged the entry is among its voters.
pub proof fn lemma_elect_commitment(s: Lane, node: NodeId, supporters: Set<NodeId>)
    requires
        s.inv(),
        s.inv_commitment(),
        s.enabled(Step::Elect { node, supporters }),
    ensures
        s.next(Step::Elect { node, supporters }).inv_commitment(),
{
    let n = s.next(Step::Elect { node, supporters });
    let term = s.term_of(node);
    assert(s.nodes.contains_key(node));
    crate::protocol::lemma_elect(s, node, supporters);
    assert(same_logs(s, n)) by {
        assert forall|v: NodeId| s.members.contains(v) implies n.nodes.contains_key(v) && (
        #[trigger] n.nodes[v]).log == s.nodes[v].log && n.nodes[v].ballot.cur_term
            >= s.nodes[v].ballot.cur_term by {
            assert(s.nodes.contains_key(v));
        }
    }
    assert forall|v: NodeId| n.members.contains(v) implies v == node || #[trigger] n.nodes[v]
        == s.nodes[v] by {}
    // what is alive after the election was alive before
    assert forall|c: Clock| #[trigger] n.alive(c) implies s.alive(c) && !s.missed(
        c,
        node,
        supporters,
    ) by {}
    lemma_terms_frame(s, n);
    assert(n.inv_own()) by {
        assert forall|c: Clock, v: NodeId|
            #[trigger] n.created.contains_key(c) && n.members.contains(v) && (
            #[trigger] n.nodes[v]).leads && n.nodes[v].ballot.cur_term
                == c.term implies last_clock_of(n.nodes[v].log).term == c.term by {
            assert(s.created.contains_key(c));
            if v == node {
                // nothing was created in the term of a leader that is new
                assert(c.term == 0 || s.leaders.contains_key(c.term));
                assert(s.nodes[node].ballot.cur_term >= 1);
            } else {
                assert(s.nodes[v].leads);
            }
        }
    }
    assert(n.inv_acks()) by {
        assert forall|c: Clock, x: NodeId| #[trigger] n.acks.contains((c, x)) implies n.acked_ok(
            c,
            x,
        ) by {
            assert(s.acks.contains((c, x)));
            assert(s.acked_ok(c, x));
        }
        assert forall|c: Clock| #[trigger] n.killer.contains_key(c) implies n.created.contains_key(
            c,
        ) && n.leaders.contains_key(n.killer[c]) && n.killer[c] > c.term && n.unacked(
            c,
            n.supporters[n.killer[c]],
        ) by {
            if s.killer.contains_key(c) {
                assert(s.leaders.contains_key(s.killer[c]));
                assert(s.killer[c] != term);
                assert(s.unacked(c, s.supporters[s.killer[c]]));
            } else {
                assert(s.missed(c, node, supporters));
            }
        }
        assert forall|c: Clock| #[trigger] n.sealed.contains(c) implies {
            &&& n.alive(c)
            &&& n.holders.contains_key(c)
            &&& n.holders[c].subset_of(n.members)
            &&& n.holders[c].len() >= quorum_of(n.members.len())
        } by {
            assert(s.sealed.contains(c));
            // one of the majority that acknowledged the entry is among the voters
            let x = lemma_majorities_intersect(s.members, s.members, supporters, s.holders[c]);
            assert(s.holders[c].contains(x));
            assert(s.acks.contains((c, x)));
            assert(!s.unacked(c, supporters));
        }
        assert forall|c: Clock, h: NodeId|
            n.sealed.contains(c) && #[trigger] n.holders[c].contains(h) implies n.acks.contains(
            (c, h),
        ) by {
            assert(s.holders[c].contains(h));
        }
    }
    assert(n.inv_alive()) by {
        assert forall|c: Clock, d: Clock|
            #[trigger] n.alive(c) && #[trigger] n.created.contains_key(d) && c.precedes_or_equals(
                d,
            ) implies d.index >= c.index && back(n.created, d, (d.index - c.index) as nat)
            == c by {
            assert(s.alive(c));
        }
    }
    assert(n.inv_elected()) by {
        assert forall|c: Clock, v: NodeId|
            #[trigger] n.alive(c) && n.members.contains(v) && (#[trigger] n.nodes[v]).leads
                && c.term < n.nodes[v].ballot.cur_term implies c.precedes_or_equals(
            last_clock_of(n.nodes[v].log),
        ) by {
            assert(s.alive(c));
            if v == node {
                // a node that acknowledged the entry is among the voters
                assert(!s.unacked(c, supporters));
                let x = choose|x: NodeId| supporters.contains(x) && s.acks.contains((c, x));
                assert(s.votes.contains_key((term, x)) && s.votes[(term, x)] == node);
            } else {
                assert(s.nodes[v].leads);
            }
        }
        assert forall|c: Clock, u: Term, x: NodeId|
            n.alive(c) && #[trigger] n.votes.contains_key((u, x)) && #[trigger] n.acks.contains(
                (c, x),
            ) && c.term < u && n.nodes[n.votes[(u, x)]].campaigns && n.term_of(n.votes[(u, x)])
                == u implies c.precedes_or_equals(last_clock_of(n.nodes[n.votes[(u, x)]].log)) by {
            let who = n.votes[(u, x)];
            assert(s.alive(c));
            assert(s.votes.contains_key((u, x)));
            assert(s.members.contains(who));
            assert(who != node);
        }
    }
}

/// Nothing depends on what is sealed but the record of it: the other parts
/// of the invariant stay as they are when only that record changes.
proof fn lemma_same_but_sealed(s: Lane, n: Lane)
    requires
        s.inv_commitment(),
        n.members == s.members,
        n.nodes == s.nodes,
        n.votes == s.votes,
        n.leaders == s.leaders,
        n.supporters == s.supporters,
        n.created == s.created,
        n.acks == s.acks,
        n.killer == s.killer,
    ensures
        chain_ok(n.created),
        n.inv_terms(),
        n.inv_own(),
        n.inv_alive(),
        n.inv_elected(),
        forall|c: Clock, x: NodeId| #[trigger] n.acks.contains((c, x)) ==> n.acked_ok(c, x),
        forall|c: Clock|
            #[trigger] n.killer.contains_key(c) ==> n.created.contains_key(c)
                && n.leaders.contains_key(n.killer[c]) && n.killer[c] > c.term && n.unacked(
                c,
                n.supporters[n.killer[c]],
            ),
{
    assert forall|c: Clock| n.alive(c) == s.alive(c) by {}
    assert forall|c: Clock, x: NodeId| #[trigger] n.acks.contains((c, x)) implies n.acked_ok(
        c,
        x,
    ) by {
        assert(s.acked_ok(c, x));
    }
    assert forall|c: Clock| #[trigger] n.killer.contains_key(c) implies n.created.contains_key(c)
        && n.leaders.contains_key(n.killer[c]) && n.killer[c] > c.term && n.unacked(
        c,
        n.supporters[n.killer[c]],
    ) by {
        assert(s.killer.contains_key(c));
        assert(s.unacked(c, s.supporters[s.killer[c]]));
    }
    assert(n.inv_alive()) by {
        assert forall|c: Clock, d: Clock|
            #[trigger] n.alive(c) && #[trigger] n.created.contains_key(d) && c.precedes_or_equals(
                d,
            ) implies d.index >= c.index && back(n.created, d, (d.index - c.index) as nat)
            == c by {
            assert(s.alive(c));
        }
    }
    assert(n.inv_elected()) by {
        assert forall|c: Clock, v: NodeId|
            #[trigger] n.alive(c) && n.members.contains(v) && (#[trigger] n.nodes[v]).leads
                && c.term < n.nodes[v].ballot.cur_term implies c.precedes_or_equals(
            last_clock_of(n.nodes[v].log),
        ) by {
            assert(s.alive(c));
        }
        assert forall|c: Clock, u: Term, x: NodeId|
            n.alive(c) && #[trigger] n.votes.contains_key((u, x)) && #[trigger] n.acks.contains(
                (c, x),
            ) && c.term < u && n.nodes[n.votes[(u, x)]].campaigns && n.term_of(n.votes[(u, x)])
                == u implies c.precedes_or_equals(last_clock_of(n.nodes[n.votes[(u, x)]].log)) by {
            assert(s.alive(c));
        }
    }
}

/// Taking note that a majority has acknowledged an entry keeps the committed
/// entries in order: the entry is alive, since every election needs the vote
/// of a node of that majority.
pub proof fn lemma_seal_commitment(s: Lane, clock: Clock, holders: Set<NodeId>)
    requires
        s.inv(),
        s.inv_commitment(),
        s.enabled(Step::Seal { clock, holders }),
    ensures
        s.next(Step::Seal { clock, holders }).inv_commitment(),
{
    let n = s.next(Step::Seal { clock, holders });
    lemma_same_but_sealed(s, n);
    if s.killer.contains_key(clock) {
        let later = s.killer[clock];
        let x = lemma_majorities_intersect(s.members, s.members, holders, s.supporters[later]);
        assert(s.acks.contains((clock, x)));
        assert(s.unacked(clock, s.supporters[later]));
    }
    assert(n.alive(clock));
    assert forall|c: Clock| #[trigger] n.sealed.contains(c) implies {
        &&& n.alive(c)
        &&& n.holders.contains_key(c)
        &&& n.holders[c].subset_of(n.members)
        &&& n.holders[c].len() >= quorum_of(n.members.len())
    } by {
        if c != clock {
            assert(s.sealed.contains(c));
        }
    }
    assert forall|c: Clock, h: NodeId|
        n.sealed.contains(c) && #[trigger] n.holders[c].contains(h) implies n.acks.contains(
        (c, h),
    ) by {
        if c != clock {
            assert(s.holders[c].contains(h));
        }
    }
}

/// An acknowledgement keeps the committed entries in order: the node holds
/// the entry, and it has not voted in a later term.
pub proof fn lemma_ack_commitment(s: Lane, node: NodeId, clock: Clock)
    requires
        s.inv(),
        s.inv_commitment(),
        s.enabled(Step::Ack { node, clock }),
    ensures
        s.next(Step::Ack { node, clock }).inv_commitment(),
{
    let n = s.next(Step::Ack { node, clock });
    assert(n.nodes == s.nodes);
    assert(n.votes == s.votes);
    assert(n.created == s.created);
    assert(n.killer == s.killer);
    assert(s.nodes.contains_key(node));
    assert forall|c: Clock| n.alive(c) == s.alive(c) by {}
    assert(n.inv_acks()) by {
        assert forall|c: Clock, x: NodeId| #[trigger] n.acks.contains((c, x)) implies n.acked_ok(
            c,
            x,
        ) by {
            if (c, x) == (clock, node) {
                lemma_last_is_latest(s.nodes[node].log, clock.index as int);
            } else {
                assert(s.acks.contains((c, x)));
                assert(s.acked_ok(c, x));
            }
        }
        assert forall|c: Clock| #[trigger] n.killer.contains_key(c) implies n.created.contains_key(
            c,
        ) && n.leaders.contains_key(n.killer[c]) && n.killer[c] > c.term && n.unacked(
            c,
            n.supporters[n.killer[c]],
        ) by {
            assert(s.killer.contains_key(c));
            assert(s.unacked(c, s.supporters[s.killer[c]]));
            assert forall|x: NodeId| n.supporters[n.killer[c]].contains(x) implies !#[trigger] n.acks.contains(
                (c, x),
            ) by {
                if (c, x) == (clock, node) {
                    // who voted in a later term is not in the term of the entry
                    assert(s.supporters[s.killer[c]].contains(x));
                    assert(s.votes.contains_key((s.killer[c], x)));
                    assert(s.term_of(x) >= s.killer[c]);
                } else {
                    assert(!s.acks.contains((c, x)));
                }
            }
        }
        assert forall|c: Clock, h: NodeId|
            n.sealed.contains(c) && #[trigger] n.holders[c].contains(h) implies n.acks.contains(
            (c, h),
        ) by {
            assert(s.holders[c].contains(h));
        }
    }
    assert(n.inv_alive()) by {
        assert forall|c: Clock, d: Clock|
            #[trigger] n.alive(c) && #[trigger] n.created.contains_key(d) && c.precedes_or_equals(
                d,
            ) implies d.index >= c.index && back(n.created, d, (d.index - c.index) as nat)
            == c by {
            assert(s.alive(c));
        }
    }
    assert(n.inv_elected()) by {
        assert forall|c: Clock, v: NodeId|
            #[trigger] n.alive(c) && n.members.contains(v) && (#[trigger] n.nodes[v]).leads
                && c.term < n.nodes[v].ballot.cur_term implies c.precedes_or_equals(
            last_clock_of(n.nodes[v].log),
        ) by {
            assert(s.alive(c));
        }
        assert forall|c: Clock, u: Term, x: NodeId|
            n.alive(c) && #[trigger] n.votes.contains_key((u, x)) && #[trigger] n.acks.contains(
                (c, x),
            ) && c.term < u && n.nodes[n.votes[(u, x)]].campaigns && n.term_of(n.votes[(u, x)])
                == u implies c.precedes_or_equals(last_clock_of(n.nodes[n.votes[(u, x)]].log)) by {
            assert(s.alive(c));
            if (c, x) == (clock, node) {
                // who acknowledges is in the term of the entry, and has not voted later
                assert(s.term_of(x) >= u);
            } else {
                assert(s.acks.contains((c, x)));
            }
        }
    }
}

/// Two entries on the way back from one entry: the lower is on the way back
/// from the higher.
proof fn lemma_same_chain(created: Map<Clock, EntryView>, end: Clock, x: Clock, c: Clock)
    requires
        chain_ok(created),
        created.contains_key(end),
        1 <= x.index <= end.index,
        1 <= c.index <= end.index,
        back(created, end, (end.index - x.index) as nat) == x,
        back(created, end, (end.index - c.index) as nat) == c,
    ensures
        x.index >= c.index ==> back(created, x, (x.index - c.index) as nat) == c
            && c.precedes_or_equals(x),
        x.index < c.index ==> back(created, c, (c.index - x.index) as nat) == x,
{
    if x.index >= c.index {
        lemma_back_twice(
            created,
            end,
            (end.index - x.index) as nat,
            (x.index - c.index) as nat,
        );
        lemma_back(created, end, (end.index - x.index) as nat);
        lemma_back(created, x, (x.index - c.index) as nat);
    } else {
        lemma_back_twice(
            created,
            end,
            (end.index - c.index) as nat,
            (c.index - x.index) as nat,
        );
    }
}

/// The last clock of the log of a member that holds entries is the clock of a
/// created entry at the last index, and every retained entry is on the way
/// back from it.
proof fn lemma_end_of_log(s: Lane, v: NodeId, i: int)
    requires
        s.inv(),
        chain_ok(s.created),
        s.members.contains(v),
        s.nodes[v].log.contains(i),
    ensures
        s.created.contains_key(last_clock_of(s.nodes[v].log)),
        last_clock_of(s.nodes[v].log).index == s.nodes[v].log.last_index(),
        s.nodes[v].log.at(i).this_clock.index == i,
        i >= 1,
        back(
            s.created,
            last_clock_of(s.nodes[v].log),
            (s.nodes[v].log.last_index() - i) as nat,
        ) == s.nodes[v].log.at(i).this_clock,
        s.known(s.nodes[v].log.at(i)),
{
    let log = s.nodes[v].log;
    assert(s.nodes.contains_key(v));
    assert(log.contains(log.last_index()));
    assert(entry_ok(log, log.last_index()));
    assert(entry_ok(log, i));
    assert(s.known(log.at(log.last_index())));
    lemma_log_is_chain(s, v, log.last_index(), i);
}

/// The log of a leader ends at or after every entry of its own term or of an
/// earlier one that is alive.
proof fn lemma_leader_is_recent(s: Lane, leader: NodeId, c: Clock)
    requires
        s.inv(),
        s.inv_commitment(),
        s.members.contains(leader),
        s.nodes[leader].leads,
        s.alive(c),
        c.term <= s.term_of(leader),
    ensures
        c.precedes_or_equals(last_clock_of(s.nodes[leader].log)),
        s.created.contains_key(last_clock_of(s.nodes[leader].log)),
        !s.nodes[leader].log.is_empty(),
        last_clock_of(s.nodes[leader].log).index == s.nodes[leader].log.last_index(),
{
    let log = s.nodes[leader].log;
    assert(s.nodes.contains_key(leader));
    assert(s.created.contains_key(c));
    if c.term == s.term_of(leader) {
        assert(c.index <= log.last_index());
        assert(last_clock_of(log).term == c.term);
    }
    assert(c.term >= 1);
    assert(!log.is_empty());
    assert(log.contains(log.last_index()));
    assert(entry_ok(log, log.last_index()));
    assert(s.known(log.at(log.last_index())));
}

/// A leader that appends keeps the committed entries in order: the entry it
/// creates descends from every entry of its own term or of an earlier one
/// that is alive.
pub proof fn lemma_append_commitment(s: Lane, node: NodeId, command: Seq<u8>)
    requires
        s.inv(),
        s.inv_commitment(),
        s.enabled(Step::Append { node, command }),
    ensures
        s.next(Step::Append { node, command }).inv_commitment(),
{
    let n = s.next(Step::Append { node, command });
    let log = s.nodes[node].log;
    let term = s.term_of(node);
    let e = crate::protocol::appended_entry(log, term, command);
    let d = e.this_clock;
    let p = e.prev_clock;
    assert(s.nodes.contains_key(node));
    crate::protocol::lemma_append(s, node, command);
    crate::protocol::lemma_append_keeps_order(log, term, command);
    assert(log.contains(log.last_index()));
    assert(entry_ok(log, log.last_index()));
    assert(s.known(log.at(log.last_index())));
    assert(p == last_clock_of(log));
    assert(s.created.contains_key(p));
    assert(p.index == log.last_index());
    let after = n.nodes[node].log;
    assert(after.entries =~= log.entries.push(e));
    assert(last_clock_of(after) == d);
    assert(n.created == s.created.insert(d, e));
    assert(p.precedes_or_equals(d));
    // the created entries are still chains
    assert(chain_ok(n.created)) by {
        assert forall|c: Clock| #[trigger] n.created.contains_key(c) implies {
            &&& n.created[c].this_clock == c
            &&& c.index >= 1
            &&& n.created[c].prev_clock.index + 1 == c.index
            &&& n.created[c].prev_clock.term <= c.term
            &&& (c.index >= 2 ==> n.created.contains_key(n.created[c].prev_clock))
        } by {
            if c != d {
                assert(s.created.contains_key(c));
            }
        }
    }
    // going back from an entry that was there leads where it led
    assert forall|c: Clock, k: nat|
        s.created.contains_key(c) && k < c.index implies #[trigger] back(n.created, c, k) == back(
        s.created,
        c,
        k,
    ) by {
        lemma_back_frame(s.created, d, e, c, k);
    }
    // going back from the new entry leads through the entry before it
    assert forall|k: nat| 0 < k < d.index implies #[trigger] back(n.created, d, k) == back(
        s.created,
        p,
        (k - 1) as nat,
    ) by {
        assert(back(n.created, d, k) == back(n.created, p, (k - 1) as nat));
    }
    assert(n.inv_terms()) by {
        assert forall|v: NodeId| n.members.contains(v) implies last_clock_of(
            (#[trigger] n.nodes[v]).log,
        ).term <= n.nodes[v].ballot.cur_term by {
            assert(s.nodes.contains_key(v));
            assert(last_clock_of(s.nodes[v].log).term <= s.nodes[v].ballot.cur_term);
        }
        assert forall|t: Term, v: NodeId| #[trigger] n.votes.contains_key((t, v))
            implies n.members.contains(
            n.votes[(t, v)],
        ) && t <= n.term_of(n.votes[(t, v)]) by {
            assert(s.votes.contains_key((t, v)));
            assert(s.nodes.contains_key(s.votes[(t, v)]));
        }
    }
    assert(n.inv_own()) by {
        assert forall|c: Clock, v: NodeId|
            #[trigger] n.created.contains_key(c) && n.members.contains(v) && (
            #[trigger] n.nodes[v]).leads && n.nodes[v].ballot.cur_term
                == c.term implies last_clock_of(n.nodes[v].log).term == c.term by {
            assert(s.nodes.contains_key(v));
            assert(s.nodes[v].leads);
            if v != node {
                // another leader leads another term
                assert(s.leaders[s.nodes[v].ballot.cur_term] == v);
                assert(s.leaders[term] == node);
                assert(s.created.contains_key(c));
            }
        }
        assert forall|c: Clock, x: Clock|
            #[trigger] n.created.contains_key(c) && #[trigger] n.created.contains_key(x) && c.term
                == x.term && c.index <= x.index implies back(
            n.created,
            x,
            (x.index - c.index) as nat,
        ) == c by {
            if x == d && c != d {
                // the entries of the leader's term so far end with the entry before
                assert(s.created.contains_key(c));
                assert(c.index <= log.last_index());
                assert(p.term == term);
                assert(back(s.created, p, (p.index - c.index) as nat) == c);
                assert(back(n.created, d, (d.index - c.index) as nat) == back(
                    s.created,
                    p,
                    (d.index - c.index - 1) as nat,
                ));
            } else if x != d {
                assert(s.created.contains_key(x));
                if c == d {
                    assert(x.index <= log.last_index());
                } else {
                    assert(s.created.contains_key(c));
                    assert(back(n.created, x, (x.index - c.index) as nat) == back(
                        s.created,
                        x,
                        (x.index - c.index) as nat,
                    ));
                }
            }
        }
    }
    // the new entry is alive unless a leader of a later term was elected
    assert forall|c: Clock| #[trigger] n.alive(c) && c != d implies s.alive(c) by {}
    assert forall|c: Clock| #[trigger] s.killer.contains_key(c) implies c != d by {}
    if s.outdated(term) {
        assert(s.leaders.contains_key(s.later_term(term)) && s.later_term(term) > term);
        assert(!n.alive(d));
    }
    assert(n.alive(d) ==> !s.outdated(term));
    assert(n.inv_acks()) by {
        assert forall|c: Clock, h: NodeId| #[trigger] n.acks.contains((c, h)) implies n.acked_ok(
            c,
            h,
        ) by {
            assert(s.acks.contains((c, h)));
            assert(s.acked_ok(c, h));
            assert(s.nodes.contains_key(h));
            if h == node && n.alive(c) {
                crate::clock::lemma_clock_order_transitive(c, p, d);
            }
        }
        assert forall|c: Clock| #[trigger] n.killer.contains_key(c) implies n.created.contains_key(
            c,
        ) && n.leaders.contains_key(n.killer[c]) && n.killer[c] > c.term && n.unacked(
            c,
            n.supporters[n.killer[c]],
        ) by {
            if c == d {
                assert forall|x: NodeId| n.supporters[n.killer[c]].contains(x) implies !#[trigger] n.acks.contains(
                    (c, x),
                ) by {
                    if s.acks.contains((c, x)) {
                        assert(s.acked_ok(c, x));
                    }
                }
            } else {
                assert(s.killer.contains_key(c));
                assert(s.unacked(c, s.supporters[s.killer[c]]));
            }
        }
        assert forall|c: Clock| #[trigger] n.sealed.contains(c) implies {
            &&& n.alive(c)
            &&& n.holders.contains_key(c)
            &&& n.holders[c].subset_of(n.members)
            &&& n.holders[c].len() >= quorum_of(n.members.len())
        } by {
            assert(s.sealed.contains(c));
        }
        assert forall|c: Clock, h: NodeId|
            n.sealed.contains(c) && #[trigger] n.holders[c].contains(h) implies n.acks.contains(
            (c, h),
        ) by {
            assert(s.holders[c].contains(h));
        }
    }
    assert(n.inv_alive()) by {
        assert forall|c: Clock, x: Clock|
            #[trigger] n.alive(c) && #[trigger] n.created.contains_key(x) && c.precedes_or_equals(
                x,
            ) implies x.index >= c.index && back(n.created, x, (x.index - c.index) as nat)
            == c by {
            if c == d {
                if x != d {
                    // an entry of a later term needs a leader of that term
                    assert(s.created.contains_key(x));
                    assert(x.index <= log.last_index() || x.term != term);
                    assert(x.term == 0 || s.leaders.contains_key(x.term));
                }
            } else if x == d {
                assert(s.alive(c));
                lemma_leader_is_recent(s, node, c);
                // the entry before the new one descends from the entry that is alive
                assert(p.index >= c.index && back(s.created, p, (p.index - c.index) as nat) == c);
                assert(back(n.created, d, (d.index - c.index) as nat) == back(
                    s.created,
                    p,
                    (d.index - c.index - 1) as nat,
                ));
            } else {
                assert(s.alive(c));
                assert(s.created.contains_key(x));
                assert(x.index >= c.index);
                assert(back(n.created, x, (x.index - c.index) as nat) == back(
                    s.created,
                    x,
                    (x.index - c.index) as nat,
                ));
            }
        }
    }
    assert(n.inv_elected()) by {
        assert forall|c: Clock, v: NodeId|
            #[trigger] n.alive(c) && n.members.contains(v) && (#[trigger] n.nodes[v]).leads
                && c.term < n.nodes[v].ballot.cur_term implies c.precedes_or_equals(
            last_clock_of(n.nodes[v].log),
        ) by {
            assert(s.nodes.contains_key(v));
            assert(s.nodes[v].leads);
            if c == d {
                // a leader of a later term leaves the new entry behind
                assert(s.leaders.contains_key(s.nodes[v].ballot.cur_term));
            } else {
                assert(s.alive(c));
                if v == node {
                    crate::clock::lemma_clock_order_transitive(c, p, d);
                }
            }
        }
        assert forall|c: Clock, u: Term, x: NodeId|
            n.alive(c) && #[trigger] n.votes.contains_key((u, x)) && #[trigger] n.acks.contains(
                (c, x),
            ) && c.term < u && n.nodes[n.votes[(u, x)]].campaigns && n.term_of(n.votes[(u, x)])
                == u implies c.precedes_or_equals(last_clock_of(n.nodes[n.votes[(u, x)]].log)) by {
            let who = n.votes[(u, x)];
            assert(s.acks.contains((c, x)));
            assert(s.acked_ok(c, x));
            assert(s.alive(c));
            assert(s.votes.contains_key((u, x)));
            assert(s.members.contains(who));
            assert(s.nodes.contains_key(who));
            assert(who != node);
        }
    }
}

/// What a leader offers to a follower whose log ends at or after an entry
/// that is alive is an entry at or after that entry, or an entry below it
/// whose clocks the follower holds already.
proof fn lemma_offer_descends(s: Lane, node: NodeId, leader: NodeId, e: EntryView, c: Clock)
    requires
        s.inv(),
        s.inv_commitment(),
        s.members.contains(node),
        s.sends(leader, node, e),
        s.known(e),
        s.alive(c),
        c.term <= s.term_of(node),
        c.precedes_or_equals(last_clock_of(s.nodes[node].log)),
    ensures
        c.precedes_or_equals(e.this_clock) || (e.this_clock.index < c.index && (
        s.nodes[node].log.contains(e.this_clock.index as int) ==> crate::command_log::holds_entry(
            s.nodes[node].log,
            e,
        ))),
{
    let created = s.created;
    let mine = s.nodes[node].log;
    let theirs = s.nodes[leader].log;
    let idx = e.this_clock.index as int;
    let end = last_clock_of(theirs);
    lemma_leader_is_recent(s, leader, c);
    lemma_end_of_log(s, leader, idx);
    assert(created.contains_key(c) && c.index >= 1);
    assert(end.index >= c.index && back(created, end, (end.index - c.index) as nat) == c);
    lemma_same_chain(created, end, e.this_clock, c);
    if idx < c.index && mine.contains(idx) {
        let own = last_clock_of(mine);
        lemma_end_of_log(s, node, idx);
        assert(own.index >= c.index && back(created, own, (own.index - c.index) as nat) == c);
        lemma_same_chain(created, own, mine.at(idx).this_clock, c);
        assert(mine.at(idx).this_clock == e.this_clock);
    }
}

/// What a leader offers is of no newer term than the leader's.
proof fn lemma_offer_is_old(s: Lane, node: NodeId, leader: NodeId, e: EntryView)
    requires
        s.inv(),
        s.inv_commitment(),
        s.members.contains(node),
        s.sends(leader, node, e),
    ensures
        e.this_clock.term <= s.term_of(node),
{
    let theirs = s.nodes[leader].log;
    assert(s.nodes.contains_key(leader));
    lemma_last_is_latest(theirs, e.this_clock.index as int);
    assert(last_clock_of(theirs).term <= s.nodes[leader].ballot.cur_term);
}

/// The committed entries stay in order when one node changes its log without
/// changing the clock of its last entry, and nothing else changes.
proof fn lemma_same_end(s: Lane, n: Lane, node: NodeId)
    requires
        s.inv(),
        s.inv_commitment(),
        n.members == s.members,
        n.votes == s.votes,
        n.created == s.created,
        n.acks == s.acks,
        n.sealed == s.sealed,
        n.holders == s.holders,
        n.killer == s.killer,
        n.leaders == s.leaders,
        n.supporters == s.supporters,
        s.members.contains(node),
        n.nodes == s.nodes.insert(node, n.nodes[node]),
        n.nodes[node] == (crate::protocol::Member {
            log: n.nodes[node].log,
            commit: n.nodes[node].commit,
            witness: n.nodes[node].witness,
            ..s.nodes[node]
        }),
        last_clock_of(n.nodes[node].log) == last_clock_of(s.nodes[node].log),
    ensures
        n.inv_commitment(),
{
    assert(s.nodes.contains_key(node));
    assert forall|v: NodeId| n.members.contains(v) implies last_clock_of(
        (#[trigger] n.nodes[v]).log,
    ) == last_clock_of(s.nodes[v].log) && n.nodes[v].ballot == s.nodes[v].ballot
        && n.nodes[v].leads == s.nodes[v].leads && n.nodes[v].campaigns
        == s.nodes[v].campaigns by {
        assert(s.nodes.contains_key(v));
    }
    assert forall|v: NodeId| s.members.contains(v) implies (#[trigger] n.nodes[v]).ballot.cur_term
        >= s.nodes[v].ballot.cur_term && last_clock_of(n.nodes[v].log).term
        <= n.nodes[v].ballot.cur_term by {
        assert(last_clock_of(s.nodes[v].log).term <= s.nodes[v].ballot.cur_term);
    }
    lemma_terms_frame(s, n);
    lemma_own_frame(s, n);
    assert forall|c: Clock, x: NodeId|
        #[trigger] s.acks.contains((c, x)) && s.alive(c) && c.precedes_or_equals(
            last_clock_of(s.nodes[x].log),
        ) implies c.precedes_or_equals(last_clock_of(n.nodes[x].log)) by {
        assert(s.acked_ok(c, x));
    }
    lemma_acks_frame(s, n);
    lemma_alive_frame(s, n);
    lemma_elected_frame(s, n);
}

/// The committed entries stay in order when a follower takes from its leader
/// an entry that becomes the last of its log, given that the entry is at or
/// after every entry that is alive and that the log ended at or after.
proof fn lemma_new_end(s: Lane, n: Lane, node: NodeId, leader: NodeId, e: EntryView)
    requires
        s.inv(),
        s.inv_commitment(),
        n.members == s.members,
        n.votes == s.votes,
        n.created == s.created,
        n.acks == s.acks,
        n.sealed == s.sealed,
        n.holders == s.holders,
        n.killer == s.killer,
        n.leaders == s.leaders,
        n.supporters == s.supporters,
        s.members.contains(node),
        !s.nodes[node].leads,
        !s.nodes[node].campaigns,
        s.sends(leader, node, e),
        n.nodes == s.nodes.insert(node, n.nodes[node]),
        n.nodes[node] == (crate::protocol::Member {
            log: n.nodes[node].log,
            commit: n.nodes[node].commit,
            witness: n.nodes[node].witness,
            ..s.nodes[node]
        }),
        last_clock_of(n.nodes[node].log) == e.this_clock,
        forall|c: Clock|
            #[trigger] s.alive(c) && c.term <= s.term_of(node) && c.precedes_or_equals(
                last_clock_of(s.nodes[node].log),
            ) ==> c.precedes_or_equals(e.this_clock),
    ensures
        n.inv_commitment(),
{
    assert(s.nodes.contains_key(node));
    lemma_offer_is_old(s, node, leader, e);
    assert forall|v: NodeId| n.members.contains(v) implies v == node || #[trigger] n.nodes[v]
        == s.nodes[v] by {}
    assert forall|v: NodeId| s.members.contains(v) implies (#[trigger] n.nodes[v]).ballot.cur_term
        >= s.nodes[v].ballot.cur_term && last_clock_of(n.nodes[v].log).term
        <= n.nodes[v].ballot.cur_term by {
        assert(last_clock_of(s.nodes[v].log).term <= s.nodes[v].ballot.cur_term);
    }
    lemma_terms_frame(s, n);
    lemma_own_frame(s, n);
    assert forall|c: Clock, x: NodeId|
        #[trigger] s.acks.contains((c, x)) && s.alive(c) && c.precedes_or_equals(
            last_clock_of(s.nodes[x].log),
        ) implies c.precedes_or_equals(last_clock_of(n.nodes[x].log)) by {
        assert(s.acked_ok(c, x));
    }
    lemma_acks_frame(s, n);
    lemma_alive_frame(s, n);
    lemma_elected_frame(s, n);
}

/// A follower that takes an offered entry keeps the committed entries in
/// order: it loses no entry that is alive and that its log ended at or after.
pub proof fn lemma_replicate_commitment(
    s: Lane,
    node: NodeId,
    leader: NodeId,
    entry: EntryView,
    snapshot: Index,
    commit: Index,
)
    requires
        s.inv(),
        s.inv_commitment(),
        s.enabled(Step::Replicate { node, leader, entry, snapshot, commit }),
    ensures
        s.next(Step::Replicate { node, leader, entry, snapshot, commit }).inv_commitment(),
{
    let n = s.next(Step::Replicate { node, leader, entry, snapshot, commit });
    let log = s.nodes[node].log;
    let after = crate::protocol::offered(log, snapshot, commit, entry);
    assert(s.nodes.contains_key(node));
    crate::protocol::lemma_offer_keeps_order(log, snapshot, commit, entry);
    if after == log {
        lemma_same_end(s, n, node);
    } else {
        let idx = entry.this_clock.index as int;
        assert(after.contains(idx));
        assert(last_clock_of(after) == entry.this_clock);
        assert forall|c: Clock|
            #[trigger] s.alive(c) && c.term <= s.term_of(node) && c.precedes_or_equals(
                last_clock_of(log),
            ) implies c.precedes_or_equals(entry.this_clock) by {
            lemma_offer_descends(s, node, leader, entry, c);
            if !c.precedes_or_equals(entry.this_clock) {
                // the log ends at or after the entry, so it holds the index offered
                assert(!log.is_empty());
                assert(log.contains(log.last_index()));
                assert(entry_ok(log, log.last_index()));
                assert(c.index <= log.last_index()) by {
                    assert(s.created.contains_key(last_clock_of(log))) by {
                        assert(s.known(log.at(log.last_index())));
                    }
                }
                assert(log.contains(idx));
            }
        }
        lemma_new_end(s, n, node, leader, entry);
    }
}

/// A follower that takes a snapshot entry keeps the committed entries in
/// order: it loses no entry that is alive and that its log ended at or after.
pub proof fn lemma_install_commitment(s: Lane, node: NodeId, leader: NodeId, entry: EntryView)
    requires
        s.inv(),
        s.inv_commitment(),
        s.enabled(Step::Install { node, leader, entry }),
    ensures
        s.next(Step::Install { node, leader, entry }).inv_commitment(),
{
    let n = s.next(Step::Install { node, leader, entry });
    let log = s.nodes[node].log;
    let idx = entry.this_clock.index as int;
    assert(s.nodes.contains_key(node));
    if crate::command_log::holds_entry(log, entry) {
        let after = n.nodes[node].log;
        assert(after.entries =~= log.entries.update(idx - log.head, entry));
        assert(log.contains(log.last_index()));
        assert(last_clock_of(after) == last_clock_of(log));
        lemma_same_end(s, n, node);
    } else {
        assert(last_clock_of(n.nodes[node].log) == entry.this_clock);
        assert forall|c: Clock|
            #[trigger] s.alive(c) && c.term <= s.term_of(node) && c.precedes_or_equals(
                last_clock_of(log),
            ) implies c.precedes_or_equals(entry.this_clock) by {
            lemma_offer_descends(s, node, leader, entry, c);
            if !c.precedes_or_equals(entry.this_clock) {
                assert(!log.is_empty());
                assert(log.contains(log.last_index()));
                assert(entry_ok(log, log.last_index()));
                assert(c.index <= log.last_index()) by {
                    assert(s.created.contains_key(last_clock_of(log))) by {
                        assert(s.known(log.at(log.last_index())));
                    }
                }
                assert(log.contains(idx));
            }
        }
        lemma_new_end(s, n, node, leader, entry);
    }
}

/// A node that rewrites an entry into a snapshot entry keeps the committed
/// entries in order.
pub proof fn lemma_rewrite_commitment(s: Lane, node: NodeId, index: Index, membership: Seq<NodeId>)
    requires
        s.inv(),
        s.inv_commitment(),
        s.enabled(Step::Rewrite { node, index, membership }),
    ensures
        s.next(Step::Rewrite { node, index, membership }).inv_commitment(),
{
    let n = s.next(Step::Rewrite { node, index, membership });
    let log = s.nodes[node].log;
    let command = crate::command::encode_command(crate::command::CommandView::Snapshot(membership));
    assert(s.nodes.contains_key(node));
    crate::command::lemma_decode_encode_command(crate::command::CommandView::Snapshot(membership));
    crate::protocol::lemma_rewrite_keeps_order(log, index, command);
    assert(log.contains(log.last_index()));
    lemma_same_end(s, n, node);
}

/// A node that drops the front of its log keeps the committed entries in order.
pub proof fn lemma_compact_commitment(s: Lane, node: NodeId, before: Index)
    requires
        s.inv(),
        s.inv_commitment(),
        s.enabled(Step::Compact { node, before }),
    ensures
        s.next(Step::Compact { node, before }).inv_commitment(),
{
    let n = s.next(Step::Compact { node, before });
    let log = s.nodes[node].log;
    assert(s.nodes.contains_key(node));
    crate::protocol::lemma_compact_keeps_order(log, before);
    if !log.is_empty() {
        assert(log.contains(log.last_index()));
        assert(log.delete_before(before).contains(log.last_index()));
    }
    lemma_same_end(s, n, node);
}

/// A node that starts the cluster keeps the committed entries in order.
pub proof fn lemma_bootstrap_commitment(s: Lane, node: NodeId)
    requires
        s.inv(),
        s.inv_commitment(),
        s.enabled(Step::Bootstrap { node }),
    ensures
        s.next(Step::Bootstrap { node }).inv_commitment(),
{
    let n = s.next(Step::Bootstrap { node });
    assert(s.nodes.contains_key(node));
    let first = Clock { term: 0, index: 1 };
    let second = Clock { term: 0, index: 2 };
    assert forall|c: Clock| #[trigger] s.created.contains_key(c) implies c == first && c
        == second by {
        assert(s.created.dom().contains(c));
    }
    assert forall|c: Clock| #[trigger] s.sealed.contains(c) implies c == first && c == second by {
        assert(s.created.contains_key(c));
    }
    assert(n.created.contains_key(first) && n.created.contains_key(second));
    assert forall|c: Clock| #[trigger] n.created.contains_key(c) implies c == first || c
        == second by {}
    assert(chain_ok(n.created));
    assert(n.nodes[node].log.entries.len() == 2);
    assert(last_clock_of(n.nodes[node].log) == second);
    assert(n.inv_terms()) by {
        assert forall|v: NodeId| n.members.contains(v) implies last_clock_of(
            (#[trigger] n.nodes[v]).log,
        ).term <= n.nodes[v].ballot.cur_term by {
            assert(s.nodes.contains_key(v));
            assert(last_clock_of(s.nodes[v].log).term <= s.nodes[v].ballot.cur_term);
        }
        assert forall|t: Term, v: NodeId| #[trigger] n.votes.contains_key((t, v))
            implies n.members.contains(
            n.votes[(t, v)],
        ) && t <= n.term_of(n.votes[(t, v)]) by {
            assert(s.votes.contains_key((t, v)));
            assert(s.nodes.contains_key(s.votes[(t, v)]));
        }
    }
    assert(n.inv_own()) by {
        assert forall|c: Clock, v: NodeId|
            #[trigger] n.created.contains_key(c) && n.members.contains(v) && (
            #[trigger] n.nodes[v]).leads && n.nodes[v].ballot.cur_term
                == c.term implies last_clock_of(n.nodes[v].log).term == c.term by {
            assert(s.nodes.contains_key(v));
            assert(s.nodes[v].leads);
            assert(s.nodes[v].ballot.cur_term >= 1);
        }
        assert forall|c: Clock, d: Clock|
            #[trigger] n.created.contains_key(c) && #[trigger] n.created.contains_key(d) && c.term
                == d.term && c.index <= d.index implies back(
            n.created,
            d,
            (d.index - c.index) as nat,
        ) == c by {
            if c == first && d == second {
                assert(back(n.created, second, 1) == back(n.created, first, 0));
            }
        }
    }
    assert(n.inv_acks());
    assert(n.inv_alive());
    assert(n.inv_elected());
}

/// Every step that can be taken keeps the committed entries in order.
pub proof fn lemma_step_keeps_commitment(s: Lane, step: Step)
    requires
        s.inv(),
        s.inv_commitment(),
        s.enabled(step),
    ensures
        s.next(step).inv_commitment(),
{
    match step {
        Step::Bootstrap { node } => lemma_bootstrap_commitment(s, node),
        Step::Campaign { node } => lemma_campaign_commitment(s, node),
        Step::Vote { node, req } => lemma_vote_commitment(s, node, req),
        Step::Elect { node, supporters } => lemma_elect_commitment(s, node, supporters),
        Step::Yield { node, term } => lemma_yield_commitment(s, node, term),
        Step::Append { node, command } => lemma_append_commitment(s, node, command),
        Step::Replicate { node, leader, entry, snapshot, commit } => lemma_replicate_commitment(
            s,
            node,
            leader,
            entry,
            snapshot,
            commit,
        ),
        Step::Rewrite { node, index, membership } => lemma_rewrite_commitment(
            s,
            node,
            index,
            membership,
        ),
        Step::Compact { node, before } => lemma_compact_commitment(s, node, before),
        Step::Install { node, leader, entry } => lemma_install_commitment(s, node, leader, entry),
        Step::Ack { node, clock } => lemma_ack_commitment(s, node, clock),
        Step::Seal { clock, holders } => lemma_seal_commitment(s, clock, holders),
        Step::LeaderCommit { node, clock } => {
            assert(s.nodes.contains_key(node));
            lemma_same_end(s, s.next(step), node);
        },
        Step::FollowerCommit { node, leader, upto } => {
            assert(s.nodes.contains_key(node));
            lemma_same_end(s, s.next(step), node);
        },
    }
}

/// The committed entries are in order before anything happened.
pub proof fn lemma_initial_commitment(s: Lane)
    requires
        s.initial(),
    ensures
        s.inv_commitment(),
{
    assert forall|v: NodeId| s.members.contains(v) implies last_clock_of(
        (#[trigger] s.nodes[v]).log,
    ).term <= s.nodes[v].ballot.cur_term by {}
}

/// The committed entries are in order in every state of every run.
pub proof fn lemma_run_keeps_commitment(states: Seq<Lane>, steps: Seq<Step>, k: int)
    requires
        crate::protocol::is_run(states, steps),
        0 <= k < states.len(),
    ensures
        states[k].inv(),
        states[k].inv_commitment(),
    decreases k,
{
    crate::protocol::lemma_run_keeps_invariant(states, steps, k);
    if k == 0 {
        lemma_initial_commitment(states[0]);
    } else {
        lemma_run_keeps_commitment(states, steps, k - 1);
        assert(crate::protocol::follows(states, steps, k - 1));
        lemma_step_keeps_commitment(states[k - 1], steps[k - 1]);
    }
}

/// Leader completeness: in every state of every run, the log of a member
/// that leads a term ends at or after every entry that was sealed in that
/// term or an earlier one, and where it retains the index of such an entry or
/// an index below it, it holds the entry, or its ancestor at that index.
pub proof fn theorem_leader_completeness(
    states: Seq<Lane>,
    steps: Seq<Step>,
    k: int,
    leader: NodeId,
    c: Clock,
    m: int,
)
    requires
        crate::protocol::is_run(states, steps),
        0 <= k < states.len(),
        states[k].members.contains(leader),
        states[k].nodes[leader].leads,
        states[k].sealed.contains(c),
        c.term <= states[k].term_of(leader),
        m <= c.index,
        states[k].nodes[leader].log.contains(m),
    ensures
        c.precedes_or_equals(last_clock_of(states[k].nodes[leader].log)),
        states[k].nodes[leader].log.at(m).this_clock == back(
            states[k].created,
            c,
            (c.index - m) as nat,
        ),
        m == c.index ==> states[k].nodes[leader].log.at(m).this_clock == c,
{
    lemma_run_keeps_commitment(states, steps, k);
    let s = states[k];
    let log = s.nodes[leader].log;
    let end = last_clock_of(log);
    lemma_leader_is_recent(s, leader, c);
    lemma_end_of_log(s, leader, m);
    assert(s.created.contains_key(c));
    assert(end.index >= c.index && back(s.created, end, (end.index - c.index) as nat) == c);
    lemma_same_chain(s.created, end, log.at(m).this_clock, c);
}

/// The committed entries are one chain: in every state of every run, of two
/// sealed entries the one at the lower index is an ancestor of the other, and
/// two sealed entries at one index are one entry.
pub proof fn theorem_sealed_entries_are_one_chain(
    states: Seq<Lane>,
    steps: Seq<Step>,
    k: int,
    c: Clock,
    d: Clock,
)
    requires
        crate::protocol::is_run(states, steps),
        0 <= k < states.len(),
        states[k].sealed.contains(c),
        states[k].sealed.contains(d),
        c.index <= d.index,
    ensures
        back(states[k].created, d, (d.index - c.index) as nat) == c,
        c.index == d.index ==> c == d,
{
    lemma_run_keeps_commitment(states, steps, k);
    let s = states[k];
    assert(s.created.contains_key(c) && s.created.contains_key(d));
    if !c.precedes_or_equals(d) {
        assert(d.precedes_or_equals(c));
        assert(c.index >= d.index);
    }
}

/// The log of a leader holds an entry of its term or an earlier one that is
/// alive, or its ancestor, at every index at or below the entry's that it
/// retains.
pub proof fn lemma_leader_holds(s: Lane, leader: NodeId, c: Clock, m: int)
    requires
        s.inv(),
        s.inv_commitment(),
        s.members.contains(leader),
        s.nodes[leader].leads,
        s.alive(c),
        c.term <= s.term_of(leader),
        m <= c.index,
        s.nodes[leader].log.contains(m),
    ensures
        s.nodes[leader].log.at(m).this_clock == back(s.created, c, (c.index - m) as nat),
{
    let log = s.nodes[leader].log;
    let end = last_clock_of(log);
    lemma_leader_is_recent(s, leader, c);
    lemma_end_of_log(s, leader, m);
    assert(s.created.contains_key(c));
    assert(end.index >= c.index && back(s.created, end, (end.index - c.index) as nat) == c);
    lemma_same_chain(s.created, end, log.at(m).this_clock, c);
}

/// An entry that a log retains stands for a created entry of its index.
pub proof fn lemma_end_of_log_entry(s: Lane, v: NodeId, i: int)
    requires
        s.inv(),
        s.inv_commitment(),
        s.members.contains(v),
        s.nodes[v].log.contains(i),
    ensures
        s.known(s.nodes[v].log.at(i)),
        s.nodes[v].log.at(i).this_clock.index == i,
{
    lemma_end_of_log(s, v, i);
}

/// Of two entries that are alive the one at the lower index is an ancestor
/// of the other.
pub proof fn lemma_alive_chain(s: Lane, c: Clock, d: Clock)
    requires
        s.inv(),
        s.inv_commitment(),
        s.alive(c),
        s.alive(d),
        c.index <= d.index,
    ensures
        back(s.created, d, (d.index - c.index) as nat) == c,
{
    if !c.precedes_or_equals(d) {
        assert(d.precedes_or_equals(c));
        assert(c.index >= d.index);
    }
}

} // verus!
