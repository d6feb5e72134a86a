//! What the rules of the lane guarantee, proved from the contracts of the
//! operations: at most one leader per term, agreement of logs below a common
//! entry, recency of an elected leader's log, and pointers that never go back.

use crate::ballot::Vote;
use crate::clock::{Clock, NodeId, Term};
use crate::command_log::{insert_case, Applied, InsertCase};
use crate::entry::EntryView;
use crate::log_model::{entries_ok, entry_ok, lemma_clocks_ascend, CommandLogView};
use crate::log_store::LogView;
use crate::membership::quorum_of;
use crate::process::{after_offer, offer_result};
use crate::voter::{ballot_step, grants, VoteRequest};
use vstd::prelude::*;
use vstd::set_lib::{lemma_len_subset, lemma_set_empty_equivalency_len,
    lemma_set_intersect_union_lens};

verus! {

/// Two majorities share a member, also when one is a majority of a membership
/// and the other of that membership with one member more.
pub proof fn lemma_majorities_intersect(
    small: Set<NodeId>,
    large: Set<NodeId>,
    a: Set<NodeId>,
    b: Set<NodeId>,
) -> (v: NodeId)
    requires
        large.finite(),
        small.subset_of(large),
        large.len() <= small.len() + 1,
        a.subset_of(small),
        b.subset_of(large),
        a.len() >= quorum_of(small.len()),
        b.len() >= quorum_of(large.len()),
    ensures
        a.contains(v),
        b.contains(v),
{
    lemma_len_subset(small, large);
    lemma_len_subset(a, small);
    lemma_len_subset(b, large);
    lemma_len_subset(a + b, large);
    lemma_len_subset(a.intersect(b), a);
    lemma_set_intersect_union_lens(a, b);
    let s = small.len();
    let l = large.len();
    assert(s / 2 + l / 2 + 2 > l) by (nonlinear_arith)
        requires
            s <= l <= s + 1,
    ;
    assert(a.intersect(b).len() >= 1);
    lemma_set_empty_equivalency_len(a.intersect(b));
    let v = choose|v: NodeId| a.intersect(b).contains(v);
    v
}

/// A ballot may follow itself, and what may follow a follower may follow.
pub proof fn lemma_ballot_step_is_preorder(a: Vote, b: Vote, c: Vote)
    ensures
        ballot_step(a, a),
        ballot_step(a, b) && ballot_step(b, c) ==> ballot_step(a, c),
{
}

/// The ballots that one node held over time, in order. Every operation of a
/// voter leaves the ballot as it was or moves it by a [`ballot_step`].
pub open spec fn history_ok(h: Seq<Vote>) -> bool {
    forall|i: int| 0 <= i && i + 1 < h.len() ==> ballot_step(#[trigger] h[i], h[i + 1])
}

/// Whether the node voted for `c` in term `t` at some time.
pub open spec fn voted_for(h: Seq<Vote>, t: Term, c: NodeId) -> bool {
    exists|i: int| 0 <= i < h.len() && #[trigger] h[i] == (Vote { cur_term: t, voted_for: Some(c) })
}

/// Any later ballot of a history may follow any earlier one.
pub proof fn lemma_history_steps(h: Seq<Vote>, i: int, j: int)
    requires
        history_ok(h),
        0 <= i <= j < h.len(),
    ensures
        ballot_step(h[i], h[j]),
    decreases j - i,
{
    if i < j {
        lemma_history_steps(h, i, j - 1);
        assert(ballot_step(h[j - 1], h[j - 1 + 1]));
        lemma_ballot_step_is_preorder(h[i], h[j - 1], h[j]);
    }
}

/// A node votes for one candidate per term at most.
pub proof fn lemma_one_vote_per_term(h: Seq<Vote>, t: Term, c1: NodeId, c2: NodeId)
    requires
        history_ok(h),
        voted_for(h, t, c1),
        voted_for(h, t, c2),
    ensures
        c1 == c2,
{
    let i = choose|i: int|
        0 <= i < h.len() && #[trigger] h[i] == (Vote { cur_term: t, voted_for: Some(c1) });
    let j = choose|j: int|
        0 <= j < h.len() && #[trigger] h[j] == (Vote { cur_term: t, voted_for: Some(c2) });
    if i <= j {
        lemma_history_steps(h, i, j);
    } else {
        lemma_history_steps(h, j, i);
    }
}

/// Whether every node of `supporters` voted for `c` in term `t`, and they are
/// a majority of `electorate`.
pub open spec fn elected_by(
    histories: Map<NodeId, Seq<Vote>>,
    electorate: Set<NodeId>,
    supporters: Set<NodeId>,
    t: Term,
    c: NodeId,
) -> bool {
    &&& supporters.subset_of(electorate)
    &&& supporters.len() >= quorum_of(electorate.len())
    &&& forall|v: NodeId|
        supporters.contains(v)
            ==> histories.contains_key(v) && voted_for(#[trigger] histories[v], t, c)
}

/// Election safety: two nodes that were each elected in the same term, by
/// majorities of the same membership or of memberships that differ by one
/// server, are the same node.
pub proof fn theorem_election_safety(
    histories: Map<NodeId, Seq<Vote>>,
    small: Set<NodeId>,
    large: Set<NodeId>,
    t: Term,
    c1: NodeId,
    supporters1: Set<NodeId>,
    c2: NodeId,
    supporters2: Set<NodeId>,
)
    requires
        forall|v: NodeId| histories.contains_key(v) ==> history_ok(#[trigger] histories[v]),
        large.finite(),
        small.subset_of(large),
        large.len() <= small.len() + 1,
        elected_by(histories, small, supporters1, t, c1),
        elected_by(histories, large, supporters2, t, c2),
    ensures
        c1 == c2,
{
    let v = lemma_majorities_intersect(small, large, supporters1, supporters2);
    assert(voted_for(histories[v], t, c1));
    assert(voted_for(histories[v], t, c2));
    lemma_one_vote_per_term(histories[v], t, c1, c2);
}

/// A vote that is given binds the ballot: after a binding request was
/// granted, the ballot names the request's term and candidate.
pub proof fn lemma_granted_vote_is_recorded(ballot: Vote, req: VoteRequest, local_last: Clock)
    requires
        grants(ballot, req, local_last),
        !req.prevote,
    ensures
        crate::voter::ballot_after_request(ballot, req, local_last) == (Vote {
            cur_term: req.term,
            voted_for: Some(req.candidate_id),
        }),
        ballot_step(ballot, crate::voter::ballot_after_request(ballot, req, local_last)),
{
}

/// Whether entries of the same clock name the same predecessor wherever they
/// occur in the two logs. This holds of the logs of one lane; see
/// [`crate::protocol::theorem_log_matching`].
pub open spec fn clocks_name_predecessors(a: LogView, b: LogView) -> bool {
    forall|j: int, k: int|
        a.contains(j) && b.contains(k) && (#[trigger] a.at(j)).this_clock == (#[trigger] b.at(
            k,
        )).this_clock ==> a.at(j).prev_clock == b.at(k).prev_clock
}

/// Log matching, for any two logs in which entries of the same clock name the
/// same predecessor: when they hold an entry of the same clock at index `i`,
/// they hold entries of the same clocks at every index from `j` to `i` that
/// both retain.
pub proof fn lemma_log_matching(a: LogView, b: LogView, i: int, j: int)
    requires
        entries_ok(a),
        entries_ok(b),
        clocks_name_predecessors(a, b),
        j <= i,
        forall|m: int| j <= m <= i ==> a.contains(m) && b.contains(m),
        a.at(i).this_clock == b.at(i).this_clock,
    ensures
        a.at(j).this_clock == b.at(j).this_clock,
        a.at(j).prev_clock == b.at(j).prev_clock,
    decreases i - j,
{
    assert(a.contains(j) && b.contains(j));
    if j < i {
        lemma_log_matching(a, b, i, j + 1);
        assert(a.contains(j + 1) && b.contains(j + 1));
        assert(entry_ok(a, j + 1));
        assert(entry_ok(b, j + 1));
    }
}

/// The last clock of a well-formed log is at or after the clock of every
/// entry that the log retains.
pub proof fn lemma_last_clock_covers(s: CommandLogView, i: int)
    requires
        s.wf(),
        s.log.contains(i),
    ensures
        s.log.at(i).this_clock.precedes_or_equals(s.last_clock()),
{
    assert(s.log.contains(s.log.last_index()));
    lemma_clocks_ascend(s.log, i, s.log.last_index());
}

/// The log of an elected leader is at least as recent as a committed entry:
/// when a majority holds an entry of clock `committed`, and a majority grants
/// its vote to a request, then the candidate's log ends at or after
/// `committed`. The two majorities may be of memberships that differ by one
/// server.
pub proof fn lemma_elected_log_is_recent(
    small: Set<NodeId>,
    large: Set<NodeId>,
    holders: Set<NodeId>,
    voters: Set<NodeId>,
    last_clocks: Map<NodeId, Clock>,
    ballots: Map<NodeId, Vote>,
    committed: Clock,
    req: VoteRequest,
)
    requires
        large.finite(),
        small.subset_of(large),
        large.len() <= small.len() + 1,
        holders.subset_of(small),
        holders.len() >= quorum_of(small.len()),
        voters.subset_of(large),
        voters.len() >= quorum_of(large.len()),
        forall|h: NodeId|
            holders.contains(h) ==> last_clocks.contains_key(h) && committed.precedes_or_equals(
                #[trigger] last_clocks[h],
            ),
        forall|v: NodeId|
            voters.contains(v) ==> last_clocks.contains_key(v) && ballots.contains_key(v) && grants(
                #[trigger] ballots[v],
                req,
                last_clocks[v],
            ),
    ensures
        committed.precedes_or_equals(req.last_clock),
{
    let v = lemma_majorities_intersect(small, large, holders, voters);
    assert(committed.precedes_or_equals(last_clocks[v]));
    assert(grants(ballots[v], req, last_clocks[v]));
    crate::clock::lemma_clock_order_transitive(committed, last_clocks[v], req.last_clock);
}

/// Two nodes that hold the same entry at an index hand the same command over
/// for it.
pub proof fn lemma_same_entry_same_command(a: LogView, b: LogView, i: int, x: Applied, y: Applied)
    requires
        a.at(i) == b.at(i),
        crate::command_log::applied_at(a, i, x),
        crate::command_log::applied_at(b, i, y),
    ensures
        x.index == y.index,
        x.command@ == y.command@,
{
}

/// Two nodes whose logs agree from index `from + 1` to index `upto` hand over
/// the same indexes and the same commands for that range, in the same order.
pub proof fn lemma_same_log_same_execution(
    a: LogView,
    b: LogView,
    from: int,
    upto: int,
    xs: Seq<Applied>,
    ys: Seq<Applied>,
)
    requires
        from <= upto,
        forall|i: int| from < i <= upto ==> a.at(i) == b.at(i),
        xs.len() == upto - from,
        ys.len() == upto - from,
        forall|k: int| 0 <= k < xs.len()
            ==> crate::command_log::applied_at(a, from + 1 + k, #[trigger] xs[k]),
        forall|k: int| 0 <= k < ys.len()
            ==> crate::command_log::applied_at(b, from + 1 + k, #[trigger] ys[k]),
    ensures
        forall|k: int|
            0 <= k < xs.len() ==> (#[trigger] xs[k]).index == ys[k].index && xs[k].command@
                == ys[k].command@,
{
    assert forall|k: int| 0 <= k < xs.len() implies (#[trigger] xs[k]).index == ys[k].index
        && xs[k].command@ == ys[k].command@ by {
        lemma_same_entry_same_command(a, b, from + 1 + k, xs[k], ys[k]);
    }
}

/// The snapshot, commit and applied pointers of a lane never go back: when no
/// step of a run moves a pointer back, no later state has a pointer behind an
/// earlier state.
pub proof fn lemma_pointers_never_go_back(states: Seq<CommandLogView>, i: int, j: int)
    requires
        forall|k: int|
            0 <= k && k + 1 < states.len() ==> (#[trigger] states[k]).pointers_not_after(
                states[k + 1],
            ),
        0 <= i <= j < states.len(),
    ensures
        states[i].pointers_not_after(states[j]),
    decreases j - i,
{
    if i < j {
        lemma_pointers_never_go_back(states, i, j - 1);
        assert(states[j - 1].pointers_not_after(states[j - 1 + 1]));
    }
}

/// Offering an entry with the clock of its predecessor a second time returns
/// what the first offer returned and changes nothing further.
pub proof fn lemma_insert_is_idempotent(s: CommandLogView, e: EntryView)
    requires
        s.wf(),
    ensures
        offer_result(after_offer(s, e, e.prev_clock), e, e.prev_clock) == offer_result(
            s,
            e,
            e.prev_clock,
        ),
        after_offer(after_offer(s, e, e.prev_clock), e, e.prev_clock) == after_offer(
            s,
            e,
            e.prev_clock,
        ),
{
    let once = after_offer(s, e, e.prev_clock);
    let i = e.this_clock.index as int;
    match insert_case(s, e, e.prev_clock) {
        InsertCase::Replaces => {
            assert(once.log.entries =~= s.log.entries.take(i - s.log.head).push(e));
            assert(once.log.contains(i));
            assert(once.log.at(i) == e);
            assert(once.log.contains(i - 1));
            assert(once.log.at(i - 1) == s.log.at(i - 1));
            assert(insert_case(once, e, e.prev_clock) is Present);
        },
        InsertCase::Extends => {
            assert(once.log.entries =~= s.log.entries.push(e));
            assert(once.log.contains(i));
            assert(once.log.at(i) == e);
            assert(once.log.contains(i - 1));
            assert(once.log.at(i - 1) == s.log.at(i - 1));
            assert(insert_case(once, e, e.prev_clock) is Present);
        },
        _ => {},
    }
}

/// Asking for a commit pointer at or below the present one changes nothing.
pub proof fn lemma_commit_at_or_below_is_noop(s: CommandLogView, i: crate::clock::Index)
    requires
        s.wf(),
        i <= s.commit_pointer,
    ensures
        (CommandLogView {
            commit_pointer: if i <= s.commit_pointer {
                s.commit_pointer
            } else if i <= s.log.last_index() {
                i
            } else {
                s.log.last_index() as crate::clock::Index
            },
            ..s
        }) == s,
{
}

} // verus!
