//! Election state of one lane on one node: the role it plays, the ballot it has
//! cast, the poll it is running, and the rules by which these change.

use crate::ballot::{BallotStore, Vote};
use crate::clock::{Clock, NodeId, Term};
use crate::command_log::CommandLog;
use crate::log_model::CommandLogView;
use crate::error::Error;
use crate::membership::{lemma_ascending_len_is_cardinality, quorum_of, Membership};
use vstd::prelude::*;

verus! {

/// Shortest time, in milliseconds, that a node waits for a leader before it
/// calls an election.
pub const ELECTION_TIMEOUT_MIN_MS: u64 = 300;

/// Longest time, in milliseconds, that a node waits for a leader before it
/// calls an election.
pub const ELECTION_TIMEOUT_MAX_MS: u64 = 600;

/// The role of a node in its lane.
#[derive(Clone, Copy, Debug, PartialEq, Eq, Structural)]
pub enum ElectionState {
    Follower,
    Candidate,
    Leader,
}

/// A request for a vote, or for a straw vote when `prevote` is set.
#[derive(Clone, Copy, Debug, PartialEq, Eq, Structural)]
pub struct VoteRequest {
    pub candidate_id: NodeId,
    pub term: Term,
    pub last_clock: Clock,
    pub prevote: bool,
}

/// The answer to a [`VoteRequest`].
#[derive(Clone, Copy, Debug, PartialEq, Eq, Structural)]
pub struct VoteResponse {
    pub vote_granted: bool,
    pub term: Term,
}

/// What a node that takes part in an election does next.
#[derive(Clone, Copy, Debug, PartialEq, Eq, Structural)]
pub enum ElectionStep {
    /// Nothing.
    Idle,
    /// Send this request to every other member of the electorate.
    Poll(VoteRequest),
    /// The node has become leader of the term of its ballot.
    Elected,
}

/// Why a node does not step down.
#[derive(Clone, Copy, Debug, PartialEq, Eq, Structural)]
pub enum Stepdown {
    /// The node does not lead.
    NotLeader,
    /// The latest membership change is not committed yet.
    MembershipNotCommitted,
    /// The log holds no membership at its membership pointer.
    MembershipUnknown,
    /// The committed membership still includes the node.
    StillMember,
}

/// Why a node in state `voter` with log `log` does not step down; `None`
/// when it must: it leads, its latest membership change is committed, and
/// the membership in force does not include it.
pub open spec fn stepdown_refusal(voter: VoterView, log: CommandLogView) -> Option<Stepdown> {
    if voter.state != ElectionState::Leader {
        Some(Stepdown::NotLeader)
    } else if log.membership_pointer > log.commit_pointer {
        Some(Stepdown::MembershipNotCommitted)
    } else if log.membership_at(log.membership_pointer as int) is None {
        Some(Stepdown::MembershipUnknown)
    } else if log.membership_at(log.membership_pointer as int)->Some_0.contains(voter.self_id) {
        Some(Stepdown::StillMember)
    } else {
        None
    }
}

/// The answer that goes with [`stepdown_refusal`].
pub open spec fn stepdown_result(voter: VoterView, log: CommandLogView) -> Result<(), Stepdown> {
    match stepdown_refusal(voter, log) {
        Some(why) => Err(why),
        None => Ok(()),
    }
}

/// Whether a voter holding `ballot`, whose log ends at `local_last`, supports
/// the request: the term is newer than the ballot's, or it is the same and the
/// vote is free or was given to this candidate; and the candidate's log is at
/// least as up to date as the voter's.
pub open spec fn grants(ballot: Vote, req: VoteRequest, local_last: Clock) -> bool {
    &&& req.term > ballot.cur_term || (req.term == ballot.cur_term && (ballot.voted_for is None
        || ballot.voted_for == Some(req.candidate_id)))
    &&& local_last.precedes_or_equals(req.last_clock)
}

/// The ballot of a voter after it answered a binding request.
pub open spec fn ballot_after_request(ballot: Vote, req: VoteRequest, local_last: Clock) -> Vote {
    if req.prevote || req.term < ballot.cur_term {
        ballot
    } else if grants(ballot, req, local_last) {
        Vote { cur_term: req.term, voted_for: Some(req.candidate_id) }
    } else if req.term > ballot.cur_term {
        Vote { cur_term: req.term, voted_for: None }
    } else {
        ballot
    }
}

/// How a ballot may change: the term never goes back, and within a term a vote
/// that was cast stays as it is.
pub open spec fn ballot_step(before: Vote, after: Vote) -> bool {
    before.cur_term < after.cur_term || (before.cur_term == after.cur_term && (before.voted_for
        is None || after.voted_for == before.voted_for))
}

/// The election timeout that a random draw selects: the draw, held within the
/// configured bounds.
pub open spec fn timeout_for(draw: u64) -> u64 {
    if draw < ELECTION_TIMEOUT_MIN_MS {
        ELECTION_TIMEOUT_MIN_MS
    } else if draw > ELECTION_TIMEOUT_MAX_MS {
        ELECTION_TIMEOUT_MAX_MS
    } else {
        draw
    }
}

/// The content of a running poll.
pub struct PollView {
    pub term: Term,
    pub prevote: bool,
    pub electorate: Set<NodeId>,
    pub granted: Set<NodeId>,
}

impl PollView {
    /// The supporters form a strict majority of the electorate.
    pub open spec fn won(self) -> bool {
        self.granted.len() >= quorum_of(self.electorate.len())
    }
}

/// The mathematical content of a [`Voter`].
pub struct VoterView {
    pub self_id: NodeId,
    pub state: ElectionState,
    pub ballot: Vote,
    pub leader_id: Option<NodeId>,
    pub last_contact: u64,
    pub election_timeout: u64,
    pub poll: Option<PollView>,
}

impl VoterView {
    /// A candidate runs a poll and nobody else does. A straw poll asks about
    /// the term after the ballot's; a binding poll is about the ballot's term,
    /// in which the candidate voted for itself. Polls count members only.
    pub open spec fn wf(self) -> bool {
        &&& (self.state == ElectionState::Candidate) == self.poll.is_some()
        &&& self.poll matches Some(p) ==> {
            &&& p.electorate.finite()
            &&& p.granted.finite()
            &&& p.granted.subset_of(p.electorate)
            &&& p.granted.contains(self.self_id)
            &&& !p.won()
            &&& if p.prevote {
                p.term == self.ballot.cur_term + 1
            } else {
                p.term == self.ballot.cur_term && self.ballot.voted_for == Some(self.self_id)
            }
        }
    }

    /// The node after it learned of `term`, which is newer than its own.
    pub open spec fn stepped_down(self, term: Term) -> VoterView {
        VoterView {
            state: ElectionState::Follower,
            ballot: Vote { cur_term: term, voted_for: None },
            leader_id: None,
            poll: None,
            ..self
        }
    }

    /// The node after it gave up an election or its leadership without a
    /// change of term.
    pub open spec fn retired(self) -> VoterView {
        VoterView { state: ElectionState::Follower, poll: None, ..self }
    }

    /// The node after it won the poll of its ballot's term.
    pub open spec fn elected(self) -> VoterView {
        VoterView {
            state: ElectionState::Leader,
            leader_id: Some(self.self_id),
            poll: None,
            ..self
        }
    }

    /// The node after it entered the next term as a candidate and voted for itself.
    pub open spec fn campaigning(self, electorate: Set<NodeId>) -> VoterView {
        VoterView {
            state: ElectionState::Candidate,
            ballot: Vote {
                cur_term: (self.ballot.cur_term + 1) as Term,
                voted_for: Some(self.self_id),
            },
            leader_id: None,
            poll: Some(
                PollView {
                    term: (self.ballot.cur_term + 1) as Term,
                    prevote: false,
                    electorate,
                    granted: set![self.self_id],
                },
            ),
            ..self
        }
    }

    /// The node after it opened a straw poll about the next term.
    pub open spec fn polling(self, electorate: Set<NodeId>) -> VoterView {
        VoterView {
            state: ElectionState::Candidate,
            poll: Some(
                PollView {
                    term: (self.ballot.cur_term + 1) as Term,
                    prevote: true,
                    electorate,
                    granted: set![self.self_id],
                },
            ),
            ..self
        }
    }

    /// Whether the node may call an election among `electorate`: it does not
    /// lead, it is a member, and a next term exists.
    pub open spec fn may_campaign(self, electorate: Set<NodeId>) -> bool {
        &&& self.state != ElectionState::Leader
        &&& electorate.contains(self.self_id)
        &&& self.ballot.cur_term < u64::MAX
    }

    /// The node after a binding election was called among `electorate`: leader
    /// at once when it is a majority by itself, candidate otherwise.
    pub open spec fn after_call(self, electorate: Set<NodeId>) -> VoterView {
        if quorum_of(electorate.len()) <= 1 {
            self.campaigning(electorate).elected()
        } else {
            self.campaigning(electorate)
        }
    }

    /// The node after it answered a vote request, given the clock of its own
    /// last entry: a binding request of a newer term makes it a follower of
    /// that term, and a granted one is recorded in the ballot; a straw poll
    /// changes nothing.
    pub open spec fn after_request(self, req: VoteRequest, local_last_clock: Clock) -> VoterView {
        if req.prevote || req.term <= self.ballot.cur_term {
            VoterView { ballot: ballot_after_request(self.ballot, req, local_last_clock), ..self }
        } else {
            VoterView {
                ballot: ballot_after_request(self.ballot, req, local_last_clock),
                ..self.stepped_down(req.term)
            }
        }
    }

    /// The node after its election timer ran out at time `now`: nothing
    /// changes unless it may campaign; a node that is a majority by itself
    /// leads at once; any other opens a straw poll.
    pub open spec fn after_timer(self, electorate: Set<NodeId>, now: u64, draw: u64) -> VoterView {
        if !self.may_campaign(electorate) {
            self
        } else if quorum_of(electorate.len()) <= 1 {
            VoterView {
                last_contact: now,
                election_timeout: timeout_for(draw),
                ..self.after_call(electorate)
            }
        } else {
            VoterView {
                last_contact: now,
                election_timeout: timeout_for(draw),
                ..self.polling(electorate)
            }
        }
    }

    /// The node after its leader asked it at time `now` to take over: nothing
    /// changes unless it may campaign; else it calls a binding election.
    pub open spec fn after_takeover(self, electorate: Set<NodeId>, now: u64, draw: u64)
        -> VoterView {
        if !self.may_campaign(electorate) {
            self
        } else {
            VoterView {
                last_contact: now,
                election_timeout: timeout_for(draw),
                ..self.after_call(electorate)
            }
        }
    }

    /// What the node does after its timer ran out or its leader asked it to
    /// take over, given its state before and after.
    pub open spec fn campaign_step(self, after: VoterView, electorate: Set<NodeId>, last: Clock)
        -> ElectionStep {
        if !self.may_campaign(electorate) {
            ElectionStep::Idle
        } else {
            after.next_step(last)
        }
    }

    /// The request that the running poll sends out.
    pub open spec fn poll_request(self, last_clock: Clock) -> VoteRequest {
        VoteRequest {
            candidate_id: self.self_id,
            term: self.poll->Some_0.term,
            last_clock,
            prevote: self.poll->Some_0.prevote,
        }
    }

    /// What the node does next after a change to its poll.
    pub open spec fn next_step(self, last_clock: Clock) -> ElectionStep {
        if self.state == ElectionState::Leader {
            ElectionStep::Elected
        } else if self.poll is Some {
            ElectionStep::Poll(self.poll_request(last_clock))
        } else {
            ElectionStep::Idle
        }
    }

    /// Whether an answer counts for the running poll.
    pub open spec fn counts(self, from: NodeId, term: Term, prevote: bool,
        resp: VoteResponse) -> bool {
        &&& self.poll matches Some(p)
        &&& p.term == term
        &&& p.prevote == prevote
        &&& resp.vote_granted
        &&& p.electorate.contains(from)
        &&& !p.granted.contains(from)
    }

    /// The running poll with `from` among the supporters.
    pub open spec fn poll_with(self, from: NodeId) -> PollView {
        PollView { granted: self.poll->Some_0.granted.insert(from), ..self.poll->Some_0 }
    }

    /// The node after it received an answer to a request it sent for `term`.
    pub open spec fn after_response(
        self,
        from: NodeId,
        term: Term,
        prevote: bool,
        resp: VoteResponse,
    ) -> VoterView {
        if resp.term > self.ballot.cur_term {
            self.stepped_down(resp.term)
        } else if self.counts(from, term, prevote, resp) {
            if !self.poll_with(from).won() {
                VoterView { poll: Some(self.poll_with(from)), ..self }
            } else if prevote {
                self.after_call(self.poll->Some_0.electorate)
            } else {
                self.elected()
            }
        } else {
            self
        }
    }

    /// The node after a leader's message for `leader_term` arrived at time `now`.
    pub open spec fn after_heartbeat(
        self,
        leader_id: NodeId,
        leader_term: Term,
        now: u64,
        draw: u64,
    ) -> VoterView {
        if leader_term < self.ballot.cur_term || (leader_term == self.ballot.cur_term && self.state
            == ElectionState::Leader) {
            self
        } else {
            VoterView {
                state: ElectionState::Follower,
                ballot: if leader_term > self.ballot.cur_term {
                    Vote { cur_term: leader_term, voted_for: None }
                } else {
                    self.ballot
                },
                leader_id: Some(leader_id),
                last_contact: now,
                election_timeout: timeout_for(draw),
                poll: None,
                ..self
            }
        }
    }

    /// Whether the election timer has run out at time `now`.
    pub open spec fn timed_out(self, now: u64) -> bool {
        self.state != ElectionState::Leader && now >= self.last_contact && now - self.last_contact
            >= self.election_timeout
    }
}

/// Election state of one lane on one node.
#[derive(Debug)]
pub struct Voter {
    self_id: NodeId,
    state: ElectionState,
    ballots: BallotStore,
    leader_id: Option<NodeId>,
    last_contact: u64,
    election_timeout: u64,
    poll_term: Term,
    poll_prevote: bool,
    electorate: Membership,
    granted: Membership,
}

impl View for Voter {
    type V = VoterView;

    closed spec fn view(&self) -> VoterView {
        VoterView {
            self_id: self.self_id,
            state: self.state,
            ballot: self.ballots@,
            leader_id: self.leader_id,
            last_contact: self.last_contact,
            election_timeout: self.election_timeout,
            poll: if self.state == ElectionState::Candidate {
                Some(
                    PollView {
                        term: self.poll_term,
                        prevote: self.poll_prevote,
                        electorate: self.electorate.members(),
                        granted: self.granted.members(),
                    },
                )
            } else {
                None
            },
        }
    }
}

impl Voter {
    /// The representation invariant together with [`VoterView::wf`].
    pub closed spec fn wf(&self) -> bool {
        &&& self@.wf()
        &&& self.electorate.wf()
        &&& self.granted.wf()
    }

    /// What [`Voter::wf`] says of the view.
    pub proof fn lemma_wf_view(&self)
        requires
            self.wf(),
        ensures
            self@.wf(),
    {
    }

    /// A follower with the ballot that `ballots` holds and no known leader. Its
    /// election timer starts at `now` with the timeout selected by `draw`.
    pub fn new(self_id: NodeId, ballots: BallotStore, now: u64, draw: u64) -> (v: Voter)
        ensures
            v.wf(),
            v@ == (VoterView {
                self_id,
                state: ElectionState::Follower,
                ballot: ballots@,
                leader_id: None,
                last_contact: now,
                election_timeout: timeout_for(draw),
                poll: None,
            }),
    {
        Voter {
            self_id,
            state: ElectionState::Follower,
            ballots,
            leader_id: None,
            last_contact: now,
            election_timeout: clamp_timeout(draw),
            poll_term: 0,
            poll_prevote: false,
            electorate: Membership::new(),
            granted: Membership::new(),
        }
    }

    pub fn self_id(&self) -> (id: NodeId)
        ensures
            id == self@.self_id,
    {
        self.self_id
    }

    /// The role the node plays now.
    pub fn read_election_state(&self) -> (s: ElectionState)
        ensures
            s == self@.state,
    {
        self.state
    }

    /// The ballot as it was saved last.
    pub fn read_ballot(&self) -> (b: Vote)
        ensures
            b == self@.ballot,
    {
        self.ballots.load_ballot()
    }

    /// The leader that the node last heard from in its term, if any.
    pub fn leader_id(&self) -> (id: Option<NodeId>)
        ensures
            id == self@.leader_id,
    {
        self.leader_id
    }

    /// The bytes that make the ballot durable.
    pub fn persist_ballot(&self) -> (out: Vec<u8>)
        ensures
            out@ == crate::ballot::encode_ballot(self@.ballot),
    {
        self.ballots.persist()
    }

    /// Whether the election timer has run out at time `now`.
    pub fn election_timed_out(&self, now: u64) -> (b: bool)
        ensures
            b == self@.timed_out(now),
    {
        !(self.state == ElectionState::Leader) && now >= self.last_contact && now
            - self.last_contact >= self.election_timeout
    }

    /// Answers a vote request. `local_last_clock` is the clock of the last
    /// entry of the local log.
    ///
    /// A straw request is answered without any change of state. A binding
    /// request of a newer term moves the ballot to that term and makes the node
    /// a follower, whether or not the vote is given. The ballot is saved before
    /// the answer is returned.
    pub fn receive_vote_request(&mut self, req: &VoteRequest, local_last_clock: Clock) -> (r:
        VoteResponse)
        requires
            old(self).wf(),
        ensures
            final(self).wf(),
            r.vote_granted == grants(old(self)@.ballot, *req, local_last_clock),
            r.term == final(self)@.ballot.cur_term,
            final(self)@ == old(self)@.after_request(*req, local_last_clock),
            ballot_step(old(self)@.ballot, final(self)@.ballot),
            r.vote_granted && !req.prevote ==> final(self)@.ballot == (Vote {
                cur_term: req.term,
                voted_for: Some(req.candidate_id),
            }),
    {
        let ballot: Vote = self.ballots.load_ballot();
        let up_to_date: bool = local_last_clock.le(&req.last_clock);
        let vote_free: bool = match ballot.voted_for {
            None => true,
            Some(id) => id == req.candidate_id,
        };
        let granted: bool = (req.term > ballot.cur_term || (req.term == ballot.cur_term
            && vote_free)) && up_to_date;
        if req.prevote || req.term < ballot.cur_term {
            return VoteResponse { vote_granted: granted, term: ballot.cur_term };
        }
        if req.term > ballot.cur_term {
            self.state = ElectionState::Follower;
            self.leader_id = None;
        }
        if granted {
            self.ballots.save_ballot(Vote { cur_term: req.term,
                voted_for: Some(req.candidate_id) });
        } else if req.term > ballot.cur_term {
            self.ballots.save_ballot(Vote { cur_term: req.term, voted_for: None });
        }
        VoteResponse { vote_granted: granted, term: req.term }
    }

    /// Enters the next term as a candidate among `electorate`.
    fn call_election(&mut self, electorate: Membership)
        requires
            old(self).wf(),
            electorate.wf(),
            old(self)@.may_campaign(electorate.members()),
        ensures
            final(self).wf(),
            final(self)@ == old(self)@.after_call(electorate.members()),
    {
        let term: Term = self.ballots.load_ballot().cur_term + 1;
        self.ballots.save_ballot(Vote { cur_term: term, voted_for: Some(self.self_id) });
        self.leader_id = None;
        proof {
            lemma_ascending_len_is_cardinality(electorate@);
        }
        if electorate.quorum() <= 1 {
            self.state = ElectionState::Leader;
            self.leader_id = Some(self.self_id);
        } else {
            let mut granted = Membership::new();
            granted.insert(self.self_id);
            proof {
                assert(granted.members() =~= set![self.self_id]);
                lemma_ascending_len_is_cardinality(granted@);
            }
            self.state = ElectionState::Candidate;
            self.poll_term = term;
            self.poll_prevote = false;
            self.electorate = electorate;
            self.granted = granted;
        }
    }

    /// Reacts to the election timer: opens a straw poll about the next term
    /// among `electorate`, the membership in force. A node that is a majority
    /// by itself skips the poll and the vote and becomes leader at once.
    ///
    /// Nothing happens when the node leads, is no member, or has used up its terms.
    pub fn start_election(
        &mut self,
        electorate: Membership,
        last_clock: Clock,
        now: u64,
        draw: u64,
    ) -> (step: ElectionStep)
        requires
            old(self).wf(),
            electorate.wf(),
        ensures
            final(self).wf(),
            final(self)@ == old(self)@.after_timer(electorate.members(), now, draw),
            step == old(self)@.campaign_step(final(self)@, electorate.members(), last_clock),
            ballot_step(old(self)@.ballot, final(self)@.ballot),
    {
        if self.state == ElectionState::Leader || !electorate.contains(self.self_id)
            || self.ballots.load_ballot().cur_term == u64::MAX {
            return ElectionStep::Idle;
        }
        self.last_contact = now;
        self.election_timeout = clamp_timeout(draw);
        proof {
            lemma_ascending_len_is_cardinality(electorate@);
        }
        if electorate.quorum() <= 1 {
            self.state = ElectionState::Follower;
            self.call_election(electorate);
            return ElectionStep::Elected;
        }
        let mut granted = Membership::new();
        granted.insert(self.self_id);
        proof {
            assert(granted.members() =~= set![self.self_id]);
            lemma_ascending_len_is_cardinality(granted@);
        }
        let term: Term = self.ballots.load_ballot().cur_term + 1;
        self.state = ElectionState::Candidate;
        self.poll_term = term;
        self.poll_prevote = true;
        self.electorate = electorate;
        self.granted = granted;
        ElectionStep::Poll(
            VoteRequest { candidate_id: self.self_id, term, last_clock, prevote: true },
        )
    }

    /// Reacts to a leader's request to take over: calls a binding election
    /// among `electorate` at once, without a straw poll.
    pub fn receive_timeout_now(
        &mut self,
        electorate: Membership,
        last_clock: Clock,
        now: u64,
        draw: u64,
    ) -> (step: ElectionStep)
        requires
            old(self).wf(),
            electorate.wf(),
        ensures
            final(self).wf(),
            final(self)@ == old(self)@.after_takeover(electorate.members(), now, draw),
            step == old(self)@.campaign_step(final(self)@, electorate.members(), last_clock),
            ballot_step(old(self)@.ballot, final(self)@.ballot),
    {
        if self.state == ElectionState::Leader || !electorate.contains(self.self_id)
            || self.ballots.load_ballot().cur_term == u64::MAX {
            return ElectionStep::Idle;
        }
        self.last_contact = now;
        self.election_timeout = clamp_timeout(draw);
        self.state = ElectionState::Follower;
        self.call_election(electorate);
        self.step_for(last_clock)
    }

    /// What the node does next.
    fn step_for(&self, last_clock: Clock) -> (step: ElectionStep)
        requires
            self.wf(),
        ensures
            step == self@.next_step(last_clock),
    {
        match self.state {
            ElectionState::Leader => ElectionStep::Elected,
            ElectionState::Candidate => ElectionStep::Poll(
                VoteRequest {
                    candidate_id: self.self_id,
                    term: self.poll_term,
                    last_clock,
                    prevote: self.poll_prevote,
                },
            ),
            ElectionState::Follower => ElectionStep::Idle,
        }
    }

    /// Takes the answer that node `from` gave to the request this node sent
    /// for `term`.
    ///
    /// An answer that carries a newer term ends the campaign and makes the node
    /// a follower of that term. A supporting answer from a member that was not
    /// counted yet is counted; when that completes a majority, a straw poll
    /// turns into a binding election and a binding election into leadership.
    /// Any other answer changes nothing.
    pub fn receive_vote_response(
        &mut self,
        from: NodeId,
        term: Term,
        prevote: bool,
        resp: &VoteResponse,
        last_clock: Clock,
    ) -> (step: ElectionStep)
        requires
            old(self).wf(),
        ensures
            final(self).wf(),
            final(self)@ == old(self)@.after_response(from, term, prevote, *resp),
            step == response_step(
                old(self)@,
                final(self)@,
                from,
                term,
                prevote,
                *resp,
                last_clock,
            ),
            ballot_step(old(self)@.ballot, final(self)@.ballot),
            final(self)@.state == ElectionState::Leader ==> old(self)@.state
                == ElectionState::Leader || (old(self)@.poll is Some && old(self)@.poll_with(
                from,
            ).won() && old(self)@.poll->Some_0.electorate.contains(from)),
    {
        let ballot: Vote = self.ballots.load_ballot();
        if resp.term > ballot.cur_term {
            self.ballots.save_ballot(Vote { cur_term: resp.term, voted_for: None });
            self.state = ElectionState::Follower;
            self.leader_id = None;
            return ElectionStep::Idle;
        }
        if !(self.state == ElectionState::Candidate) || self.poll_term != term
            || self.poll_prevote != prevote || !resp.vote_granted || !self.electorate.contains(
            from,
        ) || self.granted.contains(from) {
            return ElectionStep::Idle;
        }
        let ghost before = self@;
        self.granted.insert(from);
        proof {
            lemma_ascending_len_is_cardinality(self.granted@);
            lemma_ascending_len_is_cardinality(self.electorate@);
        }
        if self.granted.len() < self.electorate.quorum() {
            assert(self@.poll->Some_0 == before.poll_with(from));
            return ElectionStep::Idle;
        }
        if prevote {
            let electorate = self.electorate.duplicate();
            self.state = ElectionState::Follower;
            self.call_election(electorate);
            proof {
                assert(quorum_of(before.poll->Some_0.electorate.len()) > 1) by {
                    assert(before.poll->Some_0.granted.len() >= 1);
                }
            }
            self.step_for(last_clock)
        } else {
            self.state = ElectionState::Leader;
            self.leader_id = Some(self.self_id);
            ElectionStep::Elected
        }
    }

    /// Takes notice of a leader's message for `leader_term` that arrived at
    /// time `now`; `draw` selects the next election timeout. Reports whether
    /// the sender is accepted as leader.
    ///
    /// A message of an older term is ignored, and so is one of the node's own
    /// term while the node leads. Any other makes the node a follower of the
    /// sender and restarts the election timer.
    pub fn receive_heartbeat(&mut self, leader_id: NodeId, leader_term: Term, now: u64, draw: u64)
        -> (accepted: bool)
        requires
            old(self).wf(),
        ensures
            final(self).wf(),
            final(self)@ == old(self)@.after_heartbeat(leader_id, leader_term, now, draw),
            accepted == !(leader_term < old(self)@.ballot.cur_term
                || (leader_term == old(self)@.ballot.cur_term
                    && old(self)@.state == ElectionState::Leader)),
            ballot_step(old(self)@.ballot, final(self)@.ballot),
    {
        let ballot: Vote = self.ballots.load_ballot();
        if leader_term < ballot.cur_term || (leader_term == ballot.cur_term && self.state
            == ElectionState::Leader) {
            return false;
        }
        if leader_term > ballot.cur_term {
            self.ballots.save_ballot(Vote { cur_term: leader_term, voted_for: None });
        }
        self.state = ElectionState::Follower;
        self.leader_id = Some(leader_id);
        self.last_contact = now;
        self.election_timeout = clamp_timeout(draw);
        true
    }

    /// Takes notice of a term seen in any message. A newer term than the
    /// ballot's makes the node a follower of that term; reports whether it did.
    pub fn observe_term(&mut self, term: Term) -> (newer: bool)
        requires
            old(self).wf(),
        ensures
            final(self).wf(),
            newer == (term > old(self)@.ballot.cur_term),
            final(self)@ == if newer {
                old(self)@.stepped_down(term)
            } else {
                old(self)@
            },
            ballot_step(old(self)@.ballot, final(self)@.ballot),
    {
        if term > self.ballots.load_ballot().cur_term {
            self.ballots.save_ballot(Vote { cur_term: term, voted_for: None });
            self.state = ElectionState::Follower;
            self.leader_id = None;
            true
        } else {
            false
        }
    }

    /// Gives up a campaign that ran out of time. Reports whether there was one.
    pub fn abandon_election(&mut self) -> (was_candidate: bool)
        requires
            old(self).wf(),
        ensures
            final(self).wf(),
            was_candidate == (old(self)@.state == ElectionState::Candidate),
            final(self)@ == if was_candidate {
                old(self)@.retired()
            } else {
                old(self)@
            },
    {
        if self.state == ElectionState::Candidate {
            self.state = ElectionState::Follower;
            true
        } else {
            false
        }
    }

    /// Whether the node must step down: it leads and the committed
    /// membership no longer includes it. The membership change must be
    /// committed first, or the entry that removes the leader could be lost
    /// with it. In every other case the reason is returned as an error.
    /// Nothing changes: a leader hands its leadership over before it steps
    /// down with [`Voter::try_stepdown`].
    pub fn check_stepdown(&self, log: &CommandLog) -> (r: Result<(), Stepdown>)
        requires
            self.wf(),
            log.wf(),
        ensures
            r == stepdown_result(self@, log@),
    {
        if !(self.state == ElectionState::Leader) {
            return Err(Stepdown::NotLeader);
        }
        let last_membership_change_index = log.membership_pointer();
        if last_membership_change_index > log.commit_pointer() {
            return Err(Stepdown::MembershipNotCommitted);
        }
        let config = match log.try_read_membership(last_membership_change_index) {
            Some(m) => m,
            None => {
                return Err(Stepdown::MembershipUnknown);
            },
        };
        if config.contains(self.self_id) {
            return Err(Stepdown::StillMember);
        }
        Ok(())
    }

    /// Steps down when the node leads and the committed membership no longer
    /// includes it; see [`Voter::check_stepdown`]. In every other case
    /// nothing changes and the reason is returned as an error.
    pub fn try_stepdown(&mut self, log: &CommandLog) -> (r: Result<(), Stepdown>)
        requires
            old(self).wf(),
            log.wf(),
        ensures
            final(self).wf(),
            r == stepdown_result(old(self)@, log@),
            final(self)@ == if r is Ok {
                old(self)@.retired()
            } else {
                old(self)@
            },
    {
        match self.check_stepdown(log) {
            Ok(()) => {
                self.state = ElectionState::Follower;
                Ok(())
            },
            Err(why) => Err(why),
        }
    }
}

/// What a candidate does after an answer to its poll: nothing unless the
/// answer completes a majority; then it sends out the binding request, or
/// takes office.
pub open spec fn response_step(
    before: VoterView,
    after: VoterView,
    from: NodeId,
    term: Term,
    prevote: bool,
    resp: VoteResponse,
    last_clock: Clock,
) -> ElectionStep {
    if resp.term > before.ballot.cur_term || !before.counts(from, term, prevote, resp)
        || !before.poll_with(from).won() {
        ElectionStep::Idle
    } else {
        after.next_step(last_clock)
    }
}

/// Holds a random draw within the configured bounds of the election timeout.
pub fn clamp_timeout(draw: u64) -> (t: u64)
    ensures
        t == timeout_for(draw),
        ELECTION_TIMEOUT_MIN_MS <= t <= ELECTION_TIMEOUT_MAX_MS,
{
    if draw < ELECTION_TIMEOUT_MIN_MS {
        ELECTION_TIMEOUT_MIN_MS
    } else if draw > ELECTION_TIMEOUT_MAX_MS {
        ELECTION_TIMEOUT_MAX_MS
    } else {
        draw
    }
}

} // verus!
