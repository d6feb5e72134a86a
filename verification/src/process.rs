//! One lane on one node: the command log, the voter and the peer directory
//! behind the operations that clients, peers and the background loops invoke.

use crate::ballot::BallotStore;
use crate::clock::{Clock, Index, NodeId, Term};
use crate::command::{decode_command, encode_command, Command, CommandView};
use crate::command_log::{
    initial_log, insert_case, with_entry, AppendOutcome, Applied, CommandLog, InsertCase,
    InsertOutcome,
};
use crate::entry::{Entry, EntryView};
use crate::error::Error;
use crate::event::{QueueEvent, ReplicationEvent};
use crate::heartbeat::Heartbeat;
use crate::log_model::CommandLogView;
use crate::membership::Membership;
use crate::storage::{
    ballot_record, ballot_record_of, entry_record, entry_record_of, record_views, Record,
    RecordView,
};
use crate::peers::{
    fresh_peer, has_peer, peer_of, AckOutcome, AppendEntries, AppendEntriesResponse, Peer, Peers,
    PeersView, ReplicationPlan,
};
use crate::voter::{
    stepdown_refusal, stepdown_result, ElectionState, ElectionStep, Stepdown, VoteRequest,
    VoteResponse, Voter, VoterView,
};
use vstd::prelude::*;

verus! {

/// What became of a request that only a leader can serve.
#[derive(Clone, Copy, Debug, PartialEq, Eq, Structural)]
pub enum Submitted {
    /// The command is in the leader's log at this index; the answer is known
    /// once that index is applied.
    Accepted(Index),
    /// This node does not lead; the request belongs to this node.
    Redirect(NodeId),
    /// A configuration change is still uncommitted; try again later.
    ConfigurationPending,
}

impl Submitted {
    /// The notification that is due after the request: the replication loops
    /// are woken when the leader took the command into its log.
    pub fn signal(&self) -> (r: Option<ReplicationEvent>)
        ensures
            r.is_some() == (*self is Accepted),
    {
        match self {
            Submitted::Accepted(_) => Some(ReplicationEvent),
            _ => None,
        }
    }
}

/// How a read request is to be served.
#[derive(Clone, Copy, Debug, PartialEq, Eq, Structural)]
pub enum ReadPlan {
    /// Run the read against the application now.
    Execute,
    /// Run the read once leadership was confirmed by a majority and
    /// everything up to this index is applied.
    AfterApplied(Index),
    /// This node does not lead; the request belongs to this node.
    Redirect(NodeId),
}

impl ReadPlan {
    /// The notification that is due after the request: the query loop is
    /// woken when a read was queued behind a leadership check.
    pub fn signal(&self) -> (r: Option<QueueEvent>)
        ensures
            r.is_some() == (*self is AfterApplied),
    {
        match self {
            ReadPlan::AfterApplied(_) => Some(QueueEvent),
            _ => None,
        }
    }
}

/// The members in force according to the log: those carried by the entry at
/// the membership pointer, or nobody when the log is empty.
pub open spec fn electorate_of(log: CommandLogView) -> Seq<NodeId> {
    match log.membership_at(log.membership_pointer as int) {
        Some(m) => m,
        None => Seq::empty(),
    }
}

/// The peer directory lists the members in force other than the node itself.
pub open spec fn peers_follow(p: PeersView, log: CommandLogView) -> bool {
    &&& p.self_is_member == electorate_of(log).contains(p.self_id)
    &&& forall|id: NodeId|
        has_peer(p.peers, id) == (electorate_of(log).contains(id) && id != p.self_id)
}

/// The log after the sender's entry was offered: changed when the entry
/// replaced or extended something, unchanged otherwise.
pub open spec fn after_offer(log: CommandLogView, e: EntryView, prev: Clock) -> CommandLogView {
    match insert_case(log, e, prev) {
        InsertCase::Replaces => with_entry(log, e),
        InsertCase::Extends => with_entry(log, e),
        _ => log,
    }
}

/// What offering the sender's entry returns.
pub open spec fn offer_result(log: CommandLogView, e: EntryView, prev: Clock) -> Result<
    InsertOutcome,
    Error,
> {
    match insert_case(log, e, prev) {
        InsertCase::Malformed => Ok(InsertOutcome::Rejected),
        InsertCase::Diverged => Ok(InsertOutcome::Inconsistent),
        InsertCase::Undecodable => Err(Error::BadLogState),
        InsertCase::CommittedConflict => Err(Error::BadLogState),
        _ => Ok(InsertOutcome::Inserted),
    }
}

/// The log after a batch was offered entry by entry, each chained to the one
/// before it, up to the first entry that was not inserted.
pub open spec fn after_batch(log: CommandLogView, entries: Seq<EntryView>, prev: Clock)
    -> CommandLogView
    decreases entries.len(),
{
    if entries.len() == 0 {
        log
    } else if offer_result(log, entries[0], prev) != Ok::<InsertOutcome, Error>(
        InsertOutcome::Inserted,
    ) {
        log
    } else {
        after_batch(after_offer(log, entries[0], prev), entries.skip(1), entries[0].this_clock)
    }
}

/// What offering a batch returns: `Inserted` when every entry was inserted,
/// else what the first entry that was not inserted returned.
pub open spec fn batch_result(log: CommandLogView, entries: Seq<EntryView>, prev: Clock)
    -> Result<InsertOutcome, Error>
    decreases entries.len(),
{
    if entries.len() == 0 {
        Ok(InsertOutcome::Inserted)
    } else if offer_result(log, entries[0], prev) != Ok::<InsertOutcome, Error>(
        InsertOutcome::Inserted,
    ) {
        offer_result(log, entries[0], prev)
    } else {
        batch_result(after_offer(log, entries[0], prev), entries.skip(1), entries[0].this_clock)
    }
}

/// Whether the log holds the entry that a batch names as its predecessor: the
/// entry is retained with that clock, or lies at or below the snapshot.
pub open spec fn anchored(log: CommandLogView, prev: Clock) -> bool {
    prev.index <= log.snapshot_pointer || (log.log.contains(prev.index as int) && log.log.at(
        prev.index as int,
    ).this_clock == prev)
}

/// Whether the entries of a batch are chained: the first names the batch's
/// predecessor, and each other names the entry before it.
pub open spec fn stream_ok(entries: Seq<EntryView>, prev: Clock) -> bool {
    forall|k: int| 0 <= k < entries.len() ==> #[trigger] chained_at(entries, prev, k)
}

/// Whether entry `k` of a batch names what comes before it.
pub open spec fn chained_at(entries: Seq<EntryView>, prev: Clock, k: int) -> bool {
    entries[k].prev_clock == if k == 0 {
        prev
    } else {
        entries[k - 1].this_clock
    }
}

/// What a batch from an accepted leader returns: a batch that is not chained
/// is a broken stream; an empty batch tells whether the log holds the
/// predecessor it names; any other is offered entry by entry.
pub open spec fn receive_result(log: CommandLogView, entries: Seq<EntryView>, prev: Clock)
    -> Result<InsertOutcome, Error> {
    if !stream_ok(entries, prev) {
        Err(Error::BadReplicationStream)
    } else if entries.len() == 0 {
        if anchored(log, prev) {
            Ok(InsertOutcome::Inserted)
        } else {
            Ok(InsertOutcome::Inconsistent)
        }
    } else {
        batch_result(log, entries, prev)
    }
}

/// The log after a batch from an accepted leader: untouched by a broken
/// stream, else as the offers leave it.
pub open spec fn received_log(log: CommandLogView, entries: Seq<EntryView>, prev: Clock)
    -> CommandLogView {
    if !stream_ok(entries, prev) {
        log
    } else {
        after_batch(log, entries, prev)
    }
}

/// Whether the entries of a batch are chained; see [`stream_ok`].
pub fn stream_is_chained(entries: &Vec<Entry>, prev: Clock) -> (b: bool)
    ensures
        b == stream_ok(crate::log_store::entry_views(entries@), prev),
{
    let n: usize = entries.len();
    let ghost views = crate::log_store::entry_views(entries@);
    let mut k: usize = 0;
    let mut expected: Clock = prev;
    while k < n
        invariant
            n == entries@.len(),
            views == crate::log_store::entry_views(entries@),
            k <= n,
            expected == if k == 0 {
                prev
            } else {
                views[k - 1].this_clock
            },
            forall|j: int| 0 <= j < k ==> #[trigger] chained_at(views, prev, j),
        decreases n - k,
    {
        if !(entries[k].prev_clock == expected) {
            assert(!chained_at(views, prev, k as int));
            return false;
        }
        assert(chained_at(views, prev, k as int));
        expected = entries[k].this_clock;
        k = k + 1;
    }
    true
}

/// The index that a follower may commit up to after a batch from a leader
/// that has committed up to `leader_commit`: no further than the batch reaches.
pub open spec fn commit_bound(req_prev: Clock, count: int, leader_commit: Index) -> Index {
    if leader_commit <= req_prev.index + count {
        leader_commit
    } else {
        (req_prev.index + count) as Index
    }
}

/// One lane on one node.
#[derive(Debug)]
pub struct RaftProcess {
    command_log: CommandLog,
    voter: Voter,
    peers: Peers,
    /// How far the log was checked against the log of a leader: up to the
    /// index of this clock, against the leader of the term of this clock. A
    /// heartbeat of that leader moves the commit pointer no further than this.
    verified: Clock,
}

/// The mathematical content of a [`RaftProcess`].
pub struct ProcessView {
    /// The election state.
    pub voter: VoterView,
    /// The command log.
    pub log: CommandLogView,
    /// The directory of followers.
    pub peers: PeersView,
    /// How far the log was checked against the log of a leader, and of
    /// which term.
    pub verified: Clock,
}

impl View for RaftProcess {
    type V = ProcessView;

    closed spec fn view(&self) -> ProcessView {
        ProcessView {
            voter: self.voter@,
            log: self.command_log@,
            peers: self.peers@,
            verified: self.verified,
        }
    }
}

impl RaftProcess {
    /// The parts are well formed, they belong to one node, and the peer
    /// directory lists the members in force.
    pub closed spec fn wf(&self) -> bool {
        &&& self.command_log.wf()
        &&& self.voter.wf()
        &&& self.peers.wf()
        &&& self@.peers.self_id == self@.voter.self_id
        &&& peers_follow(self@.peers, self@.log)
        &&& self@.log.log.is_empty() ==> self@.voter.state == ElectionState::Follower
    }

    /// What [`RaftProcess::wf`] says of the view: the parts are well formed
    /// and belong to one node, the directory lists the members in force
    /// other than the node itself, and a node without a log follows.
    pub proof fn lemma_peers_follow(&self)
        requires
            self.wf(),
        ensures
            peers_follow(self@.peers, self@.log),
            self@.peers.self_id == self@.voter.self_id,
            self@.log.wf(),
            self@.voter.wf(),
            self@.peers.wf(),
            self@.log.log.is_empty() ==> self@.voter.state == ElectionState::Follower,
    {
        self.voter.lemma_wf_view();
    }

    /// A lane that has never been part of a cluster. Its ballot is the one
    /// that `ballots` holds; its election timer starts at `now` with the
    /// timeout selected by `draw`.
    pub fn new(self_id: NodeId, ballots: BallotStore, now: u64, draw: u64) -> (p: RaftProcess)
        ensures
            p.wf(),
            p@.log.log.is_empty(),
            p@.voter == fresh_voter(self_id, ballots@, now, draw),
            p@.peers == (PeersView { self_id, self_is_member: false, peers: Seq::empty() }),
            p@.verified == (Clock { term: 0, index: 0 }),
    {
        let p = RaftProcess {
            command_log: CommandLog::new(),
            voter: Voter::new(self_id, ballots, now, draw),
            peers: Peers::new(self_id),
            verified: Clock { term: 0, index: 0 },
        };
        proof {
            assert(electorate_of(p@.log) =~= Seq::<NodeId>::empty());
        }
        p
    }

    /// A lane as it was before the node restarted: the log comes from the
    /// persisted records, the ballot from `ballots`; the node is a follower
    /// that knows no leader. See [`CommandLog::restore`].
    pub fn restore(
        self_id: NodeId,
        ballots: BallotStore,
        records: &Vec<(Index, Entry)>,
        now: u64,
        draw: u64,
    ) -> (r: Result<RaftProcess, Error>)
        ensures
            r.is_ok() == crate::command_log::restorable(records@),
            r matches Err(e) ==> e == Error::BadLogState,
            r matches Ok(p) ==> {
                &&& p.wf()
                &&& p@.log == crate::command_log::restored(records@)
                &&& p@.voter == fresh_voter(self_id, ballots@, now, draw)
                &&& peers_synced(
                    PeersView { self_id, self_is_member: false, peers: Seq::empty() },
                    p@.peers,
                    p@.log.log.last_index() as Index,
                )
                &&& p@.verified == (Clock { term: 0, index: 0 })
            },
    {
        let command_log = match CommandLog::restore(records) {
            Ok(log) => log,
            Err(e) => {
                return Err(e);
            },
        };
        let mut p = RaftProcess {
            command_log,
            voter: Voter::new(self_id, ballots, now, draw),
            peers: Peers::new(self_id),
            verified: Clock { term: 0, index: 0 },
        };
        p.sync_peers();
        Ok(p)
    }

    /// The identity of the node.
    pub fn self_id(&self) -> (id: NodeId)
        ensures
            id == self@.voter.self_id,
    {
        self.voter.self_id()
    }

    /// The term of the ballot.
    pub fn current_term(&self) -> (t: Term)
        ensures
            t == self@.voter.ballot.cur_term,
    {
        self.voter.read_ballot().cur_term
    }

    /// Whether the node leads the lane.
    pub fn is_leader(&self) -> (b: bool)
        ensures
            b == (self@.voter.state == ElectionState::Leader),
    {
        self.voter.read_election_state() == ElectionState::Leader
    }

    /// The leader that the node knows of, if any.
    pub fn leader_id(&self) -> (id: Option<NodeId>)
        ensures
            id == self@.voter.leader_id,
    {
        self.voter.leader_id()
    }

    /// The election state, to read.
    pub fn voter(&self) -> (v: &Voter)
        requires
            self.wf(),
        ensures
            v@ == self@.voter,
            v.wf(),
    {
        &self.voter
    }

    /// The command log, to read.
    pub fn command_log(&self) -> (log: &CommandLog)
        requires
            self.wf(),
        ensures
            log@ == self@.log,
            log.wf(),
    {
        &self.command_log
    }

    /// The directory of followers, to read.
    pub fn peers(&self) -> (peers: &Peers)
        requires
            self.wf(),
        ensures
            peers@ == self@.peers,
            peers.wf(),
    {
        &self.peers
    }

    /// How far the log was checked against the log of a leader, and of
    /// which term.
    pub fn verified(&self) -> (c: Clock)
        ensures
            c == self@.verified,
    {
        self.verified
    }

    /// Gives up a campaign that found no majority in time; see
    /// [`Voter::abandon_election`].
    pub fn abandon_election(&mut self) -> (was_candidate: bool)
        requires
            old(self).wf(),
        ensures
            final(self).wf(),
            was_candidate == (old(self)@.voter.state == ElectionState::Candidate),
            final(self)@ == (ProcessView {
                voter: if was_candidate {
                    old(self)@.voter.retired()
                } else {
                    old(self)@.voter
                },
                ..old(self)@
            }),
    {
        self.voter.abandon_election()
    }

    /// Takes note of a term seen in a message; a newer one makes the node a
    /// follower of that term. See [`Voter::observe_term`].
    pub fn observe_term(&mut self, term: Term) -> (newer: bool)
        requires
            old(self).wf(),
        ensures
            final(self).wf(),
            newer == (term > old(self)@.voter.ballot.cur_term),
            final(self)@ == (ProcessView {
                voter: if newer {
                    old(self)@.voter.stepped_down(term)
                } else {
                    old(self)@.voter
                },
                ..old(self)@
            }),
    {
        self.voter.observe_term(term)
    }

    /// Records that follower `id` acknowledged a heartbeat at time `now`.
    pub fn record_heartbeat_ack(&mut self, id: NodeId, now: u64) -> (r: Result<(), Error>)
        requires
            old(self).wf(),
        ensures
            final(self).wf(),
            r == if has_peer(old(self)@.peers.peers, id) {
                Ok::<(), Error>(())
            } else {
                Err(Error::PeerNotFound(id))
            },
            final(self)@ == (ProcessView {
                peers: old(self)@.peers.heartbeat_acked(id, now),
                ..old(self)@
            }),
    {
        let ghost before = self.peers@;
        let r = self.peers.record_heartbeat_ack(id, now);
        proof {
            assert forall|other: NodeId| has_peer(self.peers@.peers, other) == has_peer(
                before.peers,
                other,
            ) by {
                if has_peer(self.peers@.peers, other) {
                    let k = choose|k: int|
                        0 <= k < self.peers@.peers.len() && #[trigger] self.peers@.peers[k].id
                            == other;
                    assert(before.peers[k].id == other);
                }
                if has_peer(before.peers, other) {
                    let k = choose|k: int|
                        0 <= k < before.peers.len() && #[trigger] before.peers[k].id == other;
                    assert(self.peers@.peers[k].id == other);
                }
            }
        }
        r
    }

    /// The members in force.
    pub fn membership(&self) -> (m: Membership)
        requires
            self.wf(),
        ensures
            m.wf(),
            m@ == electorate_of(self@.log),
    {
        match self.command_log.try_read_membership(self.command_log.membership_pointer()) {
            Some(m) => m,
            None => Membership::new(),
        }
    }

    /// Makes the peer directory list the members in force.
    fn sync_peers(&mut self)
        requires
            old(self).command_log.wf(),
            old(self).voter.wf(),
            old(self).peers.wf(),
            old(self)@.peers.self_id == old(self)@.voter.self_id,
            old(self)@.log.log.is_empty() ==> old(self)@.voter.state
                == ElectionState::Follower,
        ensures
            final(self).wf(),
            final(self)@.verified == old(self)@.verified,
            final(self)@.log == old(self)@.log,
            final(self)@.voter == old(self)@.voter,
            peers_synced(
                old(self)@.peers,
                final(self)@.peers,
                old(self)@.log.log.last_index() as Index,
            ),
            peers_follow(old(self)@.peers, old(self)@.log)
                ==> final(self)@.peers == old(self)@.peers,
    {
        let m = match self.command_log.try_read_membership(self.command_log.membership_pointer()) {
            Some(m) => m,
            None => Membership::new(),
        };
        let last: Index = self.command_log.get_log_last_index();
        self.peers.set_membership(&m, last);
        proof {
            assert(m@ == electorate_of(self@.log));
            assert forall|id: NodeId| m.members().contains(id) == m@.contains(id) by {}
            if peers_follow(old(self)@.peers, old(self)@.log) {
                crate::peers::lemma_directory_is_determined(
                    old(self)@.peers.peers,
                    self@.peers.peers,
                    self@.peers.self_id,
                );
            }
        }
    }

    /// Takes up leadership: forgets what was known of the followers and
    /// appends a no-op entry of the new term, through which entries of
    /// earlier terms get committed.
    fn take_office(&mut self)
        requires
            old(self).wf(),
        ensures
            final(self).wf(),
            final(self)@.verified == old(self)@.verified,
            final(self)@.voter == old(self)@.voter,
            final(self)@.log == in_office(
                old(self)@.log,
                old(self)@.voter.ballot.cur_term,
            ),
            final(self)@.peers == old(self)@.peers.reset(
                final(self)@.log.log.last_index() as Index,
            ),
            old(self)@.log.pointers_not_after(final(self)@.log),
    {
        let term: Term = self.voter.read_ballot().cur_term;
        let _ = self.command_log.append_new_entry(&Command::Noop, term);
        let last: Index = self.command_log.get_log_last_index();
        self.peers.reset_progress(last);
        proof {
            let before = old(self)@.peers;
            let reset = self@.peers;
            lemma_office_keeps_electorate(
                old(self)@.log,
                old(self)@.voter.ballot.cur_term,
            );
            assert forall|id: NodeId| has_peer(reset.peers, id) == has_peer(before.peers, id) by {
                if has_peer(reset.peers, id) {
                    let k = choose|k: int|
                        0 <= k < reset.peers.len() && #[trigger] reset.peers[k].id == id;
                    assert(before.peers[k].id == id);
                }
                if has_peer(before.peers, id) {
                    let k = choose|k: int|
                        0 <= k < before.peers.len() && #[trigger] before.peers[k].id == id;
                    assert(reset.peers[k].id == id);
                }
            }
            assert(peers_follow(reset, self@.log));
        }
        self.sync_peers();
    }

    /// Answers a vote request of another node.
    pub fn receive_vote_request(&mut self, req: &VoteRequest) -> (r: VoteResponse)
        requires
            old(self).wf(),
        ensures
            final(self).wf(),
            final(self)@.verified == old(self)@.verified,
            final(self)@.log == old(self)@.log,
            final(self)@.peers == old(self)@.peers,
            final(self)@.voter == old(self)@.voter.after_request(
                *req,
                old(self)@.log.last_clock(),
            ),
            r.vote_granted == crate::voter::grants(
                old(self)@.voter.ballot,
                *req,
                old(self)@.log.last_clock(),
            ),
            r.term == final(self)@.voter.ballot.cur_term,
            crate::voter::ballot_step(old(self)@.voter.ballot, final(self)@.voter.ballot),
            r.vote_granted && !req.prevote ==> final(self)@.voter.ballot == (crate::ballot::Vote {
                cur_term: req.term,
                voted_for: Some(req.candidate_id),
            }),
    {
        let last_clock = self.command_log.last_clock();
        self.voter.receive_vote_request(req, last_clock)
    }

    /// Reacts to a tick of the election timer at time `now`. When the timer
    /// has run out, the node opens a poll among the members in force.
    pub fn tick_election(&mut self, now: u64, draw: u64) -> (step: ElectionStep)
        requires
            old(self).wf(),
        ensures
            final(self).wf(),
            final(self)@.verified == old(self)@.verified,
            final(self)@.voter == if old(self)@.voter.timed_out(now) {
                old(self)@.voter.after_timer(
                    electorate_of(old(self)@.log).to_set(),
                    now,
                    draw,
                )
            } else {
                old(self)@.voter
            },
            step == if old(self)@.voter.timed_out(now) {
                old(self)@.voter.campaign_step(
                    final(self)@.voter,
                    electorate_of(old(self)@.log).to_set(),
                    old(self)@.log.last_clock(),
                )
            } else {
                ElectionStep::Idle
            },
            final(self)@.peers == peers_after_election(
                old(self)@.peers,
                step,
                final(self)@.log.log.last_index() as Index,
            ),
            final(self)@.log == after_election(
                old(self)@.log,
                step,
                final(self)@.voter.ballot.cur_term,
            ),
            crate::voter::ballot_step(old(self)@.voter.ballot, final(self)@.voter.ballot),
            old(self)@.log.pointers_not_after(final(self)@.log),
    {
        if !self.voter.election_timed_out(now) {
            return ElectionStep::Idle;
        }
        let electorate = self.membership();
        let last_clock = self.command_log.last_clock();
        let step = self.voter.start_election(electorate, last_clock, now, draw);
        if step == ElectionStep::Elected {
            self.take_office();
        }
        step
    }

    /// Reacts to a leader's request to take over from it.
    pub fn receive_timeout_now(&mut self, now: u64, draw: u64) -> (step: ElectionStep)
        requires
            old(self).wf(),
        ensures
            final(self).wf(),
            final(self)@.verified == old(self)@.verified,
            final(self)@.voter == old(self)@.voter.after_takeover(
                electorate_of(old(self)@.log).to_set(),
                now,
                draw,
            ),
            step == old(self)@.voter.campaign_step(
                final(self)@.voter,
                electorate_of(old(self)@.log).to_set(),
                old(self)@.log.last_clock(),
            ),
            final(self)@.peers == peers_after_election(
                old(self)@.peers,
                step,
                final(self)@.log.log.last_index() as Index,
            ),
            final(self)@.log == after_election(
                old(self)@.log,
                step,
                final(self)@.voter.ballot.cur_term,
            ),
            crate::voter::ballot_step(old(self)@.voter.ballot, final(self)@.voter.ballot),
            old(self)@.log.pointers_not_after(final(self)@.log),
    {
        let electorate = self.membership();
        let last_clock = self.command_log.last_clock();
        let step = self.voter.receive_timeout_now(electorate, last_clock, now, draw);
        if step == ElectionStep::Elected {
            self.take_office();
        }
        step
    }

    /// Takes the answer that node `from` gave to the vote request this node
    /// sent for `term`.
    pub fn receive_vote_response(
        &mut self,
        from: NodeId,
        term: Term,
        prevote: bool,
        resp: &VoteResponse,
    ) -> (step: ElectionStep)
        requires
            old(self).wf(),
        ensures
            final(self).wf(),
            final(self)@.verified == old(self)@.verified,
            final(self)@.voter == old(self)@.voter.after_response(from, term, prevote, *resp),
            step == crate::voter::response_step(
                old(self)@.voter,
                final(self)@.voter,
                from,
                term,
                prevote,
                *resp,
                old(self)@.log.last_clock(),
            ),
            final(self)@.peers == peers_after_election(
                old(self)@.peers,
                step,
                final(self)@.log.log.last_index() as Index,
            ),
            final(self)@.log == after_election(
                old(self)@.log,
                step,
                final(self)@.voter.ballot.cur_term,
            ),
            crate::voter::ballot_step(old(self)@.voter.ballot, final(self)@.voter.ballot),
            old(self)@.log.pointers_not_after(final(self)@.log),
            step != ElectionStep::Elected ==> final(self)@.log == old(self)@.log,
            step == ElectionStep::Elected <==> final(self)@.voter.state == ElectionState::Leader
                && old(self)@.voter.state != ElectionState::Leader,
    {
        let last_clock = self.command_log.last_clock();
        let step = self.voter.receive_vote_response(from, term, prevote, resp, last_clock);
        proof {
            self.voter.lemma_wf_view();
            old(self).voter.lemma_wf_view();
        }
        if step == ElectionStep::Elected {
            assert(old(self)@.voter.state != ElectionState::Follower);
            self.take_office();
        }
        step
    }

    /// The heartbeat that the node sends as leader: its term and its commit
    /// pointer. A node that does not lead sends none.
    pub fn heartbeat(&self) -> (r: Option<Heartbeat>)
        ensures
            r == if self@.voter.state == ElectionState::Leader {
                Some(
                    Heartbeat {
                        leader_term: self@.voter.ballot.cur_term,
                        leader_commit_index: self@.log.commit_pointer,
                    },
                )
            } else {
                None
            },
    {
        if self.is_leader() {
            Some(
                Heartbeat {
                    leader_term: self.voter.read_ballot().cur_term,
                    leader_commit_index: self.command_log.commit_pointer(),
                },
            )
        } else {
            None
        }
    }

    /// Takes a leader's heartbeat that arrived at time `now`. Reports whether
    /// the sender was accepted as leader.
    ///
    /// When the sender is accepted and the log was checked against the log of
    /// a leader of the same term, the commit pointer follows the leader's, but
    /// no further than the log was checked. What lies beyond may differ from
    /// the leader's log, so it is not taken as committed on a heartbeat alone.
    pub fn receive_heartbeat(&mut self, leader_id: NodeId, hb: &Heartbeat, now: u64, draw: u64)
        -> (accepted: bool)
        requires
            old(self).wf(),
        ensures
            final(self).wf(),
            final(self)@.verified == old(self)@.verified,
            final(self)@.voter == old(self)@.voter.after_heartbeat(
                leader_id,
                hb.leader_term,
                now,
                draw,
            ),
            accepted == !declines(old(self)@.voter, hb.leader_term),
            final(self)@.peers == old(self)@.peers,
            final(self)@.log == (CommandLogView {
                commit_pointer: heartbeat_commit(
                    old(self)@.log,
                    old(self)@.verified,
                    accepted,
                    *hb,
                ),
                ..old(self)@.log
            }),
    {
        let accepted = self.voter.receive_heartbeat(leader_id, hb.leader_term, now, draw);
        if accepted && hb.leader_term == self.verified.term {
            let bound: Index = if hb.leader_commit_index <= self.verified.index {
                hb.leader_commit_index
            } else {
                self.verified.index
            };
            let _ = self.command_log.advance_commit_pointer(bound);
        }
        accepted
    }

    /// Serves a client's write: as leader, appends the message as a user
    /// command. Another node is told where the leader is, or gets
    /// [`Error::LeaderUnknown`] when this node knows of none.
    pub fn write(&mut self, message: &Vec<u8>) -> (r: Result<Submitted, Error>)
        requires
            old(self).wf(),
        ensures
            final(self).wf(),
            final(self)@.verified == old(self)@.verified,
            final(self)@.voter == old(self)@.voter,
            final(self)@.peers == old(self)@.peers,
            r == submit_result(old(self)@.voter, old(self)@.log, false),
            final(self)@.log == after_submit(
                old(self)@.voter,
                old(self)@.log,
                CommandView::User(message@),
            ),
            r matches Ok(Submitted::Accepted(i)) ==> decode_command(
                final(self)@.log.log.at(i as int).command,
            ) == Some(CommandView::User(message@)),
    {
        let command = Command::User { bytes: crate::wire::copy_bytes(message) };
        proof {
            crate::command::lemma_decode_encode_command(CommandView::User(message@));
        }
        self.submit(&command)
    }

    /// Serves a request on the core's reserved channel: as leader, appends the
    /// message as a kernel command.
    pub fn kernel(&mut self, message: &Vec<u8>) -> (r: Result<Submitted, Error>)
        requires
            old(self).wf(),
        ensures
            final(self).wf(),
            final(self)@.verified == old(self)@.verified,
            final(self)@.voter == old(self)@.voter,
            final(self)@.peers == old(self)@.peers,
            r == submit_result(old(self)@.voter, old(self)@.log, false),
            final(self)@.log == after_submit(
                old(self)@.voter,
                old(self)@.log,
                CommandView::Kernel(message@),
            ),
            r matches Ok(Submitted::Accepted(i)) ==> decode_command(
                final(self)@.log.log.at(i as int).command,
            ) == Some(CommandView::Kernel(message@)),
    {
        let command = Command::Kernel { bytes: crate::wire::copy_bytes(message) };
        proof {
            crate::command::lemma_decode_encode_command(CommandView::Kernel(message@));
        }
        self.submit(&command)
    }

    /// Appends a command as leader, or says where the leader is.
    fn submit(&mut self, command: &Command) -> (r: Result<Submitted, Error>)
        requires
            old(self).wf(),
            command.wf(),
            !(command@ is Snapshot),
        ensures
            final(self).wf(),
            final(self)@.verified == old(self)@.verified,
            final(self)@.voter == old(self)@.voter,
            peers_synced(
                old(self)@.peers,
                final(self)@.peers,
                final(self)@.log.log.last_index() as Index,
            ),
            !(command@ is ClusterConfiguration) ==> final(self)@.peers == old(self)@.peers,
            r == submit_result(
                old(self)@.voter,
                old(self)@.log,
                command@ is ClusterConfiguration,
            ),
            final(self)@.log == after_submit(
                old(self)@.voter,
                old(self)@.log,
                command@,
            ),
    {
        if !self.is_leader() {
            return match self.voter.leader_id() {
                Some(id) => Ok(Submitted::Redirect(id)),
                None => Err(Error::LeaderUnknown),
            };
        }
        let term: Term = self.voter.read_ballot().cur_term;
        let r = self.command_log.append_new_entry(command, term);
        proof {
            if !(command@ is ClusterConfiguration) && r is Ok {
                lemma_append_keeps_electorate(
                    old(self)@.log,
                    EntryView {
                        prev_clock: old(self)@.log.last_clock(),
                        this_clock: Clock {
                            term,
                            index: (old(self)@.log.log.last_index() + 1) as Index,
                        },
                        command: encode_command(command@),
                    },
                );
            }
            if !(command@ is ClusterConfiguration) {
                assert(peers_follow(self@.peers, self@.log));
            }
        }
        self.sync_peers();
        match r {
            Ok(AppendOutcome::Appended(i)) => Ok(Submitted::Accepted(i)),
            Ok(AppendOutcome::ConfigurationPending) => Ok(Submitted::ConfigurationPending),
            Err(e) => Err(e),
        }
    }

    /// Says how a client's read is to be served. A read that may be stale is
    /// run at once on any node. Any other is served by the leader only, once
    /// its leadership was confirmed and everything committed by now is applied.
    pub fn read(&self, read_locally: bool) -> (r: Result<ReadPlan, Error>)
        ensures
            r == if read_locally {
                Ok::<ReadPlan, Error>(ReadPlan::Execute)
            } else if self@.voter.state == ElectionState::Leader {
                Ok(ReadPlan::AfterApplied(self@.log.commit_pointer))
            } else if self@.voter.leader_id is Some {
                Ok(ReadPlan::Redirect(self@.voter.leader_id->Some_0))
            } else {
                Err(Error::LeaderUnknown)
            },
    {
        if read_locally {
            Ok(ReadPlan::Execute)
        } else if self.is_leader() {
            Ok(ReadPlan::AfterApplied(self.command_log.commit_pointer()))
        } else {
            match self.voter.leader_id() {
                Some(id) => Ok(ReadPlan::Redirect(id)),
                None => Err(Error::LeaderUnknown),
            }
        }
    }

    /// Whether a strict majority of the members, the node itself included
    /// when it is one, has confirmed the node's leadership at time `since` or
    /// later by acknowledging a heartbeat.
    pub fn leadership_confirmed(&self, since: u64) -> (b: bool)
        ensures
            b == (self@.voter.state == ElectionState::Leader && self@.peers.confirmed_since(
                since,
            )),
    {
        self.is_leader() && self.peers.leadership_confirmed(since)
    }

    /// Whether a read that was queued at time `queued_at` and waits for index
    /// `read_index` may run now: the node leads, a majority has confirmed
    /// that since the read was queued, and everything up to the index is
    /// applied.
    pub fn read_ready(&self, read_index: Index, queued_at: u64) -> (b: bool)
        ensures
            b == (self@.voter.state == ElectionState::Leader && self@.peers.confirmed_since(
                queued_at,
            ) && self@.log.last_applied >= read_index),
    {
        self.leadership_confirmed(queued_at) && self.command_log.last_applied() >= read_index
    }

    /// Adds a server to the lane.
    ///
    /// On a node whose log is empty, adding the node itself starts a cluster
    /// of one, which the node leads at once. Otherwise the leader appends the
    /// membership in force with `id` added.
    pub fn add_server(&mut self, id: NodeId, now: u64, draw: u64) -> (r: Result<Submitted, Error>)
        requires
            old(self).wf(),
        ensures
            final(self).wf(),
            peers_follow(final(self)@.peers, final(self)@.log),
            final(self)@.peers.self_id == final(self)@.voter.self_id,
            r matches Ok(Submitted::Accepted(_)) && id != old(self)@.voter.self_id ==> has_peer(
                final(self)@.peers.peers,
                id,
            ),
            old(self)@.voter.state == ElectionState::Leader
                ==> final(self)@.voter == old(self)@.voter,
            r matches Ok(Submitted::Accepted(_)) ==> electorate_of(final(self)@.log).to_set()
                == electorate_of(old(self)@.log).to_set().insert(id),
            final(self)@.verified == old(self)@.verified,
            peers_synced(
                old(self)@.peers,
                final(self)@.peers,
                final(self)@.log.log.last_index() as Index,
            ),
            old(self)@.log.pointers_not_after(final(self)@.log),
            crate::voter::ballot_step(old(self)@.voter.ballot, final(self)@.voter.ballot),
            old(self)@.log.log.is_empty() && may_bootstrap(old(self)@.voter, id) ==> {
                &&& r == Ok::<Submitted, Error>(Submitted::Accepted(2))
                &&& final(self)@.voter == old(self)@.voter.after_takeover(set![id], now, draw)
                &&& final(self)@.voter.state == ElectionState::Leader
                &&& final(self)@.log == in_office(
                    initial_log(id),
                    final(self)@.voter.ballot.cur_term,
                )
                &&& final(self)@.peers == (PeersView {
                    self_id: id,
                    self_is_member: true,
                    peers: Seq::empty(),
                })
            },
            old(self)@.log.log.is_empty() && !may_bootstrap(old(self)@.voter, id) ==> {
                &&& r == Err::<Submitted, Error>(Error::LeaderUnknown)
                &&& final(self)@.log == old(self)@.log
                &&& final(self)@.voter == old(self)@.voter
                &&& final(self)@.peers == old(self)@.peers
            },
            !old(self)@.log.log.is_empty() ==> {
                &&& final(self)@.voter == old(self)@.voter
                &&& r == submit_result(old(self)@.voter, old(self)@.log, true)
                &&& membership_submitted(
                    old(self)@.voter,
                    old(self)@.log,
                    final(self)@.log,
                    electorate_of(old(self)@.log).to_set().insert(id),
                )
            },
    {
        if self.command_log.get_log_last_index() == 0 {
            if id != self.voter.self_id() || self.voter.read_ballot().cur_term == u64::MAX {
                return Err(Error::LeaderUnknown);
            }
            let _ = self.command_log.init_cluster(id);
            self.sync_peers();
            let electorate = self.membership();
            proof {
                crate::command_log::lemma_initial_log_members(id);
                assert(electorate@ == seq![id]);
                assert(electorate.members().contains(id)) by {
                    assert(electorate@[0] == id);
                }
                crate::membership::lemma_ascending_len_is_cardinality(electorate@);
            }
            let last_clock = self.command_log.last_clock();
            let step = self.voter.receive_timeout_now(electorate, last_clock, now, draw);
            self.take_office();
            proof {
                let listed = self@.peers.peers;
                lemma_office_keeps_electorate(initial_log(id), self@.voter.ballot.cur_term);
                if listed.len() > 0 {
                    assert(has_peer(listed, listed[0].id));
                    assert(electorate_of(self@.log).contains(listed[0].id));
                }
                assert(electorate_of(self@.log) == seq![id]);
                assert(seq![id][0] == id);
                assert(electorate_of(self@.log).contains(id));
                assert(self@.peers.self_is_member);
                assert(listed =~= Seq::<Peer>::empty());
            }
            return Ok(Submitted::Accepted(2));
        }
        let mut m = self.membership();
        m.insert(id);
        let ghost members = m@;
        let count: usize = m.len();
        let command = Command::ClusterConfiguration { membership: m };
        let ghost cv = command@;
        let r = self.submit(&command);
        proof {
            assert(cv is ClusterConfiguration);
            if r is Ok && r->Ok_0 is Accepted {
                assert(members.len() == count);
                crate::command::lemma_decode_encode_command(cv);
                assert(electorate_of(self@.log) == members);
                assert(members.to_set().contains(id) == members.contains(id));
            }
        }
        r
    }

    /// Removes a server from the lane: the leader appends the membership in
    /// force without `id`. A leader that removes itself keeps leading until
    /// the change is committed, then steps down.
    pub fn remove_server(&mut self, id: NodeId) -> (r: Result<Submitted, Error>)
        requires
            old(self).wf(),
        ensures
            final(self).wf(),
            peers_follow(final(self)@.peers, final(self)@.log),
            final(self)@.peers.self_id == final(self)@.voter.self_id,
            r matches Ok(Submitted::Accepted(_)) ==> !has_peer(final(self)@.peers.peers, id),
            r matches Ok(Submitted::Accepted(_)) ==> electorate_of(final(self)@.log).to_set()
                == electorate_of(old(self)@.log).to_set().remove(id),
            final(self)@.verified == old(self)@.verified,
            final(self)@.voter == old(self)@.voter,
            peers_synced(
                old(self)@.peers,
                final(self)@.peers,
                final(self)@.log.log.last_index() as Index,
            ),
            old(self)@.log.pointers_not_after(final(self)@.log),
            r == submit_result(old(self)@.voter, old(self)@.log, true),
            membership_submitted(
                old(self)@.voter,
                old(self)@.log,
                final(self)@.log,
                electorate_of(old(self)@.log).to_set().remove(id),
            ),
    {
        let mut m = self.membership();
        m.remove(id);
        let ghost members = m@;
        let count: usize = m.len();
        let command = Command::ClusterConfiguration { membership: m };
        let ghost cv = command@;
        let r = self.submit(&command);
        proof {
            assert(cv is ClusterConfiguration);
            if r is Ok && r->Ok_0 is Accepted {
                assert(members.len() == count);
                crate::command::lemma_decode_encode_command(cv);
                assert(electorate_of(self@.log) == members);
                assert(members.to_set().contains(id) == members.contains(id));
            }
        }
        r
    }

    /// What to send to follower `id` next. Only a leader replicates: any other
    /// node gets [`Error::LeaderUnknown`].
    pub fn plan_replication(&self, id: NodeId) -> (r: Result<ReplicationPlan, Error>)
        requires
            self.wf(),
        ensures
            self@.voter.state != ElectionState::Leader ==> r == Err::<ReplicationPlan, Error>(
                Error::LeaderUnknown,
            ),
            self@.voter.state == ElectionState::Leader && !has_peer(self@.peers.peers, id) ==> r
                == Err::<ReplicationPlan, Error>(Error::PeerNotFound(id)),
            self@.voter.state == ElectionState::Leader && has_peer(self@.peers.peers, id)
                ==> r.is_ok() && crate::peers::plan_for(
                crate::peers::peer_of(self@.peers.peers, id),
                self@.log,
                self@.voter.ballot.cur_term,
                r->Ok_0,
            ),
    {
        if !self.is_leader() {
            return Err(Error::LeaderUnknown);
        }
        self.peers.plan_replication(id, &self.command_log, self.voter.read_ballot().cur_term)
    }

    /// Takes a batch of entries from node `from`, which claims to lead the
    /// term of the batch, at time `now`.
    ///
    /// A batch of an older term is declined. Otherwise the sender is accepted
    /// as leader and its entries are offered to the log one by one, each
    /// chained to the one before it. The answer reports success when all were
    /// inserted, or, for an empty batch, when the log holds the predecessor
    /// that the batch names; the commit pointer then follows the leader's, but
    /// no further than the batch reaches. A batch whose entries are not chained
    /// is refused with [`Error::BadReplicationStream`] before the log is
    /// touched. A failure of the log is fatal and is returned as the error.
    pub fn receive_append_entries(&mut self, from: NodeId, req: AppendEntries, now: u64, draw: u64)
        -> (r: Result<AppendEntriesResponse, Error>)
        requires
            old(self).wf(),
        ensures
            final(self).wf(),
            peers_synced(
                old(self)@.peers,
                final(self)@.peers,
                final(self)@.log.log.last_index() as Index,
            ),
            final(self)@.verified == if r matches Ok(resp) && resp.success {
                verified_after(
                    old(self)@.verified,
                    req.term,
                    reach_of(req.prev_clock, req.entries@.len() as int),
                )
            } else {
                old(self)@.verified
            },
            crate::voter::ballot_step(old(self)@.voter.ballot, final(self)@.voter.ballot),
            old(self)@.log.pointers_not_after(final(self)@.log),
            final(self)@.voter == old(self)@.voter.after_heartbeat(from, req.term, now, draw),
            r == if req.term < old(self)@.voter.ballot.cur_term
                || (req.term == old(self)@.voter.ballot.cur_term
                    && old(self)@.voter.state == ElectionState::Leader) {
                Ok::<AppendEntriesResponse, Error>(
                    AppendEntriesResponse {
                        success: false,
                        hint_index: old(self)@.log.log.last_index() as Index,
                        term: old(self)@.voter.ballot.cur_term,
                    },
                )
            } else {
                match receive_result(
                    old(self)@.log,
                    crate::log_store::entry_views(req.entries@),
                    req.prev_clock,
                ) {
                    Ok(outcome) => Ok(
                        AppendEntriesResponse {
                            success: outcome == InsertOutcome::Inserted,
                            hint_index: final(self)@.log.log.last_index() as Index,
                            term: req.term,
                        },
                    ),
                    Err(e) => Err(e),
                }
            },
            req.term < old(self)@.voter.ballot.cur_term
                || (req.term == old(self)@.voter.ballot.cur_term
                    && old(self)@.voter.state == ElectionState::Leader)
                ==> final(self)@.log == old(self)@.log,
            !(req.term < old(self)@.voter.ballot.cur_term
                || (req.term == old(self)@.voter.ballot.cur_term
                    && old(self)@.voter.state == ElectionState::Leader)) ==> {
                let offered = received_log(
                    old(self)@.log,
                    crate::log_store::entry_views(req.entries@),
                    req.prev_clock,
                );
                let all = receive_result(
                    old(self)@.log,
                    crate::log_store::entry_views(req.entries@),
                    req.prev_clock,
                ) == Ok::<InsertOutcome, Error>(InsertOutcome::Inserted);
                let bound = commit_bound(
                    req.prev_clock,
                    req.entries@.len() as int,
                    req.leader_commit,
                );
                final(self)@.log == (CommandLogView {
                    commit_pointer: if !all || bound <= offered.commit_pointer {
                        offered.commit_pointer
                    } else if bound <= offered.log.last_index() {
                        bound
                    } else {
                        offered.log.last_index() as Index
                    },
                    ..offered
                })
            },
    {
        let term: Term = self.voter.read_ballot().cur_term;
        let accepted = self.voter.receive_heartbeat(from, req.term, now, draw);
        if !accepted {
            return Ok(
                AppendEntriesResponse {
                    success: false,
                    hint_index: self.command_log.get_log_last_index(),
                    term,
                },
            );
        }
        if !stream_is_chained(&req.entries, req.prev_clock) {
            return Err(Error::BadReplicationStream);
        }
        let ghost start = self@.log;
        let ghost views = crate::log_store::entry_views(req.entries@);
        let ghost count = req.entries@.len();
        let mut entries = req.entries;
        let n: usize = entries.len();
        assert(n == count);
        let mut prev: Clock = req.prev_clock;
        let mut k: usize = 0;
        let mut outcome: Result<InsertOutcome, Error> = Ok(InsertOutcome::Inserted);
        assert(views.skip(0) =~= views);
        if n == 0 {
            let held: bool = req.prev_clock.index <= self.command_log.snapshot_pointer()
                || match self.command_log.clock_at(req.prev_clock.index) {
                Some(c) => c == req.prev_clock,
                None => false,
            };
            if !held {
                outcome = Ok(InsertOutcome::Inconsistent);
            }
        } else {
            let mut going: bool = true;
            while k < n && going
                invariant
                    going == (outcome == Ok::<InsertOutcome, Error>(InsertOutcome::Inserted)),
                    n > 0,
                    n == count,
                    self@.verified == old(self)@.verified,
                    self@.peers == old(self)@.peers,
                    n == entries@.len(),
                    views == crate::log_store::entry_views(entries@),
                    k <= n,
                    self.command_log.wf(),
                    self.voter.wf(),
                    self.peers.wf(),
                    self@.peers.self_id == self@.voter.self_id,
                    self@.voter == old(self)@.voter.after_heartbeat(from, req.term, now, draw),
                    start.pointers_not_after(self@.log),
                    outcome == Ok::<InsertOutcome, Error>(InsertOutcome::Inserted) ==> after_batch(
                        start,
                        views,
                        req.prev_clock,
                    ) == after_batch(self@.log, views.skip(k as int), prev) && batch_result(
                        start,
                        views,
                        req.prev_clock,
                    ) == batch_result(self@.log, views.skip(k as int), prev),
                    outcome != Ok::<InsertOutcome, Error>(InsertOutcome::Inserted) ==> after_batch(
                        start,
                        views,
                        req.prev_clock,
                    ) == self@.log && batch_result(start, views, req.prev_clock) == outcome,
                decreases n - k + if outcome
                    == Ok::<InsertOutcome, Error>(InsertOutcome::Inserted) {
                    1int
                } else {
                    0int
                },
            {
                let entry = entries[k].duplicate();
                let this_clock = entry.this_clock;
                proof {
                    assert(views.skip(k as int)[0] == views[k as int]);
                    assert(views.skip(k as int).skip(1) =~= views.skip(k + 1));
                }
                outcome = self.command_log.try_insert_entry(entry, prev);
                going = match outcome {
                    Ok(InsertOutcome::Inserted) => true,
                    _ => false,
                };
                if going {
                    prev = this_clock;
                    k = k + 1;
                }
            }
        }
        self.sync_peers();
        match outcome {
            Ok(InsertOutcome::Inserted) => {
                let reach: Index = if (n as u64) <= u64::MAX - req.prev_clock.index {
                    req.prev_clock.index + n as u64
                } else {
                    u64::MAX
                };
                let bound: Index = if req.leader_commit <= reach {
                    req.leader_commit
                } else {
                    reach
                };
                let _ = self.command_log.advance_commit_pointer(bound);
                assert(peers_follow(self@.peers, self@.log));
                self.sync_peers();
                if !(self.verified.term == req.term && self.verified.index >= reach) {
                    self.verified = Clock { term: req.term, index: reach };
                }
                Ok(
                    AppendEntriesResponse {
                        success: true,
                        hint_index: self.command_log.get_log_last_index(),
                        term: req.term,
                    },
                )
            },
            Ok(_) => Ok(
                AppendEntriesResponse {
                    success: false,
                    hint_index: self.command_log.get_log_last_index(),
                    term: req.term,
                },
            ),
            Err(e) => Err(e),
        }
    }

    /// Takes follower `from`'s answer to a batch that ended at index
    /// `sent_upto`. An answer from a newer term ends this node's leadership.
    pub fn receive_append_response(
        &mut self,
        from: NodeId,
        resp: &AppendEntriesResponse,
        sent_upto: Index,
    ) -> (r: Result<AckOutcome, Error>)
        requires
            old(self).wf(),
        ensures
            final(self).wf(),
            final(self)@.verified == old(self)@.verified,
            final(self)@.log == old(self)@.log,
            final(self)@.peers == if old(self)@.voter.state == ElectionState::Leader {
                old(self)@.peers.acked(from, old(self)@.voter.ballot.cur_term, *resp, sent_upto)
            } else {
                old(self)@.peers
            },
            crate::voter::ballot_step(old(self)@.voter.ballot, final(self)@.voter.ballot),
            r == if old(self)@.voter.state != ElectionState::Leader {
                Err::<AckOutcome, Error>(Error::LeaderUnknown)
            } else if !has_peer(old(self)@.peers.peers, from) {
                Err(Error::PeerNotFound(from))
            } else if resp.term > old(self)@.voter.ballot.cur_term {
                Ok(AckOutcome::Surrender(resp.term))
            } else if resp.success {
                Ok(AckOutcome::Advanced)
            } else {
                Ok(AckOutcome::Retreated)
            },
            final(self)@.voter == match r {
                Ok(AckOutcome::Surrender(t)) => old(self)@.voter.stepped_down(t),
                _ => old(self)@.voter,
            },
    {
        if !self.is_leader() {
            return Err(Error::LeaderUnknown);
        }
        let term: Term = self.voter.read_ballot().cur_term;
        let ghost before = self@.peers;
        let r = self.peers.handle_ack(from, term, resp, sent_upto);
        match r {
            Ok(AckOutcome::Surrender(t)) => {
                let _ = self.voter.observe_term(t);
            },
            _ => {},
        }
        proof {
            assert forall|id: NodeId| has_peer(self@.peers.peers, id) == has_peer(
                before.peers,
                id,
            ) by {
                if has_peer(self@.peers.peers, id) {
                    let k = choose|k: int|
                        0 <= k < self@.peers.peers.len() && #[trigger] self@.peers.peers[k].id
                            == id;
                    assert(before.peers[k].id == id);
                }
                if has_peer(before.peers, id) {
                    let k = choose|k: int|
                        0 <= k < before.peers.len() && #[trigger] before.peers[k].id == id;
                    assert(self@.peers.peers[k].id == id);
                }
            }
        }
        r
    }

    /// Installs a snapshot entry received from node `from`, which claims to
    /// lead `term`, after the snapshot itself was saved. Reports whether the
    /// application must load the snapshot at the entry's index.
    ///
    /// A sender of an older term is declined and nothing is installed; so is a
    /// sender of the node's own term while the node leads. Any other sender is
    /// accepted as leader; see [`CommandLog::install_snapshot`] for what
    /// happens to the log.
    pub fn receive_snapshot(
        &mut self,
        from: NodeId,
        term: Term,
        entry: Entry,
        now: u64,
        draw: u64,
    ) -> (r: Result<bool, Error>)
        requires
            old(self).wf(),
        ensures
            final(self).wf(),
            peers_synced(
                old(self)@.peers,
                final(self)@.peers,
                final(self)@.log.log.last_index() as Index,
            ),
            final(self)@.verified == if r == Ok::<bool, Error>(true) {
                Clock { term, index: entry@.this_clock.index }
            } else {
                old(self)@.verified
            },
            final(self)@.voter == old(self)@.voter.after_heartbeat(from, term, now, draw),
            crate::voter::ballot_step(old(self)@.voter.ballot, final(self)@.voter.ballot),
            old(self)@.log.pointers_not_after(final(self)@.log),
            r == if declines(old(self)@.voter, term) {
                Ok::<bool, Error>(false)
            } else if !crate::command_log::snapshot_entry_ok(entry@) {
                Err(Error::BadLogState)
            } else {
                Ok(entry@.this_clock.index > old(self)@.log.commit_pointer)
            },
            final(self)@.log == if r != Ok::<bool, Error>(true) {
                old(self)@.log
            } else if crate::command_log::holds_entry(old(self)@.log.log, entry@) {
                CommandLogView {
                    commit_pointer: entry@.this_clock.index,
                    last_applied: entry@.this_clock.index,
                    ..crate::command_log::with_snapshot_at(
                        old(self)@.log,
                        entry@.this_clock.index,
                        entry@,
                    )
                }
            } else {
                CommandLogView {
                    log: crate::log_store::LogView {
                        head: entry@.this_clock.index,
                        entries: seq![entry@],
                    },
                    snapshot_pointer: entry@.this_clock.index,
                    commit_pointer: entry@.this_clock.index,
                    last_applied: entry@.this_clock.index,
                    membership_pointer: entry@.this_clock.index,
                }
            },
    {
        if !self.voter.receive_heartbeat(from, term, now, draw) {
            return Ok(false);
        }
        let index: Index = entry.this_clock.index;
        let r = self.command_log.install_snapshot(entry);
        self.sync_peers();
        match r {
            Ok(true) => {
                self.verified = Clock { term, index };
            },
            _ => {},
        }
        r
    }

    /// One round of the commit loop: as leader, moves the commit pointer to
    /// the highest index that a majority holds and that is of the leader's
    /// term. Reports whether the pointer moved, in which case the loop should
    /// run again at once.
    pub fn advance_commit(&mut self) -> (moved: bool)
        requires
            old(self).wf(),
        ensures
            final(self).wf(),
            final(self)@.verified == old(self)@.verified,
            final(self)@.voter == old(self)@.voter,
            final(self)@.peers == old(self)@.peers,
            final(self)@.log == (CommandLogView {
                commit_pointer: final(self)@.log.commit_pointer,
                ..old(self)@.log
            }),
            commit_settled(
                old(self)@.voter,
                old(self)@.peers,
                old(self)@.log,
                final(self)@.log.commit_pointer,
            ),
            moved == (final(self)@.log.commit_pointer
                > old(self)@.log.commit_pointer),
            old(self)@.voter.state == ElectionState::Leader && old(self)@.peers.committable(
                old(self)@.log.log,
                old(self)@.voter.ballot.cur_term,
                old(self)@.log.log.last_index() as Index,
            ) ==> final(self)@.log.commit_pointer == old(self)@.log.log.last_index(),
    {
        if !self.is_leader() {
            return false;
        }
        let old_agreement: Index = self.command_log.commit_pointer();
        let new_agreement: Index = self.peers.find_new_commit(
            &self.command_log,
            self.voter.read_ballot().cur_term,
        );
        if new_agreement > old_agreement {
            let _ = self.command_log.advance_commit_pointer(new_agreement);
            proof {
                assert(electorate_of(self@.log) == electorate_of(old(self)@.log));
            }
            true
        } else {
            false
        }
    }

    /// One round of the execution loop: hands over every committed entry that
    /// was not handed over before. Reports, with the entries, whether there
    /// was work, in which case the loop should run again at once.
    pub fn advance_applied(&mut self) -> (r: (bool, Vec<Applied>))
        requires
            old(self).wf(),
        ensures
            final(self).wf(),
            final(self)@.verified == old(self)@.verified,
            final(self)@.voter == old(self)@.voter,
            final(self)@.peers == old(self)@.peers,
            final(self)@.log == crate::command_log::after_apply(old(self)@.log),
            old(self)@.log.pointers_not_after(final(self)@.log),
            r.0 == (old(self)@.log.last_applied < old(self)@.log.commit_pointer),
            r.1@.len()
                == old(self)@.log.commit_pointer - old(self)@.log.last_applied,
            forall|k: int|
                0 <= k < r.1@.len() ==> crate::command_log::applied_at(
                    old(self)@.log.log,
                    old(self)@.log.last_applied + 1 + k,
                    #[trigger] r.1@[k],
                ),
    {
        let need_work: bool = self.command_log.last_applied() < self.command_log.commit_pointer();
        let out = self.command_log.advance_last_applied();
        proof {
            assert(electorate_of(self@.log) == electorate_of(old(self)@.log));
        }
        (need_work, out)
    }

    /// One round of the snapshot loop: takes the application's proposal for a
    /// new snapshot point; see [`CommandLog::advance_snapshot_index`].
    pub fn advance_snapshot(&mut self, proposed: Index) -> (r: Result<bool, Error>)
        requires
            old(self).wf(),
        ensures
            final(self).wf(),
            final(self)@.verified == old(self)@.verified,
            final(self)@.voter == old(self)@.voter,
            peers_synced(
                old(self)@.peers,
                final(self)@.peers,
                final(self)@.log.log.last_index() as Index,
            ),
            old(self)@.log.pointers_not_after(final(self)@.log),
            r == crate::command_log::proposal_result(old(self)@.log, proposed),
            final(self)@.log == crate::command_log::after_proposal(
                old(self)@.log,
                proposed,
            ),
    {
        let r = self.command_log.advance_snapshot_index(proposed);
        self.sync_peers();
        r
    }

    /// One round of the compaction loop: drops the entries below the snapshot
    /// pointer. Returns the index below which the application may delete its
    /// snapshots.
    pub fn compact(&mut self) -> (reclaim_before: Index)
        requires
            old(self).wf(),
        ensures
            final(self).wf(),
            final(self)@.verified == old(self)@.verified,
            final(self)@.voter == old(self)@.voter,
            peers_synced(
                old(self)@.peers,
                final(self)@.peers,
                final(self)@.log.log.last_index() as Index,
            ),
            final(self)@.log == (CommandLogView {
                log: old(self)@.log.log.delete_before(
                    old(self)@.log.snapshot_pointer,
                ),
                ..old(self)@.log
            }),
            reclaim_before == old(self)@.log.snapshot_pointer,
    {
        let r = self.command_log.run_gc();
        self.sync_peers();
        r
    }

    /// What must reach the storage device before an answer that depends on
    /// the ballot and on the entries from `from` on leaves the node: the
    /// records to write, in order, and the indexes to delete, given that the
    /// log ended at `old_last` before the request was served.
    pub fn persist_plan(&self, from: Index, old_last: Index) -> (plan: (Vec<Record>, Vec<Index>))
        requires
            self.wf(),
        ensures
            record_views(plan.0@) == persisted_records(
                self@.voter.ballot,
                self@.log,
                from,
            ),
            plan.1@ == dropped_indexes(self@.log, old_last),
    {
        let ghost want = persisted_records(self@.voter.ballot, self@.log, from);
        let ghost log = self@.log.log;
        let mut records: Vec<Record> = Vec::new();
        records.push(ballot_record(&self.voter.read_ballot()));
        let head: Index = self.command_log.get_log_head_index();
        let last: Index = self.command_log.get_log_last_index();
        let first: Index = if from > head {
            from
        } else {
            head
        };
        if first != 0 && first <= last {
            let mut i: Index = first;
            let mut going: bool = true;
            while going
                invariant
                    self.wf(),
                    log == self@.log.log,
                    last == log.last_index(),
                    first == persist_first(self@.log, from),
                    1 <= first <= i <= last,
                    !going ==> i == last,
                    records@.len() == 1 + (i - first) + if going {
                        0int
                    } else {
                        1int
                    },
                    records@[0]@ == ballot_record_of(self@.voter.ballot),
                    forall|k: int|
                        1 <= k < records@.len() ==> (#[trigger] records@[k])@ == entry_record_of(
                            (first + k - 1) as Index,
                            log.at(first + k - 1),
                        ),
                decreases
                        (last - i) + if going {
                            1int
                        } else {
                            0int
                        },
            {
                match self.command_log.get_entry(i) {
                    Ok(e) => {
                        records.push(entry_record(i, &e));
                    },
                    Err(_) => {
                        assert(false);
                    },
                }
                if i < last {
                    i = i + 1;
                } else {
                    going = false;
                }
            }
        }
        let mut dropped: Vec<Index> = Vec::new();
        let mut j: Index = last;
        while j < old_last
            invariant
                last <= j,
                last < old_last ==> j <= old_last,
                old_last <= last ==> j == last,
                dropped@.len() == j - last,
                forall|k: int| 0 <= k < dropped@.len() ==> #[trigger] dropped@[k] == last + 1 + k,
            decreases old_last - j,
        {
            j = j + 1;
            dropped.push(j);
        }
        proof {
            assert(record_views(records@) =~= want);
            let gone = dropped_indexes(self@.log, old_last);
            assert(last == self@.log.log.last_index());
            assert(dropped@.len() == gone.len());
            assert forall|k: int| 0 <= k < dropped@.len() implies dropped@[k] == gone[k] by {
                assert(last + 1 + k <= old_last);
            }
            assert(dropped@ =~= gone);
        }
        (records, dropped)
    }

    /// Whether the leader must step down, and to whom it hands leadership
    /// first: the first follower, by identity, that holds the whole log;
    /// nobody when no follower holds it. A node that is not to step down gets
    /// the reason as an error. Nothing changes: the node still leads while
    /// the hand-over is sent, and steps down with
    /// [`RaftProcess::try_stepdown`] after it.
    pub fn plan_stepdown(&self) -> (r: Result<Option<NodeId>, Stepdown>)
        requires
            self.wf(),
        ensures
            match stepdown_refusal(self@.voter, self@.log) {
                Some(why) => r == Err::<Option<NodeId>, Stepdown>(why),
                None => r matches Ok(target) && self@.peers.transfer_target_is(
                    self@.log.log.last_index() as Index,
                    target,
                ),
            },
            !(stepdown_refusal(self@.voter, self@.log) matches Some(
                Stepdown::MembershipUnknown,
            )),
    {
        proof {
            if !self@.log.log.is_empty() {
                lemma_members_are_known(self@.log);
            }
        }
        match self.voter.check_stepdown(&self.command_log) {
            Ok(()) => Ok(self.peers.transfer_target(self.command_log.get_log_last_index())),
            Err(why) => Err(why),
        }
    }

    /// Steps down when the node leads and the committed membership no longer
    /// includes it. This is the second step: the hand-over that
    /// [`RaftProcess::plan_stepdown`] names was sent before. A node that is
    /// not to step down is left as it is and gets the reason as an error.
    pub fn try_stepdown(&mut self) -> (r: Result<(), Stepdown>)
        requires
            old(self).wf(),
        ensures
            final(self).wf(),
            final(self)@.verified == old(self)@.verified,
            final(self)@.log == old(self)@.log,
            final(self)@.peers == old(self)@.peers,
            r == stepdown_result(old(self)@.voter, old(self)@.log),
            final(self)@.voter == if r is Ok {
                old(self)@.voter.retired()
            } else {
                old(self)@.voter
            },
    {
        self.voter.try_stepdown(&self.command_log)
    }

    /// The follower that a leader asks to take over when it hands leadership
    /// on: the first, by identity, that holds the whole log.
    pub fn send_timeout_now(&self) -> (r: Result<NodeId, Error>)
        requires
            self.wf(),
        ensures
            r matches Err(e) ==> e == Error::LeaderUnknown,
            self@.voter.state != ElectionState::Leader ==> r is Err,
            self@.voter.state == ElectionState::Leader ==> self@.peers.transfer_target_is(
                self@.log.log.last_index() as Index,
                match r {
                    Ok(id) => Some(id),
                    Err(_) => None,
                },
            ),
    {
        if !self.is_leader() {
            return Err(Error::LeaderUnknown);
        }
        match self.peers.transfer_target(self.command_log.get_log_last_index()) {
            Some(id) => Ok(id),
            None => Err(Error::LeaderUnknown),
        }
    }
}

/// The log of a node after it took office in `term`: with a no-op entry of
/// that term at its end, unless the log is empty, its indexes are used up, or
/// its last entry is of a newer term.
pub open spec fn in_office(log: CommandLogView, term: Term) -> CommandLogView {
    if log.log.is_empty() || log.log.last_index() == u64::MAX || term < log.last_clock().term {
        log
    } else {
        CommandLogView {
            log: log.log.insert(
                (log.log.last_index() + 1) as Index,
                EntryView {
                    prev_clock: log.last_clock(),
                    this_clock: Clock { term, index: (log.log.last_index() + 1) as Index },
                    command: encode_command(CommandView::Noop),
                },
            ),
            ..log
        }
    }
}

/// Holds when `after` is `before` with the leader's change of the membership
/// to `members` submitted. The new membership is written in ascending order,
/// so the log that this describes is a single one.
pub open spec fn membership_submitted(
    voter: VoterView,
    before: CommandLogView,
    after: CommandLogView,
    members: Set<NodeId>,
) -> bool {
    exists|m: Seq<NodeId>|
        #![trigger crate::membership::strictly_ascending(m)]
        {
            &&& m.to_set() == members
            &&& crate::membership::strictly_ascending(m)
            &&& after == after_submit(voter, before, CommandView::ClusterConfiguration(m))
        }
}

/// Holds when a node of id `id` and empty log can start a cluster by adding
/// `added`: it adds itself, and its term can still grow.
pub open spec fn may_bootstrap(voter: VoterView, added: NodeId) -> bool {
    added == voter.self_id && voter.ballot.cur_term < u64::MAX
}

/// The election state of a node that starts at time `now`: a follower that
/// holds the ballot it had persisted, knows no leader, and waits for the
/// timeout that `draw` stands for.
pub open spec fn fresh_voter(self_id: NodeId, ballot: crate::ballot::Vote, now: u64, draw: u64)
    -> VoterView {
    VoterView {
        self_id,
        state: ElectionState::Follower,
        ballot,
        leader_id: None,
        last_contact: now,
        election_timeout: crate::voter::timeout_for(draw),
        poll: None,
    }
}

/// Holds when `after` is the directory `before` brought in line with a
/// change of the membership, on a node whose log ends at `last`: of a
/// follower that was listed before it says what it said, and a new one is a
/// fresh peer. Whom it lists follows from the membership in force.
pub open spec fn peers_synced(before: PeersView, after: PeersView, last: Index) -> bool {
    &&& after.self_id == before.self_id
    &&& forall|id: NodeId|
        #![trigger peer_of(after.peers, id)]
        has_peer(after.peers, id) ==> peer_of(after.peers, id) == if has_peer(before.peers, id) {
            peer_of(before.peers, id)
        } else {
            fresh_peer(id, last)
        }
}

/// The directory after a step of an election: reset when the node was
/// elected to lead a log that ends at `last`, as it was otherwise.
pub open spec fn peers_after_election(before: PeersView, step: ElectionStep, last: Index)
    -> PeersView {
    if step == ElectionStep::Elected {
        before.reset(last)
    } else {
        before
    }
}

/// A new entry at the end of the log that carries no membership changes
/// nothing of who the members are.
pub proof fn lemma_append_keeps_electorate(log: CommandLogView, e: EntryView)
    requires
        log.wf(),
        !log.log.is_empty(),
        log.log.last_index() < u64::MAX,
    ensures
        electorate_of(
            CommandLogView { log: log.log.insert((log.log.last_index() + 1) as Index, e), ..log },
        ) == electorate_of(log),
{
    let a = log.log;
    let b = a.insert((a.last_index() + 1) as Index, e);
    let at = log.membership_pointer as int;
    crate::log_model::lemma_config_index_bounds(a, a.last_index());
    assert(b.entries == a.entries.push(e));
    assert forall|j: int| b.head <= j <= at implies a.at(j) == b.at(j) by {}
    crate::log_model::lemma_config_index_agrees(a, b, at);
    crate::log_model::lemma_config_index_bounds(a, at);
}

/// Holds when `commit` is where the leader's commit rule leaves the commit
/// pointer of `log`: at the highest index above it whose entry is of the
/// leader's own term and is held by a strict majority, or where it was when
/// there is no such index. Only a leader moves it.
pub open spec fn commit_settled(
    voter: VoterView,
    peers: PeersView,
    log: CommandLogView,
    commit: Index,
) -> bool {
    if voter.state != ElectionState::Leader {
        commit == log.commit_pointer
    } else {
        &&& log.commit_pointer <= commit
        &&& commit > log.commit_pointer ==> peers.committable(
            log.log,
            voter.ballot.cur_term,
            commit,
        )
        &&& forall|j: Index|
            commit < j ==> !#[trigger] peers.committable(log.log, voter.ballot.cur_term, j)
    }
}

/// The index from which entries are written when everything from `from` on is
/// to be persisted: `from`, or the head of the log where that is later.
pub open spec fn persist_first(log: CommandLogView, from: Index) -> int {
    if from > log.log.head_index() {
        from as int
    } else {
        log.log.head_index()
    }
}

/// What is written before an answer that depends on the ballot and on the
/// entries from `from` on leaves the node: the ballot first, then those
/// entries in index order.
pub open spec fn persisted_records(ballot: crate::ballot::Vote, log: CommandLogView, from: Index)
    -> Seq<RecordView> {
    let first = persist_first(log, from);
    let last = log.log.last_index();
    seq![ballot_record_of(ballot)] + if first == 0 || first > last {
        Seq::<RecordView>::empty()
    } else {
        Seq::new(
            (last - first + 1) as nat,
            |k: int| entry_record_of((first + k) as Index, log.log.at(first + k)),
        )
    }
}

/// The indexes whose records are deleted after a log that ended at
/// `old_last` was cut back: those above its present end.
pub open spec fn dropped_indexes(log: CommandLogView, old_last: Index) -> Seq<Index> {
    let last = log.log.last_index();
    if old_last > last {
        Seq::new((old_last - last) as nat, |k: int| (last + 1 + k) as Index)
    } else {
        Seq::<Index>::empty()
    }
}

/// A log that holds anything names its members.
pub proof fn lemma_members_are_known(log: CommandLogView)
    requires
        log.wf(),
        !log.log.is_empty(),
    ensures
        log.membership_at(log.membership_pointer as int) is Some,
{
    crate::log_model::lemma_config_index_reaches(
        log.log,
        log.log.last_index(),
        log.snapshot_pointer as int,
    );
    crate::log_model::lemma_config_index_bounds(log.log, log.log.last_index());
}

/// Taking office changes nothing of who the members are.
pub proof fn lemma_office_keeps_electorate(log: CommandLogView, term: Term)
    requires
        log.wf(),
    ensures
        electorate_of(in_office(log, term)) == electorate_of(log),
{
    if in_office(log, term) != log {
        lemma_append_keeps_electorate(
            log,
            EntryView {
                prev_clock: log.last_clock(),
                this_clock: Clock { term, index: (log.log.last_index() + 1) as Index },
                command: encode_command(CommandView::Noop),
            },
        );
    }
}

/// The log after a step of an election: in office when the node was elected,
/// as it was otherwise.
pub open spec fn after_election(log: CommandLogView, step: ElectionStep, term: Term)
    -> CommandLogView {
    if step == ElectionStep::Elected {
        in_office(log, term)
    } else {
        log
    }
}

/// How far a batch of `count` entries after the entry of clock `prev` reaches.
pub open spec fn reach_of(prev: Clock, count: int) -> Index {
    if prev.index + count <= u64::MAX {
        (prev.index + count) as Index
    } else {
        u64::MAX
    }
}

/// What is known to be checked after a batch of the leader of `term` was
/// taken in full: what was known of that leader before, or the reach of the
/// batch when that is further.
pub open spec fn verified_after(before: Clock, term: Term, reach: Index) -> Clock {
    if before.term == term && before.index >= reach {
        before
    } else {
        Clock { term, index: reach }
    }
}

/// The commit pointer after a heartbeat: it moves only when the sender was
/// accepted and the log was checked against a leader of the sender's term, and
/// then up to the leader's commit index, but not beyond what was checked nor
/// beyond the log, and never back.
pub open spec fn heartbeat_commit(
    log: CommandLogView,
    verified: Clock,
    accepted: bool,
    hb: Heartbeat,
) -> Index {
    let bound = if hb.leader_commit_index <= verified.index {
        hb.leader_commit_index
    } else {
        verified.index
    };
    if !accepted || hb.leader_term != verified.term || bound <= log.commit_pointer {
        log.commit_pointer
    } else if bound <= log.log.last_index() {
        bound
    } else {
        log.log.last_index() as Index
    }
}

/// Whether a node declines a sender that claims to lead `term`: the term is
/// older than the node's, or it is the node's own while the node leads.
pub open spec fn declines(voter: VoterView, term: Term) -> bool {
    term < voter.ballot.cur_term || (term == voter.ballot.cur_term && voter.state
        == ElectionState::Leader)
}

/// What a request that only a leader can serve returns.
pub open spec fn submit_result(voter: VoterView, log: CommandLogView, is_config: bool) -> Result<
    Submitted,
    Error,
> {
    if voter.state != ElectionState::Leader {
        match voter.leader_id {
            Some(id) => Ok(Submitted::Redirect(id)),
            None => Err(Error::LeaderUnknown),
        }
    } else if log.log.is_empty() || log.log.last_index() == u64::MAX || voter.ballot.cur_term
        < log.last_clock().term {
        Err(Error::BadLogState)
    } else if is_config && log.membership_pointer > log.commit_pointer {
        Ok(Submitted::ConfigurationPending)
    } else {
        Ok(Submitted::Accepted((log.log.last_index() + 1) as u64))
    }
}

/// The log after a request that only a leader can serve.
pub open spec fn after_submit(voter: VoterView, log: CommandLogView, command: CommandView)
    -> CommandLogView {
    match submit_result(voter, log, command is ClusterConfiguration) {
        Ok(Submitted::Accepted(i)) => CommandLogView {
            log: log.log.insert(
                i,
                EntryView {
                    prev_clock: log.last_clock(),
                    this_clock: Clock { term: voter.ballot.cur_term, index: i },
                    command: encode_command(command),
                },
            ),
            membership_pointer: if command is ClusterConfiguration {
                i
            } else {
                log.membership_pointer
            },
            ..log
        },
        _ => log,
    }
}

} // verus!
