//! A model of a whole lane: the ballots and logs of all members, and the
//! steps by which the operations of this crate change them. The model keeps
//! a record of every vote, every election and every entry ever created, and
//! shows that the steps maintain what election safety and log matching rest
//! on. Two further modules build on it: [`crate::commitment`] shows that no
//! leader lacks a committed entry, [`crate::agreement`] that all nodes
//! execute the same commands.
//!
//! What the model assumes, and the theorems with it:
//!
//! - The membership is the same throughout a run.
//! - A step stands for one operation on one node and is taken at once. A
//!   message is read where it is written: a follower takes an entry from the
//!   log of a node that leads the follower's term at that moment, and a vote
//!   is counted for a candidate that still campaigns.
//! - A node acknowledges an entry that it holds while it is in the term of
//!   the entry. An entry counts as committed once a majority has
//!   acknowledged it, whatever has become of those nodes since.
//! - One node starts the cluster, once.

use crate::ballot::Vote;
use crate::clock::{Clock, Index, NodeId, Term};
use crate::command::{decode_command, encode_command, CommandView};
use crate::command_log::{insert_case, snapshot_entry_ok, InsertCase};
use crate::entry::EntryView;
use crate::log_model::{entries_ok, entry_ok, is_snapshot, CommandLogView};
use crate::log_store::LogView;
use crate::membership::quorum_of;
use crate::process::after_offer;
use crate::safety::lemma_majorities_intersect;
use crate::voter::{ballot_after_request, grants, VoteRequest};
use vstd::prelude::*;

verus! {

/// A log is in order: its indexes are in range and every entry is in order.
pub open spec fn log_ok(log: LogView) -> bool {
    log.wf() && entries_ok(log)
}

/// Whether the entry `x` of a log stands for the entry `y` as it was created:
/// it has the same clocks, and the same command unless it was rewritten into
/// a snapshot entry.
pub open spec fn stands_for(x: EntryView, y: EntryView) -> bool {
    &&& x.this_clock == y.this_clock
    &&& x.prev_clock == y.prev_clock
    &&& (x.command == y.command || is_snapshot(x))
}

/// The entry that a leader of `term` appends to `log` for `command`.
pub open spec fn appended_entry(log: LogView, term: Term, command: Seq<u8>) -> EntryView {
    EntryView {
        prev_clock: log.at(log.last_index()).this_clock,
        this_clock: Clock { term, index: (log.last_index() + 1) as Index },
        command,
    }
}

/// The log after an entry offered by a leader was taken, whatever the
/// pointers of the command log are.
pub open spec fn offered(log: LogView, snapshot: Index, commit: Index, e: EntryView) -> LogView {
    after_offer(
        CommandLogView {
            log,
            snapshot_pointer: snapshot,
            commit_pointer: commit,
            last_applied: snapshot,
            membership_pointer: 0,
        },
        e,
        e.prev_clock,
    ).log
}

/// The log after the entry at `k` was rewritten into a snapshot entry.
pub open spec fn rewritten(log: LogView, k: Index, command: Seq<u8>) -> LogView {
    log.insert(k, EntryView { command, ..log.at(k as int) })
}

/// Appending keeps a log in order.
pub proof fn lemma_append_keeps_order(log: LogView, term: Term, command: Seq<u8>)
    requires
        log_ok(log),
        !log.is_empty(),
        log.last_index() < u64::MAX,
        term >= log.at(log.last_index()).this_clock.term,
        decode_command(command) is Some,
    ensures
        log_ok(log.insert((log.last_index() + 1) as Index, appended_entry(log, term, command))),
        forall|i: int|
            log.contains(i) ==> log.insert(
                (log.last_index() + 1) as Index,
                appended_entry(log, term, command),
            ).at(i) == log.at(i),
{
    let e = appended_entry(log, term, command);
    let after = log.insert((log.last_index() + 1) as Index, e);
    assert(after.entries =~= log.entries.push(e));
    assert(log.contains(log.last_index()));
    assert(entry_ok(log, log.last_index()));
    assert forall|i: int| #[trigger] after.contains(i) implies entry_ok(after, i) by {
        if i <= log.last_index() {
            assert(log.contains(i));
            assert(entry_ok(log, i));
        }
    }
}

/// Taking an offered entry keeps a log in order, and leaves in place what is
/// below the entry.
pub proof fn lemma_offer_keeps_order(log: LogView, snapshot: Index, commit: Index, e: EntryView)
    requires
        log_ok(log),
    ensures
        log_ok(offered(log, snapshot, commit, e)),
        offered(log, snapshot, commit, e) != log ==> {
            let after = offered(log, snapshot, commit, e);
            &&& after.head == log.head
            &&& after.last_index() == e.this_clock.index
            &&& after.at(e.this_clock.index as int) == e
            &&& log.contains(e.this_clock.index - 1)
            &&& !(log.contains(e.this_clock.index as int) && log.at(
                e.this_clock.index as int,
            ).this_clock == e.this_clock)
            &&& forall|i: int|
                after.contains(i) && i < e.this_clock.index ==> log.contains(i) && after.at(i)
                    == log.at(i)
        },
{
    let s = CommandLogView {
        log,
        snapshot_pointer: snapshot,
        commit_pointer: commit,
        last_applied: snapshot,
        membership_pointer: 0,
    };
    let after = offered(log, snapshot, commit, e);
    let i = e.this_clock.index as int;
    match insert_case(s, e, e.prev_clock) {
        InsertCase::Replaces => {
            assert(after.entries =~= log.entries.take(i - log.head).push(e));
            assert forall|j: int| #[trigger] after.contains(j) implies entry_ok(after, j) by {
                if j < i {
                    assert(log.contains(j));
                    assert(entry_ok(log, j));
                }
            }
        },
        InsertCase::Extends => {
            assert(after.entries =~= log.entries.push(e));
            assert forall|j: int| #[trigger] after.contains(j) implies entry_ok(after, j) by {
                if j < i {
                    assert(log.contains(j));
                    assert(entry_ok(log, j));
                }
            }
        },
        _ => {},
    }
}

/// Rewriting an entry into a snapshot entry keeps a log in order.
pub proof fn lemma_rewrite_keeps_order(log: LogView, k: Index, command: Seq<u8>)
    requires
        log_ok(log),
        log.contains(k as int),
        decode_command(command) is Some,
    ensures
        log_ok(rewritten(log, k, command)),
        rewritten(log, k, command).head == log.head,
        rewritten(log, k, command).last_index() == log.last_index(),
        forall|i: int|
            log.contains(i) ==> {
                &&& rewritten(log, k, command).contains(i)
                &&& (#[trigger] rewritten(log, k, command).at(i)).this_clock == log.at(i).this_clock
                &&& rewritten(log, k, command).at(i).prev_clock == log.at(i).prev_clock
                &&& (i != k ==> rewritten(log, k, command).at(i) == log.at(i))
                &&& (i == k ==> rewritten(log, k, command).at(i).command == command)
            },
{
    let after = rewritten(log, k, command);
    assert(after.entries =~= log.entries.update(k - log.head, EntryView { command,
        ..log.at(k as int) }));
    assert forall|i: int| #[trigger] after.contains(i) implies entry_ok(after, i) by {
        assert(log.contains(i));
        assert(entry_ok(log, i));
    }
}

/// Dropping the front of a log keeps it in order.
pub proof fn lemma_compact_keeps_order(log: LogView, i: Index)
    requires
        log_ok(log),
        i <= log.last_index(),
    ensures
        log_ok(log.delete_before(i)),
        log.delete_before(i).last_index() == log.last_index(),
        forall|j: int|
            #[trigger] log.delete_before(i).contains(j) ==> log.contains(j) && log.delete_before(
                i,
            ).at(j) == log.at(j),
{
    let after = log.delete_before(i);
    assert forall|j: int| #[trigger] after.contains(j) implies entry_ok(after, j) by {
        assert(log.contains(j));
        assert(entry_ok(log, j));
    }
}

/// The clock of the last entry of a log, or the zero clock.
pub open spec fn last_clock_of(log: LogView) -> Clock {
    if log.is_empty() {
        Clock { term: 0, index: 0 }
    } else {
        log.at(log.last_index()).this_clock
    }
}

/// The log after a snapshot entry was taken: the entry in the place of the
/// entry of the same clocks, or else the entry alone.
pub open spec fn installed(log: LogView, e: EntryView) -> LogView {
    if crate::command_log::holds_entry(log, e) {
        log.insert(e.this_clock.index, e)
    } else {
        LogView { head: e.this_clock.index, entries: seq![e] }
    }
}

/// One member of the lane.
pub struct Member {
    pub ballot: Vote,
    /// The node leads the term of its ballot.
    pub leads: bool,
    /// The node asks for votes in the term of its ballot.
    pub campaigns: bool,
    pub log: LogView,
    /// The commit pointer of the node.
    pub commit: Index,
    /// The sealed entry by which the node knows what it takes as committed.
    pub witness: Clock,
}

/// The lane as a whole, with its records.
pub struct Lane {
    pub members: Set<NodeId>,
    pub nodes: Map<NodeId, Member>,
    /// Who voted for whom: `(term, voter)` to candidate.
    pub votes: Map<(Term, NodeId), NodeId>,
    /// Who was elected in which term.
    pub leaders: Map<Term, NodeId>,
    /// By whose votes.
    pub supporters: Map<Term, Set<NodeId>>,
    /// Every entry as it was created, by its clock.
    pub created: Map<Clock, EntryView>,
    /// Who acknowledged which entry: a node acknowledges an entry that it
    /// holds while it is in the term of the entry.
    pub acks: Set<(Clock, NodeId)>,
    /// The clocks of the entries that a majority has acknowledged: these
    /// entries are committed.
    pub sealed: Set<Clock>,
    /// The majority that acknowledged a sealed entry.
    pub holders: Map<Clock, Set<NodeId>>,
    /// The entries that can no longer be sealed, each with the term of a
    /// leader that was elected without the vote of any node that had
    /// acknowledged the entry. An entry that a leader creates after a leader
    /// of a later term was elected is one of them from the start.
    pub killer: Map<Clock, Term>,
}

/// What can happen.
pub enum Step {
    /// A node that has no log and sees no entries anywhere starts the cluster.
    Bootstrap { node: NodeId },
    /// A node enters the next term and votes for itself.
    Campaign { node: NodeId },
    /// A node answers a binding vote request of a member, which names the
    /// end of the log of that member as long as the member campaigns.
    Vote { node: NodeId, req: VoteRequest },
    /// A candidate with the votes of a majority takes office.
    Elect { node: NodeId, supporters: Set<NodeId> },
    /// A node learns of a newer term, or gives up its role in its own.
    Yield { node: NodeId, term: Term },
    /// A leader appends a command.
    Append { node: NodeId, command: Seq<u8> },
    /// A follower takes an entry that the leader of its term offers.
    Replicate { node: NodeId, leader: NodeId, entry: EntryView, snapshot: Index, commit: Index },
    /// A node rewrites an entry of its log into a snapshot entry.
    Rewrite { node: NodeId, index: Index, membership: Seq<NodeId> },
    /// A node drops the front of its log.
    Compact { node: NodeId, before: Index },
    /// A follower takes a snapshot entry that the leader of its term offers.
    Install { node: NodeId, leader: NodeId, entry: EntryView },
    /// A node that is in the term of an entry and holds it acknowledges it.
    Ack { node: NodeId, clock: Clock },
    /// A majority has acknowledged an entry.
    Seal { clock: Clock, holders: Set<NodeId> },
    /// A leader moves its commit pointer to a sealed entry of its term.
    LeaderCommit { node: NodeId, clock: Clock },
    /// A follower moves its commit pointer as far as its leader has moved its
    /// own, within what its log shares with the leader's.
    FollowerCommit { node: NodeId, leader: NodeId, upto: Index },
}

impl Lane {
    pub open spec fn term_of(self, v: NodeId) -> Term {
        self.nodes[v].ballot.cur_term
    }

    /// Whether `e` is an entry that was created, as it was created or
    /// rewritten into a snapshot entry.
    pub open spec fn known(self, e: EntryView) -> bool {
        self.created.contains_key(e.this_clock) && stands_for(e, self.created[e.this_clock])
    }

    /// Whether the step can be taken.
    pub open spec fn enabled(self, step: Step) -> bool {
        match step {
            Step::Bootstrap { node } => {
                &&& self.members.contains(node)
                &&& self.nodes[node].log.is_empty()
                &&& self.created.dom() == Set::<Clock>::empty()
            },
            Step::Campaign { node } => {
                &&& self.members.contains(node)
                &&& !self.nodes[node].leads
                &&& self.term_of(node) < u64::MAX
            },
            Step::Vote { node, req } => {
                &&& self.members.contains(node)
                &&& !req.prevote
                &&& self.members.contains(req.candidate_id)
                &&& req.term <= self.term_of(req.candidate_id)
                &&& (self.nodes[req.candidate_id].campaigns && self.term_of(req.candidate_id)
                    == req.term ==> req.last_clock == last_clock_of(
                    self.nodes[req.candidate_id].log,
                ))
            },
            Step::Elect { node, supporters } => {
                &&& self.members.contains(node)
                &&& self.nodes[node].campaigns
                &&& supporters.subset_of(self.members)
                &&& supporters.len() >= quorum_of(self.members.len())
                &&& forall|v: NodeId|
                    supporters.contains(v) ==> self.votes.contains_key((self.term_of(node), v))
                        && #[trigger] self.votes[(self.term_of(node), v)] == node
            },
            Step::Yield { node, term } => {
                self.members.contains(node) && term >= self.term_of(node)
            },
            Step::Append { node, command } => {
                let log = self.nodes[node].log;
                &&& self.members.contains(node)
                &&& self.nodes[node].leads
                &&& !log.is_empty()
                &&& log.last_index() < u64::MAX
                &&& self.term_of(node) >= log.at(log.last_index()).this_clock.term
                &&& decode_command(command) is Some
            },
            Step::Replicate { node, leader, entry, snapshot, commit } => {
                &&& self.members.contains(node)
                &&& !self.nodes[node].leads
                &&& !self.nodes[node].campaigns
                &&& self.known(entry)
                &&& self.sends(leader, node, entry)
                &&& commit == self.nodes[node].commit
            },
            Step::Rewrite { node, index, membership } => {
                &&& self.members.contains(node)
                &&& self.nodes[node].log.contains(index as int)
                &&& CommandView::Snapshot(membership).valid()
            },
            Step::Compact { node, before } => {
                &&& self.members.contains(node)
                &&& before <= self.nodes[node].log.last_index()
                &&& before <= self.nodes[node].commit
            },
            Step::Install { node, leader, entry } => {
                &&& self.members.contains(node)
                &&& !self.nodes[node].leads
                &&& !self.nodes[node].campaigns
                &&& self.known(entry)
                &&& snapshot_entry_ok(entry)
                &&& self.sends(leader, node, entry)
                &&& entry.this_clock.index > self.nodes[node].log.head_index()
                &&& entry.this_clock.index > self.nodes[node].commit
                &&& entry.this_clock.index <= self.nodes[leader].commit
            },
            Step::Ack { node, clock } => {
                &&& self.members.contains(node)
                &&& clock.term >= 1
                &&& self.created.contains_key(clock)
                &&& self.term_of(node) == clock.term
                &&& self.nodes[node].log.contains(clock.index as int)
                &&& self.nodes[node].log.at(clock.index as int).this_clock == clock
            },
            Step::Seal { clock, holders } => {
                &&& clock.term >= 1
                &&& self.created.contains_key(clock)
                &&& holders.subset_of(self.members)
                &&& holders.len() >= quorum_of(self.members.len())
                &&& forall|h: NodeId| holders.contains(h) ==> #[trigger] self.acks.contains((clock, h))
            },
            Step::LeaderCommit { node, clock } => {
                &&& self.members.contains(node)
                &&& self.nodes[node].leads
                &&& self.sealed.contains(clock)
                &&& clock.term == self.term_of(node)
                &&& clock.index > self.nodes[node].commit
                &&& self.nodes[node].log.contains(clock.index as int)
            },
            Step::FollowerCommit { node, leader, upto } => {
                &&& self.members.contains(node)
                &&& !self.nodes[node].leads
                &&& self.members.contains(leader)
                &&& self.nodes[leader].leads
                &&& self.term_of(leader) == self.term_of(node)
                &&& self.nodes[node].commit < upto <= self.nodes[leader].commit
                &&& self.nodes[node].log.contains(upto as int)
                &&& self.nodes[leader].log.contains(upto as int)
                &&& self.nodes[node].log.at(upto as int).this_clock == self.nodes[leader].log.at(
                    upto as int,
                ).this_clock
            },
        }
    }

    /// Whether a leader of a later term than `term` was elected.
    pub open spec fn outdated(self, term: Term) -> bool {
        exists|t: Term| #[trigger] self.leaders.contains_key(t) && t > term
    }

    /// A later term than `term` in which a leader was elected, if there is one.
    pub open spec fn later_term(self, term: Term) -> Term {
        choose|t: Term| #[trigger] self.leaders.contains_key(t) && t > term
    }

    /// Whether none of `voters` has acknowledged the entry of clock `c`.
    pub open spec fn unacked(self, c: Clock, voters: Set<NodeId>) -> bool {
        forall|x: NodeId| voters.contains(x) ==> !#[trigger] self.acks.contains((c, x))
    }

    /// Whether the election of `node` by `voters` leaves the entry of clock
    /// `c` behind: the entry is of an earlier term and none of the voters has
    /// acknowledged it.
    pub open spec fn missed(self, c: Clock, node: NodeId, voters: Set<NodeId>) -> bool {
        self.created.contains_key(c) && c.term < self.term_of(node) && self.unacked(c, voters)
    }

    /// Whether `leader` leads the term that `node` is in, and `entry` is an
    /// entry of its log.
    pub open spec fn sends(self, leader: NodeId, node: NodeId, entry: EntryView) -> bool {
        &&& self.members.contains(leader)
        &&& self.nodes[leader].leads
        &&& self.term_of(leader) == self.term_of(node)
        &&& self.nodes[leader].log.contains(entry.this_clock.index as int)
        &&& self.nodes[leader].log.at(entry.this_clock.index as int) == entry
    }

    /// The lane after the step.
    pub open spec fn next(self, step: Step) -> Lane {
        match step {
            Step::Bootstrap { node } => {
                let first = EntryView {
                    prev_clock: Clock { term: 0, index: 0 },
                    this_clock: Clock { term: 0, index: 1 },
                    command: encode_command(CommandView::Snapshot(Seq::empty())),
                };
                let second = EntryView {
                    prev_clock: Clock { term: 0, index: 1 },
                    this_clock: Clock { term: 0, index: 2 },
                    command: encode_command(CommandView::ClusterConfiguration(seq![node])),
                };
                Lane {
                    nodes: self.nodes.insert(
                        node,
                        Member {
                            log: LogView { head: 1, entries: seq![first, second] },
                            commit: 1,
                            ..self.nodes[node]
                        },
                    ),
                    created: self.created.insert(first.this_clock, first).insert(
                        second.this_clock,
                        second,
                    ),
                    ..self
                }
            },
            Step::Campaign { node } => {
                let term = (self.term_of(node) + 1) as Term;
                Lane {
                    nodes: self.nodes.insert(
                        node,
                        Member {
                            ballot: Vote { cur_term: term, voted_for: Some(node) },
                            leads: false,
                            campaigns: true,
                            ..self.nodes[node]
                        },
                    ),
                    votes: self.votes.insert((term, node), node),
                    ..self
                }
            },
            Step::Vote { node, req } => {
                let before = self.nodes[node];
                let last = last_clock_of(before.log);
                let ballot = ballot_after_request(before.ballot, req, last);
                let newer = req.term > before.ballot.cur_term;
                Lane {
                    nodes: self.nodes.insert(
                        node,
                        Member {
                            ballot,
                            leads: before.leads && !newer,
                            campaigns: before.campaigns && !newer,
                            ..before
                        },
                    ),
                    votes: if grants(before.ballot, req, last) {
                        self.votes.insert((req.term, node), req.candidate_id)
                    } else {
                        self.votes
                    },
                    ..self
                }
            },
            Step::Elect { node, supporters } => Lane {
                nodes: self.nodes.insert(
                    node,
                    Member { leads: true, campaigns: false, ..self.nodes[node] },
                ),
                leaders: self.leaders.insert(self.term_of(node), node),
                supporters: self.supporters.insert(self.term_of(node), supporters),
                killer: Map::new(
                    |c: Clock| self.killer.contains_key(c) || self.missed(c, node, supporters),
                    |c: Clock|
                        if self.killer.contains_key(c) {
                            self.killer[c]
                        } else {
                            self.term_of(node)
                        },
                ),
                ..self
            },
            Step::Yield { node, term } => Lane {
                nodes: self.nodes.insert(
                    node,
                    Member {
                        ballot: if term > self.term_of(node) {
                            Vote { cur_term: term, voted_for: None }
                        } else {
                            self.nodes[node].ballot
                        },
                        leads: false,
                        campaigns: false,
                        ..self.nodes[node]
                    },
                ),
                ..self
            },
            Step::Append { node, command } => {
                let log = self.nodes[node].log;
                let e = appended_entry(log, self.term_of(node), command);
                Lane {
                    nodes: self.nodes.insert(
                        node,
                        Member { log: log.insert(e.this_clock.index, e), ..self.nodes[node] },
                    ),
                    created: self.created.insert(e.this_clock, e),
                    killer: if self.outdated(self.term_of(node)) {
                        self.killer.insert(e.this_clock, self.later_term(self.term_of(node)))
                    } else {
                        self.killer
                    },
                    ..self
                }
            },
            Step::Replicate { node, leader, entry, snapshot, commit } => Lane {
                nodes: self.nodes.insert(
                    node,
                    Member {
                        log: offered(self.nodes[node].log, snapshot, commit, entry),
                        ..self.nodes[node]
                    },
                ),
                ..self
            },
            Step::Rewrite { node, index, membership } => Lane {
                nodes: self.nodes.insert(
                    node,
                    Member {
                        log: rewritten(
                            self.nodes[node].log,
                            index,
                            encode_command(CommandView::Snapshot(membership)),
                        ),
                        ..self.nodes[node]
                    },
                ),
                ..self
            },
            Step::Compact { node, before } => Lane {
                nodes: self.nodes.insert(
                    node,
                    Member { log: self.nodes[node].log.delete_before(before), ..self.nodes[node] },
                ),
                ..self
            },
            Step::Install { node, leader, entry } => Lane {
                nodes: self.nodes.insert(
                    node,
                    Member {
                        log: installed(self.nodes[node].log, entry),
                        commit: entry.this_clock.index,
                        witness: self.nodes[leader].witness,
                        ..self.nodes[node]
                    },
                ),
                ..self
            },
            Step::Ack { node, clock } => Lane { acks: self.acks.insert((clock, node)), ..self },
            Step::Seal { clock, holders } => Lane {
                sealed: self.sealed.insert(clock),
                holders: self.holders.insert(clock, holders),
                ..self
            },
            Step::LeaderCommit { node, clock } => Lane {
                nodes: self.nodes.insert(
                    node,
                    Member { commit: clock.index, witness: clock, ..self.nodes[node] },
                ),
                ..self
            },
            Step::FollowerCommit { node, leader, upto } => Lane {
                nodes: self.nodes.insert(
                    node,
                    Member {
                        commit: upto,
                        witness: self.nodes[leader].witness,
                        ..self.nodes[node]
                    },
                ),
                ..self
            },
        }
    }

    /// Every member has a state and its log is in order.
    pub open spec fn inv_nodes(self) -> bool {
        &&& self.members.finite()
        &&& forall|v: NodeId|
            self.members.contains(v) ==> self.nodes.contains_key(v) && log_ok(
                (#[trigger] self.nodes[v]).log,
            )
    }

    /// A recorded vote is a vote of a member, and the voter's ballot has not
    /// gone back behind it.
    pub open spec fn inv_votes(self) -> bool {
        forall|t: Term, v: NodeId|
            #[trigger] self.votes.contains_key((t, v)) ==> {
                &&& self.members.contains(v)
                &&& self.term_of(v) >= t
                &&& (self.term_of(v) == t ==> self.nodes[v].ballot.voted_for == Some(
                    self.votes[(t, v)],
                ))
            }
    }

    /// A recorded leader was elected by a majority, and its ballot has not
    /// gone back behind its election.
    pub open spec fn inv_leaders(self) -> bool {
        &&& forall|t: Term|
            #[trigger] self.leaders.contains_key(t) ==> {
                &&& t >= 1
                &&& self.supporters.contains_key(t)
                &&& self.supporters[t].subset_of(self.members)
                &&& self.supporters[t].len() >= quorum_of(self.members.len())
                &&& self.members.contains(self.leaders[t])
                &&& self.term_of(self.leaders[t]) >= t
            }
        &&& forall|t: Term, v: NodeId|
            self.leaders.contains_key(t) && #[trigger] self.supporters[t].contains(v)
                ==> self.votes.contains_key((t, v)) && self.votes[(t, v)] == self.leaders[t]
    }

    /// A node that leads was elected in the term of its ballot; a node that
    /// campaigns was not; either voted for itself.
    pub open spec fn inv_roles(self) -> bool {
        forall|v: NodeId|
            self.members.contains(v) ==> {
                let n = #[trigger] self.nodes[v];
                &&& (n.leads ==> self.leaders.contains_key(n.ballot.cur_term)
                    && self.leaders[n.ballot.cur_term] == v && !n.campaigns)
                &&& (n.campaigns ==> !(self.leaders.contains_key(n.ballot.cur_term)
                    && self.leaders[n.ballot.cur_term] == v))
                &&& (n.leads || n.campaigns ==> n.ballot.voted_for == Some(v) && n.ballot.cur_term
                    >= 1)
            }
    }

    /// An entry of a term above 0 was created under a leader of that term, and
    /// lies within the log of that leader while it leads.
    pub open spec fn inv_created(self) -> bool {
        &&& forall|c: Clock|
            #[trigger] self.created.contains_key(c) ==> {
                &&& self.created[c].this_clock == c
                &&& (c.term == 0 || self.leaders.contains_key(c.term))
            }
        &&& forall|c: Clock, v: NodeId|
            #[trigger] self.created.contains_key(c) && self.members.contains(v) && (
            #[trigger] self.nodes[v]).leads && self.nodes[v].ballot.cur_term == c.term
                ==> c.index <= self.nodes[v].log.last_index()
    }

    /// Every entry of every log stands for an entry that was created.
    pub open spec fn inv_logs(self) -> bool {
        forall|v: NodeId, i: int|
            self.members.contains(v) && #[trigger] self.nodes[v].log.contains(i) ==> self.known(
                self.nodes[v].log.at(i),
            )
    }

    /// What holds of a lane at all times.
    pub open spec fn inv(self) -> bool {
        &&& self.inv_nodes()
        &&& self.inv_votes()
        &&& self.inv_leaders()
        &&& self.inv_roles()
        &&& self.inv_created()
        &&& self.inv_logs()
    }

    /// The lane before anything happened: every member is a follower of term
    /// 0 with an empty log.
    pub open spec fn initial(self) -> bool {
        &&& self.members.finite()
        &&& forall|v: NodeId|
            self.members.contains(v) ==> self.nodes.contains_key(v) && #[trigger] self.nodes[v]
                == (Member {
                ballot: Vote { cur_term: 0, voted_for: None },
                leads: false,
                campaigns: false,
                log: LogView { head: 0, entries: Seq::empty() },
                commit: 0,
                witness: Clock { term: 0, index: 0 },
            })
        &&& self.votes == Map::<(Term, NodeId), NodeId>::empty()
        &&& self.leaders == Map::<Term, NodeId>::empty()
        &&& self.supporters == Map::<Term, Set<NodeId>>::empty()
        &&& self.created == Map::<Clock, EntryView>::empty()
        &&& self.acks == Set::<(Clock, NodeId)>::empty()
        &&& self.sealed == Set::<Clock>::empty()
        &&& self.holders == Map::<Clock, Set<NodeId>>::empty()
        &&& self.killer == Map::<Clock, Term>::empty()
    }
}

/// The invariant holds before anything happened.
pub proof fn lemma_initial_lane(s: Lane)
    requires
        s.initial(),
    ensures
        s.inv(),
{
}

/// A node that yields keeps the lane in order.
pub proof fn lemma_yield(s: Lane, node: NodeId, term: Term)
    requires
        s.inv(),
        s.enabled(Step::Yield { node, term }),
    ensures
        s.next(Step::Yield { node, term }).inv(),
{
    let n = s.next(Step::Yield { node, term });
    assert(n.inv_votes()) by {
        assert forall|t: Term, v: NodeId| #[trigger] n.votes.contains_key((t, v)) implies {
            &&& n.members.contains(v)
            &&& n.term_of(v) >= t
            &&& (n.term_of(v) == t ==> n.nodes[v].ballot.voted_for == Some(n.votes[(t, v)]))
        } by {
            assert(s.votes.contains_key((t, v)));
        }
    }
    assert(n.inv_leaders()) by {
        assert forall|t: Term| #[trigger] n.leaders.contains_key(t) implies n.term_of(
            n.leaders[t],
        ) >= t by {
            assert(s.leaders.contains_key(t));
        }
    }
    lemma_roles_frame(s, n, node);
    lemma_logs_frame(s, n, node);
}

/// The roles of the lane are in order after a step that changed one node
/// only, left the records of elections alone, and left that node with no role
/// or with the role and ballot it had.
proof fn lemma_roles_frame(s: Lane, n: Lane, node: NodeId)
    requires
        s.inv(),
        n.members == s.members,
        n.leaders == s.leaders,
        n.nodes == s.nodes.insert(node, n.nodes[node]),
        s.members.contains(node),
        (!n.nodes[node].leads && !n.nodes[node].campaigns) || (n.nodes[node].ballot
            == s.nodes[node].ballot && n.nodes[node].leads == s.nodes[node].leads
            && n.nodes[node].campaigns == s.nodes[node].campaigns),
    ensures
        n.inv_roles(),
{
    assert forall|v: NodeId| n.members.contains(v) implies {
        let m = #[trigger] n.nodes[v];
        &&& (m.leads ==> n.leaders.contains_key(m.ballot.cur_term)
            && n.leaders[m.ballot.cur_term] == v && !m.campaigns)
        &&& (m.campaigns ==> !(n.leaders.contains_key(m.ballot.cur_term)
            && n.leaders[m.ballot.cur_term] == v))
        &&& (m.leads || m.campaigns ==> m.ballot.voted_for == Some(v) && m.ballot.cur_term >= 1)
    } by {
        assert(s.nodes.contains_key(v));
        let old = s.nodes[v];
        if v != node {
            assert(n.nodes[v] == old);
        }
    }
}

/// The logs and the record of created entries are in order after a step that
/// changed one node only, without touching its log or the record, and did not
/// make it a leader.
proof fn lemma_logs_frame(s: Lane, n: Lane, node: NodeId)
    requires
        s.inv(),
        n.members == s.members,
        n.leaders == s.leaders,
        n.created == s.created,
        n.nodes == s.nodes.insert(node, n.nodes[node]),
        s.members.contains(node),
        n.nodes[node].log == s.nodes[node].log,
        n.nodes[node].leads ==> s.nodes[node].leads && n.nodes[node].ballot.cur_term
            == s.nodes[node].ballot.cur_term,
    ensures
        n.inv_nodes(),
        n.inv_created(),
        n.inv_logs(),
{
    assert forall|v: NodeId| n.members.contains(v) implies n.nodes.contains_key(v) && log_ok(
        (#[trigger] n.nodes[v]).log,
    ) by {
        assert(s.nodes.contains_key(v) && log_ok(s.nodes[v].log));
    }
    assert forall|c: Clock, v: NodeId|
        #[trigger] n.created.contains_key(c) && n.members.contains(v) && (
        #[trigger] n.nodes[v]).leads && n.nodes[v].ballot.cur_term
            == c.term implies c.index <= n.nodes[v].log.last_index() by {
        assert(s.nodes.contains_key(v));
        assert(s.created.contains_key(c) && s.nodes[v].leads);
    }
    assert forall|v: NodeId, i: int|
        n.members.contains(v) && #[trigger] n.nodes[v].log.contains(i) implies n.known(
        n.nodes[v].log.at(i),
    ) by {
        assert(s.nodes.contains_key(v));
        assert(s.nodes[v].log.contains(i));
    }
}

/// A node that opens a campaign keeps the lane in order.
pub proof fn lemma_campaign(s: Lane, node: NodeId)
    requires
        s.inv(),
        s.enabled(Step::Campaign { node }),
    ensures
        s.next(Step::Campaign { node }).inv(),
{
    let n = s.next(Step::Campaign { node });
    let term = (s.term_of(node) + 1) as Term;
    assert(!s.votes.contains_key((term, node)));
    assert(n.inv_votes()) by {
        assert forall|t: Term, v: NodeId| #[trigger] n.votes.contains_key((t, v)) implies {
            &&& n.members.contains(v)
            &&& n.term_of(v) >= t
            &&& (n.term_of(v) == t ==> n.nodes[v].ballot.voted_for == Some(n.votes[(t, v)]))
        } by {
            if (t, v) != (term, node) {
                assert(s.votes.contains_key((t, v)));
            }
        }
    }
    assert(n.inv_leaders()) by {
        assert forall|t: Term| #[trigger] n.leaders.contains_key(t) implies n.term_of(
            n.leaders[t],
        ) >= t by {
            assert(s.leaders.contains_key(t));
        }
        assert forall|t: Term, v: NodeId|
            n.leaders.contains_key(t) && #[trigger] n.supporters[t].contains(
                v,
            ) implies n.votes.contains_key((t, v)) && n.votes[(t, v)] == n.leaders[t] by {
            assert(s.supporters[t].contains(v));
        }
    }
    assert(n.inv_roles()) by {
        assert forall|v: NodeId| n.members.contains(v) implies {
            let m = #[trigger] n.nodes[v];
            &&& (m.leads ==> n.leaders.contains_key(m.ballot.cur_term)
                && n.leaders[m.ballot.cur_term] == v && !m.campaigns)
            &&& (m.campaigns ==> !(n.leaders.contains_key(m.ballot.cur_term)
                && n.leaders[m.ballot.cur_term] == v))
            &&& (m.leads || m.campaigns ==> m.ballot.voted_for == Some(v) && m.ballot.cur_term
                >= 1)
        } by {
            assert(s.nodes.contains_key(v));
            if v != node {
                assert(n.nodes[v] == s.nodes[v]);
            } else if s.leaders.contains_key(term) && s.leaders[term] == node {
                assert(s.term_of(s.leaders[term]) >= term);
            }
        }
    }
    lemma_logs_frame(s, n, node);
}

/// A node that answers a vote request keeps the lane in order.
pub proof fn lemma_vote(s: Lane, node: NodeId, req: VoteRequest)
    requires
        s.inv(),
        s.enabled(Step::Vote { node, req }),
    ensures
        s.next(Step::Vote { node, req }).inv(),
{
    let n = s.next(Step::Vote { node, req });
    let before = s.nodes[node];
    let last = last_clock_of(before.log);
    let granted = grants(before.ballot, req, last);
    let key = (req.term, node);
    // a vote that was recorded is not overwritten by another
    if granted && s.votes.contains_key(key) {
        assert(s.term_of(node) >= req.term);
        assert(s.votes[key] == req.candidate_id);
    }
    assert(n.inv_votes()) by {
        assert forall|t: Term, v: NodeId| #[trigger] n.votes.contains_key((t, v)) implies {
            &&& n.members.contains(v)
            &&& n.term_of(v) >= t
            &&& (n.term_of(v) == t ==> n.nodes[v].ballot.voted_for == Some(n.votes[(t, v)]))
        } by {
            if (t, v) != key || !granted {
                assert(s.votes.contains_key((t, v)));
            }
        }
    }
    assert(n.inv_leaders()) by {
        assert forall|t: Term| #[trigger] n.leaders.contains_key(t) implies n.term_of(
            n.leaders[t],
        ) >= t by {
            assert(s.leaders.contains_key(t));
        }
        assert forall|t: Term, v: NodeId|
            n.leaders.contains_key(t) && #[trigger] n.supporters[t].contains(
                v,
            ) implies n.votes.contains_key((t, v)) && n.votes[(t, v)] == n.leaders[t] by {
            assert(s.supporters[t].contains(v));
        }
    }
    // a node with a role votes for nobody but itself in its own term
    if (before.leads || before.campaigns) && req.term <= before.ballot.cur_term {
        assert(before.ballot.voted_for == Some(node));
        assert(n.nodes[node].ballot == before.ballot);
    }
    lemma_roles_frame(s, n, node);
    lemma_logs_frame(s, n, node);
}

/// A candidate that takes office keeps the lane in order, and no other node
/// was elected in its term before.
pub proof fn lemma_elect(s: Lane, node: NodeId, supporters: Set<NodeId>)
    requires
        s.inv(),
        s.enabled(Step::Elect { node, supporters }),
    ensures
        s.next(Step::Elect { node, supporters }).inv(),
        !s.leaders.contains_key(s.term_of(node)),
{
    let n = s.next(Step::Elect { node, supporters });
    let term = s.term_of(node);
    if s.leaders.contains_key(term) {
        let v = lemma_majorities_intersect(s.members, s.members, supporters, s.supporters[term]);
        assert(s.votes[(term, v)] == node);
        assert(s.supporters[term].contains(v));
        assert(s.leaders[term] == node);
        assert(false);
    }
    assert(n.inv_votes()) by {
        assert forall|t: Term, v: NodeId| #[trigger] n.votes.contains_key((t, v)) implies {
            &&& n.members.contains(v)
            &&& n.term_of(v) >= t
            &&& (n.term_of(v) == t ==> n.nodes[v].ballot.voted_for == Some(n.votes[(t, v)]))
        } by {
            assert(s.votes.contains_key((t, v)));
        }
    }
    assert(n.inv_leaders()) by {
        assert forall|t: Term| #[trigger] n.leaders.contains_key(t) implies {
            &&& t >= 1
            &&& n.supporters.contains_key(t)
            &&& n.supporters[t].subset_of(n.members)
            &&& n.supporters[t].len() >= quorum_of(n.members.len())
            &&& n.members.contains(n.leaders[t])
            &&& n.term_of(n.leaders[t]) >= t
        } by {
            if t != term {
                assert(s.leaders.contains_key(t));
            }
        }
        assert forall|t: Term, v: NodeId|
            n.leaders.contains_key(t) && #[trigger] n.supporters[t].contains(
                v,
            ) implies n.votes.contains_key((t, v)) && n.votes[(t, v)] == n.leaders[t] by {
            if t != term {
                assert(s.supporters[t].contains(v));
            } else {
                assert(supporters.contains(v));
                assert(s.votes[(term, v)] == node);
            }
        }
    }
    assert(n.inv_roles()) by {
        assert forall|v: NodeId| n.members.contains(v) implies {
            let m = #[trigger] n.nodes[v];
            &&& (m.leads ==> n.leaders.contains_key(m.ballot.cur_term)
                && n.leaders[m.ballot.cur_term] == v && !m.campaigns)
            &&& (m.campaigns ==> !(n.leaders.contains_key(m.ballot.cur_term)
                && n.leaders[m.ballot.cur_term] == v))
            &&& (m.leads || m.campaigns ==> m.ballot.voted_for == Some(v) && m.ballot.cur_term
                >= 1)
        } by {
            assert(s.nodes.contains_key(v));
            if v != node {
                assert(n.nodes[v] == s.nodes[v]);
            }
        }
    }
    assert(n.inv_nodes()) by {
        assert forall|v: NodeId| n.members.contains(v) implies n.nodes.contains_key(v) && log_ok(
            (#[trigger] n.nodes[v]).log,
        ) by {
            assert(s.nodes.contains_key(v) && log_ok(s.nodes[v].log));
        }
    }
    assert(n.inv_created()) by {
        assert forall|c: Clock| #[trigger] n.created.contains_key(c) implies {
            &&& n.created[c].this_clock == c
            &&& (c.term == 0 || n.leaders.contains_key(c.term))
        } by {
            assert(s.created.contains_key(c));
        }
        assert forall|c: Clock, v: NodeId|
            #[trigger] n.created.contains_key(c) && n.members.contains(v) && (
            #[trigger] n.nodes[v]).leads && n.nodes[v].ballot.cur_term
                == c.term implies c.index <= n.nodes[v].log.last_index() by {
            assert(s.nodes.contains_key(v));
            assert(s.created.contains_key(c));
            if v != node {
                assert(s.nodes[v].leads);
            }
        }
    }
    assert(n.inv_logs()) by {
        assert forall|v: NodeId, i: int|
            n.members.contains(v) && #[trigger] n.nodes[v].log.contains(i) implies n.known(
            n.nodes[v].log.at(i),
        ) by {
            assert(s.nodes.contains_key(v));
            assert(s.nodes[v].log.contains(i));
        }
    }
}

/// Votes, elections and roles are in order after a step that changed the log
/// of one node only.
proof fn lemma_ballots_frame(s: Lane, n: Lane, node: NodeId)
    requires
        s.inv(),
        n.members == s.members,
        n.votes == s.votes,
        n.leaders == s.leaders,
        n.supporters == s.supporters,
        n.nodes == s.nodes.insert(node, n.nodes[node]),
        s.members.contains(node),
        n.nodes[node] == (Member {
            log: n.nodes[node].log,
            commit: n.nodes[node].commit,
            witness: n.nodes[node].witness,
            ..s.nodes[node]
        }),
    ensures
        n.inv_votes(),
        n.inv_leaders(),
        n.inv_roles(),
{
    assert forall|t: Term, v: NodeId| #[trigger] n.votes.contains_key((t, v)) implies {
        &&& n.members.contains(v)
        &&& n.term_of(v) >= t
        &&& (n.term_of(v) == t ==> n.nodes[v].ballot.voted_for == Some(n.votes[(t, v)]))
    } by {
        assert(s.votes.contains_key((t, v)));
    }
    assert forall|t: Term| #[trigger] n.leaders.contains_key(t) implies n.term_of(n.leaders[t])
        >= t by {
        assert(s.leaders.contains_key(t));
    }
    assert forall|t: Term, v: NodeId|
        n.leaders.contains_key(t) && #[trigger] n.supporters[t].contains(
            v,
        ) implies n.votes.contains_key((t, v)) && n.votes[(t, v)] == n.leaders[t] by {
        assert(s.supporters[t].contains(v));
    }
    lemma_roles_frame(s, n, node);
}

/// The logs and the record of created entries are in order after a step that
/// gave one node a log in order whose entries are all known and whose end is
/// where it was or further on, and that created at most entries of terms
/// whose leader is that node.
proof fn lemma_log_step(s: Lane, n: Lane, node: NodeId)
    requires
        s.inv(),
        n.members == s.members,
        n.leaders == s.leaders,
        n.nodes == s.nodes.insert(node, n.nodes[node]),
        s.members.contains(node),
        n.nodes[node] == (Member {
            log: n.nodes[node].log,
            commit: n.nodes[node].commit,
            witness: n.nodes[node].witness,
            ..s.nodes[node]
        }),
        log_ok(n.nodes[node].log),
        forall|i: int| #[trigger] n.nodes[node].log.contains(i)
            ==> n.known(n.nodes[node].log.at(i)),
        s.nodes[node].leads ==> n.nodes[node].log.last_index() >= s.nodes[node].log.last_index(),
        forall|c: Clock| #[trigger] s.created.contains_key(c)
            ==> n.created.contains_key(c) && n.created[c] == s.created[c],
        forall|c: Clock|
            #[trigger] n.created.contains_key(c) && !s.created.contains_key(c) ==> {
                &&& n.created[c].this_clock == c
                &&& (c.term == 0 || (s.nodes[node].leads && c.term == s.term_of(node)))
                &&& (s.nodes[node].leads ==> c.index <= n.nodes[node].log.last_index())
            },
    ensures
        n.inv_nodes(),
        n.inv_created(),
        n.inv_logs(),
{
    assert forall|v: NodeId| n.members.contains(v) implies n.nodes.contains_key(v) && log_ok(
        (#[trigger] n.nodes[v]).log,
    ) by {
        assert(s.nodes.contains_key(v) && log_ok(s.nodes[v].log));
    }
    assert forall|c: Clock| #[trigger] n.created.contains_key(c) implies {
        &&& n.created[c].this_clock == c
        &&& (c.term == 0 || n.leaders.contains_key(c.term))
    } by {
        if s.created.contains_key(c) {
        } else {
            assert(s.nodes.contains_key(node));
        }
    }
    assert forall|c: Clock, v: NodeId|
        #[trigger] n.created.contains_key(c) && n.members.contains(v) && (
        #[trigger] n.nodes[v]).leads && n.nodes[v].ballot.cur_term
            == c.term implies c.index <= n.nodes[v].log.last_index() by {
        assert(s.nodes.contains_key(v));
        assert(s.nodes.contains_key(node));
        if s.created.contains_key(c) {
            assert(s.nodes[v].leads);
        } else {
            // a leader of term 0 does not exist; two leaders of one term are one
            assert(s.nodes[v].leads);
            assert(s.nodes[v].ballot.cur_term >= 1);
            assert(s.leaders[c.term] == v);
            assert(v == node);
        }
    }
    assert forall|v: NodeId, i: int|
        n.members.contains(v) && #[trigger] n.nodes[v].log.contains(i) implies n.known(
        n.nodes[v].log.at(i),
    ) by {
        assert(s.nodes.contains_key(v));
        if v != node {
            assert(s.nodes[v].log.contains(i));
            assert(s.known(s.nodes[v].log.at(i)));
        }
    }
}

/// A leader that appends keeps the lane in order, and the entry it creates
/// has a clock that no entry had before.
pub proof fn lemma_append(s: Lane, node: NodeId, command: Seq<u8>)
    requires
        s.inv(),
        s.enabled(Step::Append { node, command }),
    ensures
        s.next(Step::Append { node, command }).inv(),
        !s.created.contains_key(
            appended_entry(s.nodes[node].log, s.term_of(node), command).this_clock,
        ),
{
    let step = Step::Append { node, command };
    let n = s.next(step);
    let log = s.nodes[node].log;
    let e = appended_entry(log, s.term_of(node), command);
    assert(s.nodes.contains_key(node));
    if s.created.contains_key(e.this_clock) {
        assert(e.this_clock.index <= log.last_index());
        assert(false);
    }
    lemma_append_keeps_order(log, s.term_of(node), command);
    lemma_ballots_frame(s, n, node);
    let after = n.nodes[node].log;
    assert(after.entries =~= log.entries.push(e));
    assert forall|i: int| #[trigger] after.contains(i) implies n.known(after.at(i)) by {
        if i <= log.last_index() {
            assert(log.contains(i));
            assert(s.known(log.at(i)));
            assert(after.at(i) == log.at(i));
        }
    }
    lemma_log_step(s, n, node);
}

/// A node that takes an offered entry keeps the lane in order.
pub proof fn lemma_replicate(
    s: Lane,
    node: NodeId,
    leader: NodeId,
    entry: EntryView,
    snapshot: Index,
    commit: Index,
)
    requires
        s.inv(),
        s.enabled(Step::Replicate { node, leader, entry, snapshot, commit }),
    ensures
        s.next(Step::Replicate { node, leader, entry, snapshot, commit }).inv(),
{
    let n = s.next(Step::Replicate { node, leader, entry, snapshot, commit });
    let log = s.nodes[node].log;
    assert(s.nodes.contains_key(node));
    lemma_offer_keeps_order(log, snapshot, commit, entry);
    lemma_ballots_frame(s, n, node);
    let after = n.nodes[node].log;
    assert forall|i: int| #[trigger] after.contains(i) implies n.known(after.at(i)) by {
        if after == log {
            assert(s.known(log.at(i)));
        } else if i < entry.this_clock.index {
            assert(log.contains(i));
            assert(s.known(log.at(i)));
        }
    }
    lemma_log_step(s, n, node);
}

/// A node that rewrites an entry into a snapshot entry keeps the lane in order.
pub proof fn lemma_rewrite(s: Lane, node: NodeId, index: Index, membership: Seq<NodeId>)
    requires
        s.inv(),
        s.enabled(Step::Rewrite { node, index, membership }),
    ensures
        s.next(Step::Rewrite { node, index, membership }).inv(),
{
    let n = s.next(Step::Rewrite { node, index, membership });
    let log = s.nodes[node].log;
    let command = encode_command(CommandView::Snapshot(membership));
    assert(s.nodes.contains_key(node));
    crate::command::lemma_decode_encode_command(CommandView::Snapshot(membership));
    lemma_rewrite_keeps_order(log, index, command);
    lemma_ballots_frame(s, n, node);
    let after = n.nodes[node].log;
    assert forall|i: int| #[trigger] after.contains(i) implies n.known(after.at(i)) by {
        assert(log.contains(i));
        assert(s.known(log.at(i)));
        if i == index {
            assert(is_snapshot(after.at(i)));
        }
    }
    lemma_log_step(s, n, node);
}

/// A node that drops the front of its log keeps the lane in order.
pub proof fn lemma_compact(s: Lane, node: NodeId, before: Index)
    requires
        s.inv(),
        s.enabled(Step::Compact { node, before }),
    ensures
        s.next(Step::Compact { node, before }).inv(),
{
    let n = s.next(Step::Compact { node, before });
    let log = s.nodes[node].log;
    assert(s.nodes.contains_key(node));
    lemma_compact_keeps_order(log, before);
    lemma_ballots_frame(s, n, node);
    let after = n.nodes[node].log;
    assert forall|i: int| #[trigger] after.contains(i) implies n.known(after.at(i)) by {
        assert(log.contains(i));
        assert(s.known(log.at(i)));
    }
    lemma_log_step(s, n, node);
}

/// A follower that takes a snapshot entry keeps the lane in order.
pub proof fn lemma_install(s: Lane, node: NodeId, leader: NodeId, entry: EntryView)
    requires
        s.inv(),
        s.enabled(Step::Install { node, leader, entry }),
    ensures
        s.next(Step::Install { node, leader, entry }).inv(),
{
    let n = s.next(Step::Install { node, leader, entry });
    let log = s.nodes[node].log;
    assert(s.nodes.contains_key(node));
    lemma_ballots_frame(s, n, node);
    let after = n.nodes[node].log;
    if crate::command_log::holds_entry(log, entry) {
        assert(after.entries =~= log.entries.update(entry.this_clock.index - log.head, entry));
        assert forall|i: int| #[trigger] after.contains(i) implies entry_ok(after, i) by {
            assert(log.contains(i));
            assert(entry_ok(log, i));
        }
        assert forall|i: int| #[trigger] after.contains(i) implies n.known(after.at(i)) by {
            assert(log.contains(i));
            assert(s.known(log.at(i)));
        }
    } else {
        assert forall|i: int| #[trigger] after.contains(i) implies entry_ok(after, i) by {
            assert(i == entry.this_clock.index);
        }
        assert forall|i: int| #[trigger] after.contains(i) implies n.known(after.at(i)) by {
            assert(i == entry.this_clock.index);
        }
    }
    lemma_log_step(s, n, node);
}

/// An acknowledgement keeps the lane in order.
pub proof fn lemma_ack(s: Lane, node: NodeId, clock: Clock)
    requires
        s.inv(),
        s.enabled(Step::Ack { node, clock }),
    ensures
        s.next(Step::Ack { node, clock }).inv(),
{
    let n = s.next(Step::Ack { node, clock });
    assert(n.nodes == s.nodes);
    assert(n.votes == s.votes);
    assert(n.leaders == s.leaders);
    assert(n.supporters == s.supporters);
    assert(n.created == s.created);
}

/// Taking note that a majority has acknowledged an entry keeps the lane in order.
pub proof fn lemma_seal(s: Lane, clock: Clock, holders: Set<NodeId>)
    requires
        s.inv(),
        s.enabled(Step::Seal { clock, holders }),
    ensures
        s.next(Step::Seal { clock, holders }).inv(),
{
    let n = s.next(Step::Seal { clock, holders });
    assert(n.nodes == s.nodes);
    assert(n.votes == s.votes);
    assert(n.leaders == s.leaders);
    assert(n.supporters == s.supporters);
    assert(n.created == s.created);
}

/// A node that starts the cluster keeps the lane in order.
pub proof fn lemma_bootstrap(s: Lane, node: NodeId)
    requires
        s.inv(),
        s.enabled(Step::Bootstrap { node }),
    ensures
        s.next(Step::Bootstrap { node }).inv(),
{
    let n = s.next(Step::Bootstrap { node });
    assert(s.nodes.contains_key(node));
    crate::command::lemma_decode_encode_command(CommandView::Snapshot(Seq::empty()));
    crate::command::lemma_decode_encode_command(CommandView::ClusterConfiguration(seq![node]));
    lemma_ballots_frame(s, n, node);
    let after = n.nodes[node].log;
    assert(after.entries.len() == 2);
    assert forall|i: int| #[trigger] after.contains(i) implies entry_ok(after, i) by {
        assert(i == 1 || i == 2);
    }
    assert forall|i: int| #[trigger] after.contains(i) implies n.known(after.at(i)) by {
        assert(i == 1 || i == 2);
    }
    assert forall|c: Clock| #[trigger] s.created.contains_key(c) implies false by {
        assert(s.created.dom().contains(c));
    }
    lemma_log_step(s, n, node);
}

/// A node that moves its commit pointer keeps the lane in order.
pub proof fn lemma_commit(s: Lane, step: Step, node: NodeId)
    requires
        s.inv(),
        s.enabled(step),
        step is LeaderCommit || step is FollowerCommit,
        step matches Step::LeaderCommit { node: n, .. } ==> n == node,
        step matches Step::FollowerCommit { node: n, .. } ==> n == node,
    ensures
        s.next(step).inv(),
{
    let n = s.next(step);
    assert(s.nodes.contains_key(node));
    lemma_ballots_frame(s, n, node);
    let log = s.nodes[node].log;
    assert forall|i: int| #[trigger] n.nodes[node].log.contains(i) implies n.known(
        n.nodes[node].log.at(i),
    ) by {
        assert(log.contains(i));
        assert(s.known(log.at(i)));
    }
    lemma_log_step(s, n, node);
}

/// Every step that can be taken keeps the lane in order.
pub proof fn lemma_step_keeps_invariant(s: Lane, step: Step)
    requires
        s.inv(),
        s.enabled(step),
    ensures
        s.next(step).inv(),
{
    match step {
        Step::Bootstrap { node } => lemma_bootstrap(s, node),
        Step::Campaign { node } => lemma_campaign(s, node),
        Step::Vote { node, req } => lemma_vote(s, node, req),
        Step::Elect { node, supporters } => lemma_elect(s, node, supporters),
        Step::Yield { node, term } => lemma_yield(s, node, term),
        Step::Append { node, command } => lemma_append(s, node, command),
        Step::Replicate { node, leader, entry, snapshot, commit } => lemma_replicate(
            s,
            node,
            leader,
            entry,
            snapshot,
            commit,
        ),
        Step::Rewrite { node, index, membership } => lemma_rewrite(s, node, index, membership),
        Step::Compact { node, before } => lemma_compact(s, node, before),
        Step::Install { node, leader, entry } => lemma_install(s, node, leader, entry),
        Step::Ack { node, clock } => lemma_ack(s, node, clock),
        Step::Seal { clock, holders } => lemma_seal(s, clock, holders),
        Step::LeaderCommit { node, clock } => lemma_commit(s, step, node),
        Step::FollowerCommit { node, leader, upto } => lemma_commit(s, step, node),
    }
}

/// Whether state `k + 1` of a run follows from state `k` by step `k`, which
/// can be taken.
pub open spec fn follows(states: Seq<Lane>, steps: Seq<Step>, k: int) -> bool {
    states[k].enabled(steps[k]) && states[k + 1] == states[k].next(steps[k])
}

/// A run of the lane: it starts before anything happened, and each state
/// follows from the one before it by a step that can be taken.
pub open spec fn is_run(states: Seq<Lane>, steps: Seq<Step>) -> bool {
    &&& states.len() == steps.len() + 1
    &&& states[0].initial()
    &&& forall|k: int| 0 <= k < steps.len() ==> #[trigger] follows(states, steps, k)
}

/// The invariant holds in every state of every run.
pub proof fn lemma_run_keeps_invariant(states: Seq<Lane>, steps: Seq<Step>, k: int)
    requires
        is_run(states, steps),
        0 <= k < states.len(),
    ensures
        states[k].inv(),
    decreases k,
{
    if k == 0 {
        lemma_initial_lane(states[0]);
    } else {
        lemma_run_keeps_invariant(states, steps, k - 1);
        assert(follows(states, steps, k - 1));
        lemma_step_keeps_invariant(states[k - 1], steps[k - 1]);
    }
}

/// Election safety: in every state of every run, two members that lead the
/// same term are the same member.
pub proof fn theorem_one_leader_per_term(
    states: Seq<Lane>,
    steps: Seq<Step>,
    k: int,
    a: NodeId,
    b: NodeId,
)
    requires
        is_run(states, steps),
        0 <= k < states.len(),
        states[k].members.contains(a),
        states[k].members.contains(b),
        states[k].nodes[a].leads,
        states[k].nodes[b].leads,
        states[k].term_of(a) == states[k].term_of(b),
    ensures
        a == b,
{
    lemma_run_keeps_invariant(states, steps, k);
    let s = states[k];
    assert(s.leaders[s.nodes[a].ballot.cur_term] == a);
    assert(s.leaders[s.nodes[b].ballot.cur_term] == b);
}

/// A step leaves every recorded election as it is.
pub proof fn lemma_step_keeps_leaders(s: Lane, step: Step, t: Term)
    requires
        s.inv(),
        s.enabled(step),
        s.leaders.contains_key(t),
    ensures
        s.next(step).leaders.contains_key(t),
        s.next(step).leaders[t] == s.leaders[t],
{
    match step {
        Step::Elect { node, supporters } => {
            lemma_elect(s, node, supporters);
            assert(s.next(step).leaders == s.leaders.insert(s.term_of(node), node));
        },
        Step::Bootstrap { node } => {
            assert(s.next(step).leaders == s.leaders);
        },
        Step::Campaign { node } => {
            assert(s.next(step).leaders == s.leaders);
        },
        Step::Vote { node, req } => {
            assert(s.next(step).leaders == s.leaders);
        },
        Step::Yield { node, term } => {
            assert(s.next(step).leaders == s.leaders);
        },
        Step::Append { node, command } => {
            assert(s.next(step).leaders == s.leaders);
        },
        Step::Replicate { node, leader, entry, snapshot, commit } => {
            assert(s.next(step).leaders == s.leaders);
        },
        Step::Rewrite { node, index, membership } => {
            assert(s.next(step).leaders == s.leaders);
        },
        Step::Compact { node, before } => {
            assert(s.next(step).leaders == s.leaders);
        },
        Step::Install { node, leader, entry } => {
            assert(s.next(step).leaders == s.leaders);
        },
        Step::Ack { node, clock } => {
            assert(s.next(step).leaders == s.leaders);
        },
        Step::Seal { clock, holders } => {
            assert(s.next(step).leaders == s.leaders);
        },
        Step::LeaderCommit { node, clock } => {
            assert(s.next(step).leaders == s.leaders);
        },
        Step::FollowerCommit { node, leader, upto } => {
            assert(s.next(step).leaders == s.leaders);
        },
    }
}

/// Election safety over time: the leader recorded for a term stays the
/// leader recorded for that term, and who leads a term is the leader
/// recorded for it. So one term never has two leaders, at one time or at
/// different times.
pub proof fn theorem_leader_of_a_term_is_fixed(
    states: Seq<Lane>,
    steps: Seq<Step>,
    i: int,
    j: int,
    t: Term,
)
    requires
        is_run(states, steps),
        0 <= i <= j < states.len(),
        states[i].leaders.contains_key(t),
    ensures
        states[j].leaders.contains_key(t),
        states[j].leaders[t] == states[i].leaders[t],
    decreases j - i,
{
    if i < j {
        theorem_leader_of_a_term_is_fixed(states, steps, i, j - 1, t);
        lemma_run_keeps_invariant(states, steps, j - 1);
        assert(follows(states, steps, j - 1));
        lemma_step_keeps_leaders(states[j - 1], steps[j - 1], t);
    }
}

/// Log matching: in every state of every run, when the logs of two members
/// hold an entry of the same clock at index `i`, then at every index up to
/// `i` that both retain, down to the first that one of them does not retain,
/// they hold entries of the same clocks, and of the same command unless one
/// of the two was rewritten into a snapshot entry.
pub proof fn theorem_log_matching(
    states: Seq<Lane>,
    steps: Seq<Step>,
    k: int,
    a: NodeId,
    b: NodeId,
    i: int,
    j: int,
)
    requires
        is_run(states, steps),
        0 <= k < states.len(),
        states[k].members.contains(a),
        states[k].members.contains(b),
        j <= i,
        forall|m: int|
            j <= m <= i ==> states[k].nodes[a].log.contains(m) && states[k].nodes[b].log.contains(
                m,
            ),
        states[k].nodes[a].log.at(i).this_clock == states[k].nodes[b].log.at(i).this_clock,
    ensures
        ({
            let x = states[k].nodes[a].log.at(j);
            let y = states[k].nodes[b].log.at(j);
            &&& x.this_clock == y.this_clock
            &&& x.prev_clock == y.prev_clock
            &&& (x.command == y.command || is_snapshot(x) || is_snapshot(y))
        }),
    decreases i - j,
{
    lemma_run_keeps_invariant(states, steps, k);
    let s = states[k];
    let la = s.nodes[a].log;
    let lb = s.nodes[b].log;
    assert(s.nodes.contains_key(a) && s.nodes.contains_key(b));
    if j < i {
        theorem_log_matching(states, steps, k, a, b, i, j + 1);
        assert(la.contains(j + 1) && lb.contains(j + 1));
        assert(entry_ok(la, j + 1));
        assert(entry_ok(lb, j + 1));
    }
    assert(la.contains(j) && lb.contains(j));
    assert(s.known(la.at(j)));
    assert(s.known(lb.at(j)));
}

/// What [`crate::command_log::CommandLog::append_new_entry`] does to the log
/// is what the step `Append` does.
pub proof fn lemma_append_is_a_step(s: CommandLogView, term: Term, command: CommandView)
    requires
        s.wf(),
        !s.log.is_empty(),
        s.log.last_index() < u64::MAX,
    ensures
        s.log.insert(
            (s.log.last_index() + 1) as Index,
            EntryView {
                prev_clock: s.last_clock(),
                this_clock: Clock { term, index: (s.log.last_index() + 1) as Index },
                command: encode_command(command),
            },
        ) == s.log.insert(
            (s.log.last_index() + 1) as Index,
            appended_entry(s.log, term, encode_command(command)),
        ),
{
}

/// What [`crate::command_log::CommandLog::try_insert_entry`] does to the log
/// is what the step `Replicate` does.
pub proof fn lemma_offer_is_a_step(s: CommandLogView, e: EntryView)
    ensures
        after_offer(s, e, e.prev_clock).log == offered(
            s.log,
            s.snapshot_pointer,
            s.commit_pointer,
            e,
        ),
{
    let m = CommandLogView {
        log: s.log,
        snapshot_pointer: s.snapshot_pointer,
        commit_pointer: s.commit_pointer,
        last_applied: s.snapshot_pointer,
        membership_pointer: 0,
    };
    assert(insert_case(s, e, e.prev_clock) == insert_case(m, e, e.prev_clock));
}

/// What [`crate::command_log::CommandLog::advance_snapshot_index`] does to
/// the log is what the step `Rewrite` does.
pub proof fn lemma_snapshot_is_a_step(s: CommandLogView, i: Index, membership: Seq<NodeId>)
    ensures
        crate::command_log::with_snapshot_at(
            s,
            i,
            EntryView {
                command: encode_command(CommandView::Snapshot(membership)),
                ..s.log.at(i as int)
            },
        ).log == rewritten(s.log, i, encode_command(CommandView::Snapshot(membership))),
{
}

} // verus!
