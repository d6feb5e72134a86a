//! The leader's directory of followers: how far each has caught up, what to
//! send it next, and which entries a majority holds.

use crate::clock::{Clock, Index, NodeId, Term};
use crate::command_log::CommandLog;
use crate::log_model::CommandLogView;
use crate::entry::Entry;
use crate::error::Error;
use crate::log_store::LogView;
use crate::membership::{quorum_of, Membership};
use vstd::prelude::*;

verus! {

/// The largest number of entries that one replication message carries.
pub const REPLICATION_BATCH: u64 = 64;

/// The default bound on unacknowledged messages to one follower.
pub const IN_FLIGHT_MAX: u64 = 8;

/// What the leader knows of one follower.
#[derive(Clone, Copy, Debug, PartialEq, Eq, Structural)]
pub struct Peer {
    pub id: NodeId,
    /// Index of the next entry to send.
    pub next_index: Index,
    /// Highest index known to be stored on the follower.
    pub match_index: Index,
    /// Bound on unacknowledged messages.
    pub in_flight_max: u64,
    /// Time of the last acknowledged heartbeat.
    pub last_heartbeat_ack: u64,
}

/// A batch of entries for a follower.
#[derive(Debug)]
pub struct AppendEntries {
    pub term: Term,
    pub prev_clock: Clock,
    pub entries: Vec<Entry>,
    pub leader_commit: Index,
}

/// A follower's answer to [`AppendEntries`].
#[derive(Clone, Copy, Debug, PartialEq, Eq, Structural)]
pub struct AppendEntriesResponse {
    pub success: bool,
    /// Index of the follower's last entry.
    pub hint_index: Index,
    pub term: Term,
}

/// What to send to a follower.
#[derive(Debug)]
pub enum ReplicationPlan {
    /// The follower has everything.
    UpToDate,
    /// The follower needs entries that were compacted away: send the snapshot
    /// at this index.
    Snapshot(Index),
    /// Send this batch.
    Append(AppendEntries),
}

/// What an acknowledgement led to.
#[derive(Clone, Copy, Debug, PartialEq, Eq, Structural)]
pub enum AckOutcome {
    /// The follower stored the batch; its progress moved forward.
    Advanced,
    /// The follower's log diverges; the next batch starts one entry earlier.
    Retreated,
    /// The follower is in a newer term: the leader must yield to it.
    Surrender(Term),
}

/// A follower that was just added, or a leader that was just elected, assumes
/// that the follower holds nothing and tries the entry after the last one first.
pub open spec fn fresh_peer(id: NodeId, last_index: Index) -> Peer {
    Peer {
        id,
        next_index: if last_index < u64::MAX {
            (last_index + 1) as Index
        } else {
            last_index
        },
        match_index: 0,
        in_flight_max: IN_FLIGHT_MAX,
        last_heartbeat_ack: 0,
    }
}

/// Peers are listed by ascending identity and the node itself is not one of them.
pub open spec fn directory_ok(s: Seq<Peer>, self_id: NodeId) -> bool {
    &&& forall|i: int, j: int| 0 <= i < j < s.len() ==> s[i].id < s[j].id
    &&& forall|i: int| 0 <= i < s.len() ==> #[trigger] s[i].id != self_id
}

/// Whether the directory lists `id`.
pub open spec fn has_peer(s: Seq<Peer>, id: NodeId) -> bool {
    exists|k: int| 0 <= k < s.len() && #[trigger] s[k].id == id
}

/// What the directory says of `id`.
pub open spec fn peer_of(s: Seq<Peer>, id: NodeId) -> Peer {
    s[choose|k: int| 0 <= k < s.len() && #[trigger] s[k].id == id]
}

/// The number of listed followers that hold the entry at index `i`.
pub open spec fn count_matching(s: Seq<Peer>, i: Index) -> nat
    decreases s.len(),
{
    if s.len() == 0 {
        0
    } else {
        count_matching(s.drop_last(), i) + if s.last().match_index >= i {
            1nat
        } else {
            0nat
        }
    }
}

/// The number of listed followers that acknowledged a heartbeat at time
/// `since` or later.
pub open spec fn count_acked_since(s: Seq<Peer>, since: u64) -> nat
    decreases s.len(),
{
    if s.len() == 0 {
        0
    } else {
        count_acked_since(s.drop_last(), since) + if s.last().last_heartbeat_ack >= since {
            1nat
        } else {
            0nat
        }
    }
}

/// An entry of a directory is what the directory says of its identity.
pub proof fn lemma_peer_at(s: Seq<Peer>, self_id: NodeId, k: int)
    requires
        directory_ok(s, self_id),
        0 <= k < s.len(),
    ensures
        has_peer(s, s[k].id),
        peer_of(s, s[k].id) == s[k],
{
    let c = choose|c: int| 0 <= c < s.len() && #[trigger] s[c].id == s[k].id;
    if c < k {
        assert(s[c].id < s[k].id);
    } else if k < c {
        assert(s[k].id < s[c].id);
    }
}

/// A directory is determined by whom it lists and what it says of each.
pub proof fn lemma_directory_is_determined(a: Seq<Peer>, b: Seq<Peer>, self_id: NodeId)
    requires
        directory_ok(a, self_id),
        directory_ok(b, self_id),
        forall|id: NodeId| has_peer(a, id) == has_peer(b, id),
        forall|id: NodeId| has_peer(a, id) ==> peer_of(a, id) == peer_of(b, id),
    ensures
        a == b,
{
    let x = a.map_values(|p: Peer| p.id);
    let y = b.map_values(|p: Peer| p.id);
    assert forall|v: NodeId| x.to_set().contains(v) == y.to_set().contains(v) by {
        if x.contains(v) {
            let i = choose|i: int| 0 <= i < x.len() && x[i] == v;
            assert(a[i].id == v);
            assert(has_peer(b, v));
            let j = choose|j: int| 0 <= j < b.len() && #[trigger] b[j].id == v;
            assert(y[j] == v);
        }
        if y.contains(v) {
            let i = choose|i: int| 0 <= i < y.len() && y[i] == v;
            assert(b[i].id == v);
            assert(has_peer(a, v));
            let j = choose|j: int| 0 <= j < a.len() && #[trigger] a[j].id == v;
            assert(x[j] == v);
        }
    }
    assert(x.to_set() =~= y.to_set());
    assert(crate::membership::strictly_ascending(x)) by {
        assert forall|i: int, j: int| 0 <= i < j < x.len() implies x[i] < x[j] by {
            assert(a[i].id < a[j].id);
        }
    }
    assert(crate::membership::strictly_ascending(y)) by {
        assert forall|i: int, j: int| 0 <= i < j < y.len() implies y[i] < y[j] by {
            assert(b[i].id < b[j].id);
        }
    }
    crate::membership::lemma_ascending_unique(x, y);
    assert(a.len() == b.len());
    assert forall|k: int| 0 <= k < a.len() implies a[k] == b[k] by {
        assert(x[k] == y[k]);
        lemma_peer_at(a, self_id, k);
        lemma_peer_at(b, self_id, k);
    }
    assert(a =~= b);
}

/// The mathematical content of [`Peers`].
pub struct PeersView {
    pub self_id: NodeId,
    /// Whether the node itself belongs to the membership in force.
    pub self_is_member: bool,
    pub peers: Seq<Peer>,
}

impl PeersView {
    pub open spec fn wf(self) -> bool {
        directory_ok(self.peers, self.self_id)
    }

    /// The number of voting members: the listed followers and, if it is a
    /// member, the node itself.
    pub open spec fn voters(self) -> nat {
        self.peers.len() + if self.self_is_member {
            1nat
        } else {
            0nat
        }
    }

    /// The number of voting members that hold the entry at index `i`, given
    /// that the node's own log ends at `last_index`.
    pub open spec fn support(self, last_index: int, i: Index) -> nat {
        count_matching(self.peers, i) + if self.self_is_member && i <= last_index {
            1nat
        } else {
            0nat
        }
    }

    /// The directory of a node that was just elected to lead a log that ends
    /// at `last_index`: of each follower the leader assumes that it holds
    /// nothing, and tries the entry after the last one first.
    pub open spec fn reset(self, last_index: Index) -> PeersView {
        PeersView {
            peers: Seq::new(
                self.peers.len(),
                |k: int|
                    Peer {
                        last_heartbeat_ack: self.peers[k].last_heartbeat_ack,
                        in_flight_max: self.peers[k].in_flight_max,
                        ..fresh_peer(self.peers[k].id, last_index)
                    },
            ),
            ..self
        }
    }

    /// The directory of a leader of `term` after follower `id` answered a
    /// batch that ended at `sent_upto`. An answer from a newer term changes
    /// nothing, nor does one of a node that is not listed.
    pub open spec fn acked(
        self,
        id: NodeId,
        term: Term,
        resp: AppendEntriesResponse,
        sent_upto: Index,
    ) -> PeersView {
        PeersView {
            peers: Seq::new(
                self.peers.len(),
                |k: int|
                    if self.peers[k].id != id || resp.term > term {
                        self.peers[k]
                    } else {
                        after_ack(self.peers[k], resp, sent_upto)
                    },
            ),
            ..self
        }
    }

    /// Whether `r` names the follower to hand leadership to: the first, by
    /// identity, that holds the whole log, which ends at `last_index`; nobody
    /// when no follower holds it.
    pub open spec fn transfer_target_is(self, last_index: Index, r: Option<NodeId>) -> bool {
        match r {
            Some(id) => {
                &&& has_peer(self.peers, id)
                &&& peer_of(self.peers, id).match_index == last_index
                &&& forall|k: int|
                    0 <= k < self.peers.len() && #[trigger] self.peers[k].match_index == last_index
                        ==> id <= self.peers[k].id
            },
            None => forall|k: int|
                0 <= k < self.peers.len() ==> #[trigger] self.peers[k].match_index != last_index,
        }
    }

    /// The directory after follower `id` acknowledged a heartbeat at `now`.
    pub open spec fn heartbeat_acked(self, id: NodeId, now: u64) -> PeersView {
        PeersView {
            peers: Seq::new(
                self.peers.len(),
                |k: int|
                    if self.peers[k].id == id {
                        Peer { last_heartbeat_ack: now, ..self.peers[k] }
                    } else {
                        self.peers[k]
                    },
            ),
            ..self
        }
    }

    /// Whether a strict majority of the voting members has confirmed the
    /// node's leadership at time `since` or later: the followers that
    /// acknowledged a heartbeat since then and, if it is a member, the node
    /// itself.
    pub open spec fn confirmed_since(self, since: u64) -> bool {
        count_acked_since(self.peers, since) + if self.self_is_member {
            1nat
        } else {
            0nat
        } >= quorum_of(self.voters())
    }

    /// Whether a leader of `term` may commit the entry at index `i`: a strict
    /// majority holds it and it is of the leader's own term.
    pub open spec fn committable(self, log: LogView, term: Term, i: Index) -> bool {
        &&& log.contains(i as int)
        &&& self.support(log.last_index(), i) >= quorum_of(self.voters())
        &&& log.at(i as int).this_clock.term == term
    }
}

/// The leader's directory of followers.
#[derive(Debug)]
pub struct Peers {
    self_id: NodeId,
    self_is_member: bool,
    peers: Vec<Peer>,
}

impl View for Peers {
    type V = PeersView;

    closed spec fn view(&self) -> PeersView {
        PeersView { self_id: self.self_id, self_is_member: self.self_is_member, peers: self.peers@ }
    }
}

impl Peers {
    pub open spec fn wf(&self) -> bool {
        self@.wf()
    }

    /// An empty directory.
    pub fn new(self_id: NodeId) -> (p: Peers)
        ensures
            p.wf(),
            p@ == (PeersView { self_id, self_is_member: false, peers: Seq::empty() }),
    {
        Peers { self_id, self_is_member: false, peers: Vec::new() }
    }

    /// The number of listed followers.
    pub fn len(&self) -> (n: usize)
        ensures
            n == self@.peers.len(),
    {
        self.peers.len()
    }

    /// The follower at position `k` of the ascending order.
    pub fn get(&self, k: usize) -> (p: Peer)
        requires
            k < self@.peers.len(),
        ensures
            p == self@.peers[k as int],
    {
        self.peers[k]
    }

    /// Whether the node itself belongs to the membership in force.
    pub fn self_is_member(&self) -> (b: bool)
        ensures
            b == self@.self_is_member,
    {
        self.self_is_member
    }

    /// The position at which `id` is listed.
    fn find(&self, id: NodeId) -> (r: Option<usize>)
        requires
            self.wf(),
        ensures
            r.is_some() == has_peer(self@.peers, id),
            r matches Some(k) ==> k < self@.peers.len() && self@.peers[k as int] == peer_of(
                self@.peers,
                id,
            ) && self@.peers[k as int].id == id,
    {
        let n: usize = self.peers.len();
        let mut k: usize = 0;
        while k < n
            invariant
                n == self.peers@.len(),
                k <= n,
                self.wf(),
                forall|j: int| 0 <= j < k ==> self.peers@[j].id != id,
            decreases n - k,
        {
            if self.peers[k].id == id {
                proof {
                    lemma_peer_at(self@.peers, self.self_id, k as int);
                }
                return Some(k);
            }
            k = k + 1;
        }
        None
    }

    /// What the directory says of follower `id`.
    pub fn progress(&self, id: NodeId) -> (r: Result<Peer, Error>)
        requires
            self.wf(),
        ensures
            r == if has_peer(self@.peers, id) {
                Ok::<Peer, Error>(peer_of(self@.peers, id))
            } else {
                Err(Error::PeerNotFound(id))
            },
    {
        match self.find(id) {
            Some(k) => Ok(self.peers[k]),
            None => Err(Error::PeerNotFound(id)),
        }
    }

    /// Makes the directory list the members of `membership` other than the
    /// node itself. A follower that was listed keeps its progress; a new one
    /// starts as a fresh peer of a log that ends at `last_index`.
    pub fn set_membership(&mut self, membership: &Membership, last_index: Index)
        requires
            old(self).wf(),
            membership.wf(),
        ensures
            final(self).wf(),
            final(self)@.self_id == old(self)@.self_id,
            final(self)@.self_is_member == membership.members().contains(old(self)@.self_id),
            forall|id: NodeId|
                has_peer(final(self)@.peers, id) == (membership.members().contains(id)
                    && id != old(self)@.self_id),
            forall|id: NodeId|
                #![trigger peer_of(final(self)@.peers, id)]
                has_peer(final(self)@.peers, id) ==> peer_of(final(self)@.peers, id) == if has_peer(
                    old(self)@.peers,
                    id,
                ) {
                    peer_of(old(self)@.peers, id)
                } else {
                    fresh_peer(id, last_index)
                },
            final(self)@.voters() == membership@.len(),
    {
        let n: usize = membership.len();
        let mut next: Vec<Peer> = Vec::new();
        let mut k: usize = 0;
        let mut seen_self: bool = false;
        let ghost start = self@;
        while k < n
            invariant
                n == membership@.len(),
                k <= n,
                membership.wf(),
                self.wf(),
                self@ == start,
                directory_ok(next@, start.self_id),
                forall|j: int| 0 <= j < next@.len() ==> k > 0 && #[trigger] next@[j].id
                    <= membership@[k - 1],
                seen_self == membership@.take(k as int).contains(start.self_id),
                next@.len() + if seen_self {
                    1int
                } else {
                    0int
                } == k,
                forall|id: NodeId|
                    has_peer(next@, id) == (membership@.take(k as int).contains(id) && id
                        != start.self_id),
                forall|j: int|
                    0 <= j < next@.len() ==> #[trigger] next@[j] == if has_peer(
                        start.peers,
                        next@[j].id,
                    ) {
                        peer_of(start.peers, next@[j].id)
                    } else {
                        fresh_peer(next@[j].id, last_index)
                    },
            decreases n - k,
        {
            let id: NodeId = membership.get(k);
            let ghost before = next@;
            let ghost seen_before = seen_self;
            proof {
                assert(membership@.take(k + 1) =~= membership@.take(k as int).push(id));
                if k > 0 {
                    assert(membership@[k - 1] < membership@[k as int]);
                }
            }
            if id == self.self_id {
                seen_self = true;
            } else {
                let peer: Peer = match self.find(id) {
                    Some(at) => self.peers[at],
                    None => Peer {
                        id,
                        next_index: if last_index < u64::MAX {
                            last_index + 1
                        } else {
                            last_index
                        },
                        match_index: 0,
                        in_flight_max: IN_FLIGHT_MAX,
                        last_heartbeat_ack: 0,
                    },
                };
                next.push(peer);
                assert(next@[before.len() as int].id == id);
            }
            proof {
                let taken = membership@.take(k as int);
                let grown = membership@.take(k + 1);
                assert forall|v: NodeId| grown.contains(v) == (taken.contains(v) || v == id) by {
                    if taken.contains(v) {
                        let j = choose|j: int| 0 <= j < taken.len() && taken[j] == v;
                        assert(grown[j] == v);
                    }
                    if v == id {
                        assert(grown[k as int] == v);
                    }
                    if grown.contains(v) {
                        let j = choose|j: int| 0 <= j < grown.len() && grown[j] == v;
                        if j < k {
                            assert(taken[j] == v);
                        }
                    }
                }
                assert forall|v: NodeId| has_peer(next@, v) == (grown.contains(v) && v
                    != start.self_id) by {
                    if has_peer(before, v) {
                        let j = choose|j: int| 0 <= j < before.len() && #[trigger] before[j].id
                            == v;
                        assert(next@[j].id == v);
                    }
                    if has_peer(next@, v) {
                        let j = choose|j: int| 0 <= j < next@.len() && #[trigger] next@[j].id == v;
                        if j < before.len() {
                            assert(before[j].id == v);
                        }
                    }
                }
            }
            k = k + 1;
        }
        proof {
            assert(membership@.take(n as int) =~= membership@);
            assert forall|id: NodeId| #![trigger peer_of(next@, id)] has_peer(next@, id)
                implies peer_of(
                next@,
                id,
            ) == if has_peer(start.peers, id) {
                peer_of(start.peers, id)
            } else {
                fresh_peer(id, last_index)
            } by {
                let j = choose|j: int| 0 <= j < next@.len() && #[trigger] next@[j].id == id;
                lemma_peer_at(next@, start.self_id, j);
            }
        }
        self.peers = next;
        self.self_is_member = seen_self;
    }

    /// Forgets what is known of every follower's log, as a newly elected
    /// leader of a log that ends at `last_index` must.
    pub fn reset_progress(&mut self, last_index: Index)
        requires
            old(self).wf(),
        ensures
            final(self).wf(),
            final(self)@ == old(self)@.reset(last_index),
    {
        let n: usize = self.peers.len();
        let mut k: usize = 0;
        let ghost start = self@;
        let next: Index = if last_index < u64::MAX {
            last_index + 1
        } else {
            last_index
        };
        while k < n
            invariant
                n == start.peers.len(),
                self.peers@.len() == n,
                k <= n,
                self.self_id == start.self_id,
                self.self_is_member == start.self_is_member,
                next == fresh_peer(0, last_index).next_index,
                forall|j: int| k <= j < n ==> self.peers@[j] == start.peers[j],
                forall|j: int|
                    0 <= j < k ==> #[trigger] self.peers@[j] == (Peer {
                        last_heartbeat_ack: start.peers[j].last_heartbeat_ack,
                        in_flight_max: start.peers[j].in_flight_max,
                        ..fresh_peer(start.peers[j].id, last_index)
                    }),
            decreases n - k,
        {
            let p: Peer = self.peers[k];
            self.peers.set(k, Peer { next_index: next, match_index: 0, ..p });
            k = k + 1;
        }
        proof {
            assert forall|i: int, j: int| 0 <= i < j < self.peers@.len() implies self.peers@[i].id
                < self.peers@[j].id by {
                assert(start.peers[i].id < start.peers[j].id);
            }
            assert(self@.peers =~= start.reset(last_index).peers);
        }
    }

    /// The number of listed followers that hold the entry at index `i`.
    fn count(&self, i: Index) -> (c: usize)
        ensures
            c == count_matching(self@.peers, i),
    {
        let n: usize = self.peers.len();
        let mut k: usize = 0;
        let mut c: usize = 0;
        assert(self.peers@.take(0) =~= Seq::<Peer>::empty());
        while k < n
            invariant
                n == self.peers@.len(),
                k <= n,
                c <= k,
                c == count_matching(self.peers@.take(k as int), i),
            decreases n - k,
        {
            assert(self.peers@.take(k + 1).drop_last() =~= self.peers@.take(k as int));
            if self.peers[k].match_index >= i {
                c = c + 1;
            }
            k = k + 1;
        }
        assert(self.peers@.take(n as int) =~= self.peers@);
        c
    }

    /// The index up to which a leader of `term` may commit: the highest index
    /// above the commit pointer whose entry is of that term and is held by a
    /// strict majority of the voting members; the commit pointer itself when
    /// there is no such index.
    pub fn find_new_commit(&self, log: &CommandLog, term: Term) -> (r: Index)
        requires
            self.wf(),
            log.wf(),
        ensures
            log@.commit_pointer <= r <= log@.log.last_index(),
            r > log@.commit_pointer ==> self@.committable(log@.log, term, r),
            forall|j: Index| r < j ==> !#[trigger] self@.committable(log@.log, term, j),
    {
        let commit: Index = log.commit_pointer();
        let last: Index = log.get_log_last_index();
        let quorum: usize = if self.self_is_member {
            self.peers.len() / 2 + self.peers.len() % 2 + 1
        } else {
            self.peers.len() / 2 + 1
        };
        assert(quorum == quorum_of(self@.voters()));
        let mut i: Index = last;
        while i > commit
            invariant
                self.wf(),
                log.wf(),
                commit == log@.commit_pointer,
                last == log@.log.last_index(),
                commit <= i <= last,
                quorum == quorum_of(self@.voters()),
                forall|j: Index| i < j ==> !#[trigger] self@.committable(log@.log, term, j),
            decreases i,
        {
            let held: usize = self.count(i);
            let enough: bool = if self.self_is_member {
                held >= quorum - 1
            } else {
                held >= quorum
            };
            let of_term: bool = match log.clock_at(i) {
                Some(c) => c.term == term,
                None => false,
            };
            if enough && of_term {
                return i;
            }
            i = i - 1;
        }
        commit
    }

    /// What to send to follower `id` next, as the leader of `term`.
    ///
    /// A follower whose next entry lies at or below the snapshot pointer gets
    /// the snapshot. Otherwise it gets the entries from its next index on, at
    /// most [`REPLICATION_BATCH`] of them, together with the clock of the entry
    /// before the first. A follower whose next index lies beyond the log gets
    /// an empty batch that names the last entry, unless it is known to hold
    /// the whole log.
    pub fn plan_replication(&self, id: NodeId, log: &CommandLog, term: Term) -> (r: Result<
        ReplicationPlan,
        Error,
    >)
        requires
            self.wf(),
            log.wf(),
        ensures
            !has_peer(self@.peers, id) ==> r == Err::<ReplicationPlan, Error>(
                Error::PeerNotFound(id),
            ),
            has_peer(self@.peers, id) ==> r.is_ok() && plan_for(
                peer_of(self@.peers, id),
                log@,
                term,
                r->Ok_0,
            ),
    {
        let peer: Peer = match self.find(id) {
            Some(k) => self.peers[k],
            None => {
                return Err(Error::PeerNotFound(id));
            },
        };
        let next: Index = peer.next_index;
        let last: Index = log.get_log_last_index();
        if next <= log.snapshot_pointer() {
            return Ok(ReplicationPlan::Snapshot(log.snapshot_pointer()));
        }
        if next > last {
            if peer.match_index >= last {
                return Ok(ReplicationPlan::UpToDate);
            }
            return Ok(
                ReplicationPlan::Append(
                    AppendEntries {
                        term,
                        prev_clock: log.last_clock(),
                        entries: Vec::new(),
                        leader_commit: log.commit_pointer(),
                    },
                ),
            );
        }
        let upto: Index = if last - next >= REPLICATION_BATCH {
            next + (REPLICATION_BATCH - 1)
        } else {
            last
        };
        let prev_clock: Clock = match log.clock_at(next - 1) {
            Some(c) => c,
            None => {
                proof {
                    log.lemma_retained_above_snapshot((next - 1) as int);
                }
                Clock { term: 0, index: 0 }
            },
        };
        let mut entries: Vec<Entry> = Vec::new();
        let count: u64 = upto - next + 1;
        let mut done: u64 = 0;
        while done < count
            invariant
                log.wf(),
                next <= upto <= last,
                count == upto - next + 1,
                done <= count,
                last == log@.log.last_index(),
                next > log@.snapshot_pointer,
                entries@.len() == done,
                forall|k: int| 0 <= k < entries@.len() ==> (#[trigger] entries@[k])@ == log@.log.at(
                    next + k,
                ),
            decreases count - done,
        {
            let i: Index = next + done;
            proof {
                log.lemma_retained_above_snapshot(i as int);
            }
            match log.get_entry(i) {
                Ok(e) => {
                    entries.push(e);
                },
                Err(_) => {},
            }
            done = done + 1;
        }
        Ok(
            ReplicationPlan::Append(
                AppendEntries { term, prev_clock, entries, leader_commit: log.commit_pointer() },
            ),
        )
    }

    /// Takes follower `id`'s answer to a batch that ended at index `sent_upto`.
    ///
    /// An answer from a newer term than `term` asks the leader to yield and
    /// changes nothing. Success moves the follower's match index up to
    /// `sent_upto` and its next index past it. Failure moves the next index
    /// back; see [`retreat`].
    pub fn handle_ack(
        &mut self,
        id: NodeId,
        term: Term,
        resp: &AppendEntriesResponse,
        sent_upto: Index,
    ) -> (r: Result<AckOutcome, Error>)
        requires
            old(self).wf(),
        ensures
            final(self).wf(),
            r == if !has_peer(old(self)@.peers, id) {
                Err::<AckOutcome, Error>(Error::PeerNotFound(id))
            } else if resp.term > term {
                Ok(AckOutcome::Surrender(resp.term))
            } else if resp.success {
                Ok(AckOutcome::Advanced)
            } else {
                Ok(AckOutcome::Retreated)
            },
            final(self)@ == old(self)@.acked(id, term, *resp, sent_upto),
    {
        let ghost start = self@;
        let k: usize = match self.find(id) {
            Some(k) => k,
            None => {
                assert(start.acked(id, term, *resp, sent_upto).peers =~= start.peers);
                return Err(Error::PeerNotFound(id));
            },
        };
        if resp.term > term {
            assert(start.acked(id, term, *resp, sent_upto).peers =~= start.peers);
            return Ok(AckOutcome::Surrender(resp.term));
        }
        let p: Peer = self.peers[k];
        let (updated, outcome) = if resp.success {
            let matched: Index = if sent_upto > p.match_index {
                sent_upto
            } else {
                p.match_index
            };
            let next: Index = if matched < u64::MAX {
                matched + 1
            } else {
                matched
            };
            (Peer { match_index: matched, next_index: next, ..p }, AckOutcome::Advanced)
        } else {
            let next: Index = if p.next_index <= 1 {
                1
            } else if resp.hint_index < p.next_index - 1 {
                resp.hint_index + 1
            } else {
                p.next_index - 1
            };
            (Peer { next_index: next, ..p }, AckOutcome::Retreated)
        };
        self.peers.set(k, updated);
        proof {
            assert forall|i: int, j: int| 0 <= i < j < self.peers@.len() implies self.peers@[i].id
                < self.peers@[j].id by {
                assert(start.peers[i].id < start.peers[j].id);
            }
            assert forall|j: int| 0 <= j < self.peers@.len() implies #[trigger] self.peers@[j]
                == if start.peers[j].id != id || resp.term > term {
                start.peers[j]
            } else {
                after_ack(start.peers[j], *resp, sent_upto)
            } by {
                if j != k {
                    if j < k {
                        assert(start.peers[j].id < start.peers[k as int].id);
                    } else {
                        assert(start.peers[k as int].id < start.peers[j].id);
                    }
                }
            }
            assert(self@.peers =~= start.acked(id, term, *resp, sent_upto).peers);
        }
        Ok(outcome)
    }

    /// Records that follower `id` acknowledged a heartbeat at time `now`.
    pub fn record_heartbeat_ack(&mut self, id: NodeId, now: u64) -> (r: Result<(), Error>)
        requires
            old(self).wf(),
        ensures
            final(self).wf(),
            r == if has_peer(old(self)@.peers, id) {
                Ok::<(), Error>(())
            } else {
                Err(Error::PeerNotFound(id))
            },
            final(self)@ == old(self)@.heartbeat_acked(id, now),
    {
        let ghost start = self@;
        let k: usize = match self.find(id) {
            Some(k) => k,
            None => {
                assert(start.heartbeat_acked(id, now).peers =~= start.peers);
                return Err(Error::PeerNotFound(id));
            },
        };
        let p: Peer = self.peers[k];
        self.peers.set(k, Peer { last_heartbeat_ack: now, ..p });
        proof {
            assert forall|i: int, j: int| 0 <= i < j < self.peers@.len() implies self.peers@[i].id
                < self.peers@[j].id by {
                assert(start.peers[i].id < start.peers[j].id);
            }
            assert forall|j: int| 0 <= j < self.peers@.len() implies #[trigger] self.peers@[j]
                == if start.peers[j].id == id {
                Peer { last_heartbeat_ack: now, ..start.peers[j] }
            } else {
                start.peers[j]
            } by {
                if j != k {
                    if j < k {
                        assert(start.peers[j].id < start.peers[k as int].id);
                    } else {
                        assert(start.peers[k as int].id < start.peers[j].id);
                    }
                }
            }
            assert(self@.peers =~= start.heartbeat_acked(id, now).peers);
        }
        Ok(())
    }

    /// Whether a strict majority of the voting members has confirmed the
    /// node's leadership at time `since` or later; see
    /// [`PeersView::confirmed_since`].
    pub fn leadership_confirmed(&self, since: u64) -> (b: bool)
        ensures
            b == self@.confirmed_since(since),
    {
        let n: usize = self.peers.len();
        let mut k: usize = 0;
        let mut c: usize = 0;
        assert(self.peers@.take(0) =~= Seq::<Peer>::empty());
        while k < n
            invariant
                n == self.peers@.len(),
                k <= n,
                c <= k,
                c == count_acked_since(self.peers@.take(k as int), since),
            decreases n - k,
        {
            assert(self.peers@.take(k + 1).drop_last() =~= self.peers@.take(k as int));
            if self.peers[k].last_heartbeat_ack >= since {
                c = c + 1;
            }
            k = k + 1;
        }
        assert(self.peers@.take(n as int) =~= self.peers@);
        // a strict majority of n followers and the node itself: more than
        // half of n + 1; of n followers alone: more than half of n
        if self.self_is_member {
            c >= n / 2 + n % 2
        } else {
            c >= n / 2 + 1
        }
    }

    /// The follower to hand leadership to: the first, by identity, that holds
    /// the whole log, which ends at `last_index`.
    pub fn transfer_target(&self, last_index: Index) -> (r: Option<NodeId>)
        requires
            self.wf(),
        ensures
            self@.transfer_target_is(last_index, r),
    {
        let n: usize = self.peers.len();
        let mut k: usize = 0;
        while k < n
            invariant
                n == self.peers@.len(),
                k <= n,
                self.wf(),
                forall|j: int| 0 <= j < k ==> #[trigger] self.peers@[j].match_index != last_index,
            decreases n - k,
        {
            if self.peers[k].match_index == last_index {
                proof {
                    lemma_peer_at(self@.peers, self.self_id, k as int);
                    assert forall|j: int|
                        0 <= j < self@.peers.len() && #[trigger] self@.peers[j].match_index
                            == last_index implies self@.peers[k as int].id <= self@.peers[j].id by {
                        if j > k {
                            assert(self@.peers[k as int].id < self@.peers[j].id);
                        }
                    }
                }
                return Some(self.peers[k].id);
            }
            k = k + 1;
        }
        None
    }
}

/// What is known of a follower after its answer to a batch that ended at `sent_upto`.
pub open spec fn after_ack(p: Peer, resp: AppendEntriesResponse, sent_upto: Index) -> Peer {
    if resp.success {
        let matched = if sent_upto > p.match_index {
            sent_upto
        } else {
            p.match_index
        };
        Peer {
            match_index: matched,
            next_index: if matched < u64::MAX {
                (matched + 1) as Index
            } else {
                matched
            },
            ..p
        }
    } else {
        Peer { next_index: retreat(p.next_index, resp.hint_index), ..p }
    }
}

/// Where to try next after a follower declined a batch that started at
/// `next`: one entry earlier, or right after the follower's last entry when
/// that is earlier still, but not below 1.
pub open spec fn retreat(next: Index, hint_index: Index) -> Index {
    if next <= 1 {
        1
    } else if hint_index < next - 1 {
        (hint_index + 1) as Index
    } else {
        (next - 1) as Index
    }
}

/// Whether `plan` is what the follower must be sent.
pub open spec fn plan_for(
    peer: Peer,
    log: CommandLogView,
    term: Term,
    plan: ReplicationPlan,
) -> bool {
    let last = log.log.last_index();
    let next = peer.next_index;
    if next <= log.snapshot_pointer {
        plan matches ReplicationPlan::Snapshot(i) && i == log.snapshot_pointer
    } else if next > last && peer.match_index >= last {
        plan is UpToDate
    } else if next > last {
        &&& plan matches ReplicationPlan::Append(req)
        &&& req.term == term
        &&& req.leader_commit == log.commit_pointer
        &&& req.prev_clock == log.last_clock()
        &&& req.entries@.len() == 0
    } else {
        let upto = if last - next >= REPLICATION_BATCH {
            next + REPLICATION_BATCH - 1
        } else {
            last
        };
        &&& plan matches ReplicationPlan::Append(req)
        &&& req.term == term
        &&& req.leader_commit == log.commit_pointer
        &&& req.prev_clock == log.log.at(next - 1).this_clock
        &&& req.entries@.len() == upto - next + 1
        &&& forall|k: int|
            0 <= k < req.entries@.len() ==> (#[trigger] req.entries@[k])@ == log.log.at(next + k)
    }
}

} // verus!
