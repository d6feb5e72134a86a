//! Counting the answers to a request that was sent to many nodes, until a
//! quorum has agreed or can no longer be reached.

use vstd::prelude::*;

verus! {

/// The number of `true` among `replies`.
pub open spec fn count_ok(replies: Seq<bool>) -> nat
    decreases replies.len(),
{
    if replies.len() == 0 {
        0
    } else {
        count_ok(replies.drop_last()) + if replies.last() {
            1nat
        } else {
            0nat
        }
    }
}

/// The verdict after `replies` out of `n` awaited answers came in: `Some(true)`
/// as soon as `quorum` of them agree, `Some(false)` when all have come in
/// without that, or when fewer than `quorum` were awaited in the first place.
/// While answers are awaited there is no verdict before the first has come
/// in, also where nobody needs to agree.
pub open spec fn verdict(quorum: nat, n: nat, replies: Seq<bool>) -> Option<bool> {
    if n < quorum {
        Some(false)
    } else if count_ok(replies) >= quorum && (replies.len() > 0 || n == 0) {
        Some(true)
    } else if replies.len() >= n {
        Some(false)
    } else {
        None
    }
}

/// One answer more never lowers the count.
pub proof fn lemma_count_ok_grows(replies: Seq<bool>, k: int)
    requires
        0 <= k <= replies.len(),
    ensures
        count_ok(replies.take(k)) <= count_ok(replies),
        count_ok(replies) <= replies.len(),
    decreases replies.len(),
{
    if replies.len() > 0 {
        if k == replies.len() {
            assert(replies.take(k) =~= replies);
            lemma_count_ok_grows(replies.drop_last(), k - 1);
        } else {
            assert(replies.drop_last().take(k) =~= replies.take(k));
            lemma_count_ok_grows(replies.drop_last(), k);
        }
    } else {
        assert(replies.take(k) =~= replies);
    }
}

/// A verdict, once reached, is not changed by later answers.
pub proof fn lemma_verdict_is_final(quorum: nat, n: nat, replies: Seq<bool>, k: int)
    requires
        0 <= k <= replies.len() <= n,
        verdict(quorum, n, replies.take(k)) is Some,
    ensures
        verdict(quorum, n, replies) == verdict(quorum, n, replies.take(k)),
{
    lemma_count_ok_grows(replies, k);
    if n >= quorum && count_ok(replies.take(k)) < quorum {
        assert(replies.take(k).len() == k);
        assert(replies.take(k) =~= replies);
    }
}

/// The tally of one request that was sent to `n` nodes.
#[derive(Clone, Copy, Debug, PartialEq, Eq, Structural)]
pub struct QuorumJoin {
    /// How many must agree.
    pub quorum: usize,
    /// How many answers are awaited.
    pub n: usize,
    /// How many answers were taken.
    pub ack: usize,
    /// How many of them agreed.
    pub ok: usize,
}

impl QuorumJoin {
    /// No more answers were taken than are awaited, and no more agreed than
    /// were taken.
    pub open spec fn wf(self) -> bool {
        self.ok <= self.ack <= self.n
    }

    /// The tally holds exactly the answers `replies`.
    pub open spec fn holds(self, replies: Seq<bool>) -> bool {
        self.ack == replies.len() && self.ok == count_ok(replies)
    }

    /// The verdict that the tally supports.
    pub open spec fn verdict_spec(self) -> Option<bool> {
        if self.n < self.quorum {
            Some(false)
        } else if self.ok >= self.quorum && (self.ack > 0 || self.n == 0) {
            Some(true)
        } else if self.ack >= self.n {
            Some(false)
        } else {
            None
        }
    }

    /// Starts a tally for `n` awaited answers of which `quorum` must agree.
    pub fn new(quorum: usize, n: usize) -> (q: QuorumJoin)
        ensures
            q == (QuorumJoin { quorum, n, ack: 0, ok: 0 }),
            q.wf(),
            q.holds(Seq::empty()),
    {
        QuorumJoin { quorum, n, ack: 0, ok: 0 }
    }

    /// The verdict so far: `Some(true)` once a quorum agrees, `Some(false)`
    /// once it cannot be reached any more, `None` while it is open. While
    /// answers are awaited it is open until the first has come in.
    pub fn verdict(&self) -> (r: Option<bool>)
        ensures
            r == self.verdict_spec(),
    {
        if self.n < self.quorum {
            Some(false)
        } else if self.ok >= self.quorum && (self.ack > 0 || self.n == 0) {
            Some(true)
        } else if self.ack >= self.n {
            Some(false)
        } else {
            None
        }
    }

    /// Takes one answer and returns the verdict after it. An answer that
    /// arrives after the verdict was reached is not counted.
    pub fn on_reply(&mut self, reply: bool) -> (r: Option<bool>)
        requires
            old(self).wf(),
        ensures
            final(self).wf(),
            *final(self) == if old(self).verdict_spec() is Some {
                *old(self)
            } else {
                QuorumJoin {
                    ack: (old(self).ack + 1) as usize,
                    ok: if reply {
                        (old(self).ok + 1) as usize
                    } else {
                        old(self).ok
                    },
                    ..*old(self)
                }
            },
            r == final(self).verdict_spec(),
            forall|replies: Seq<bool>|
                old(self).holds(replies) && old(self).verdict_spec() is None ==> final(self).holds(
                    #[trigger] replies.push(reply),
                ),
    {
        if self.verdict().is_some() {
            return self.verdict();
        }
        self.ack = self.ack + 1;
        if reply {
            self.ok = self.ok + 1;
        }
        proof {
            assert forall|replies: Seq<bool>| old(self).holds(replies) implies self.holds(
                #[trigger] replies.push(reply),
            ) by {
                assert(replies.push(reply).drop_last() =~= replies);
            }
        }
        self.verdict()
    }
}

/// A tally that holds `replies` gives the verdict that `replies` support.
pub proof fn lemma_tally_verdict(q: QuorumJoin, replies: Seq<bool>)
    requires
        q.holds(replies),
    ensures
        q.verdict_spec() == verdict(q.quorum as nat, q.n as nat, replies),
{
}

/// Whether `quorum` of the answers agree, among those that arrive in time.
///
/// Each awaited answer is given with the time, in milliseconds after the
/// request, at which it arrives. Answers that arrive after `timeout_ms` are not
/// counted. Where answers are awaited, at least one must arrive in time, also
/// where nobody needs to agree.
pub fn quorum_join(timeout_ms: u64, quorum: usize, futs: &Vec<(bool, u64)>) -> (ok: bool)
    ensures
        ok == (futs@.len() >= quorum && count_in_time(timeout_ms, futs@) >= quorum && (futs@.len()
            == 0 || arrived_in_time(timeout_ms, futs@) > 0)),
{
    let n: usize = futs.len();
    if n < quorum {
        return false;
    }
    let mut k: usize = 0;
    let mut agreed: usize = 0;
    let mut arrived: usize = 0;
    assert(futs@.take(0) =~= Seq::<(bool, u64)>::empty());
    while k < n
        invariant
            n == futs@.len(),
            k <= n,
            agreed <= k,
            arrived <= k,
            agreed == count_in_time(timeout_ms, futs@.take(k as int)),
            arrived == arrived_in_time(timeout_ms, futs@.take(k as int)),
        decreases n - k,
    {
        assert(futs@.take(k + 1).drop_last() =~= futs@.take(k as int));
        let (reply, at) = futs[k];
        if at <= timeout_ms {
            arrived = arrived + 1;
            if reply {
                agreed = agreed + 1;
            }
        }
        k = k + 1;
    }
    assert(futs@.take(n as int) =~= futs@);
    agreed >= quorum && (n == 0 || arrived > 0)
}

/// The number of answers that arrive within `timeout_ms`.
pub open spec fn arrived_in_time(timeout_ms: u64, futs: Seq<(bool, u64)>) -> nat
    decreases futs.len(),
{
    if futs.len() == 0 {
        0
    } else {
        arrived_in_time(timeout_ms, futs.drop_last()) + if futs.last().1 <= timeout_ms {
            1nat
        } else {
            0nat
        }
    }
}

/// The number of agreeing answers that arrive within `timeout_ms`.
pub open spec fn count_in_time(timeout_ms: u64, futs: Seq<(bool, u64)>) -> nat
    decreases futs.len(),
{
    if futs.len() == 0 {
        0
    } else {
        count_in_time(timeout_ms, futs.drop_last()) + if futs.last().0 && futs.last().1
            <= timeout_ms {
            1nat
        } else {
            0nat
        }
    }
}

} // verus!
