//! The durable record of a node's current term and of the vote it cast in it.

use crate::clock::{NodeId, Term};
use crate::error::Error;
use crate::wire::{get_u64, lemma_bytes_round_trip, lemma_u64_round_trip, put_u64, u64_at,
    u64_bytes};
use vstd::prelude::*;

verus! {

/// The current term and the candidate voted for in that term.
#[derive(Clone, Copy, Debug, PartialEq, Eq, Structural)]
pub struct Vote {
    pub cur_term: Term,
    pub voted_for: Option<NodeId>,
}

/// The same record under the name that the election rules use.
pub type Ballot = Vote;

/// A ballot on disk: the term, a presence byte, then the candidate if there is one.
pub open spec fn encode_ballot(v: Vote) -> Seq<u8> {
    match v.voted_for {
        None => u64_bytes(v.cur_term) + seq![0u8],
        Some(id) => u64_bytes(v.cur_term) + seq![1u8] + u64_bytes(id),
    }
}

/// The ballot that `b` stands for, if it stands for one.
pub open spec fn decode_ballot(b: Seq<u8>) -> Option<Vote> {
    if b.len() == 9 && b[8] == 0 {
        Some(Vote { cur_term: u64_at(b, 0), voted_for: None })
    } else if b.len() == 17 && b[8] == 1 {
        Some(Vote { cur_term: u64_at(b, 0), voted_for: Some(u64_at(b, 9)) })
    } else {
        None
    }
}

/// Decoding an encoded ballot gives the ballot back.
pub proof fn lemma_decode_encode_ballot(v: Vote)
    ensures
        decode_ballot(encode_ballot(v)) == Some(v),
{
    let b = encode_ballot(v);
    lemma_u64_round_trip(v.cur_term);
    assert(b.subrange(0, 8) =~= u64_bytes(v.cur_term));
    match v.voted_for {
        None => {},
        Some(id) => {
            lemma_u64_round_trip(id);
            assert(b.subrange(9, 17) =~= u64_bytes(id));
        },
    }
}

/// Encoding a decoded ballot gives the bytes back.
pub proof fn lemma_encode_decode_ballot(b: Seq<u8>)
    requires
        decode_ballot(b) is Some,
    ensures
        encode_ballot(decode_ballot(b)->Some_0) == b,
{
    lemma_bytes_round_trip(b.subrange(0, 8));
    if b.len() == 9 {
        assert(b =~= b.subrange(0, 8) + seq![0u8]);
    } else {
        lemma_bytes_round_trip(b.subrange(9, 17));
        assert(b =~= b.subrange(0, 8) + seq![1u8] + b.subrange(9, 17));
    }
}

impl Vote {
    /// The ballot of a node that has never taken part in an election.
    pub fn new() -> (v: Vote)
        ensures
            v == (Vote { cur_term: 0, voted_for: None }),
    {
        Vote { cur_term: 0, voted_for: None }
    }

    /// The persisted form of this ballot.
    pub fn encode(&self) -> (out: Vec<u8>)
        ensures
            out@ == encode_ballot(*self),
            decode_ballot(out@) == Some(*self),
    {
        let mut out: Vec<u8> = Vec::new();
        put_u64(&mut out, self.cur_term);
        match self.voted_for {
            None => {
                out.push(0u8);
            },
            Some(id) => {
                out.push(1u8);
                put_u64(&mut out, id);
            },
        }
        proof {
            assert(out@ =~= encode_ballot(*self));
            lemma_decode_encode_ballot(*self);
        }
        out
    }

    /// The ballot persisted as `b`; anything that is not an encoded ballot is
    /// refused with [`Error::BadLogState`].
    pub fn decode(b: &[u8]) -> (r: Result<Vote, Error>)
        ensures
            match r {
                Ok(v) => decode_ballot(b@) == Some(v) && encode_ballot(v) == b@,
                Err(e) => e == Error::BadLogState && decode_ballot(b@) is None,
            },
    {
        let len: usize = b.len();
        let r = if len == 9 && b[8] == 0 {
            Ok(Vote { cur_term: get_u64(b, 0), voted_for: None })
        } else if len == 17 && b[8] == 1 {
            Ok(Vote { cur_term: get_u64(b, 0), voted_for: Some(get_u64(b, 9)) })
        } else {
            Err(Error::BadLogState)
        };
        proof {
            if r.is_ok() {
                lemma_encode_decode_ballot(b@);
            }
        }
        r
    }
}

/// The durable cell that holds a lane's ballot.
#[derive(Debug)]
pub struct BallotStore {
    saved: Vote,
}

impl View for BallotStore {
    type V = Vote;

    /// The ballot that was saved last.
    closed spec fn view(&self) -> Vote {
        self.saved
    }
}

impl BallotStore {
    /// The store of a node at first boot.
    pub fn new() -> (s: BallotStore)
        ensures
            s@ == (Vote { cur_term: 0, voted_for: None }),
    {
        BallotStore { saved: Vote::new() }
    }

    /// Replaces the saved ballot.
    pub fn save_ballot(&mut self, v: Vote)
        ensures
            final(self)@ == v,
    {
        self.saved = v;
    }

    /// The ballot that was saved last, or term 0 with no vote at first boot.
    pub fn load_ballot(&self) -> (v: Vote)
        ensures
            v == self@,
    {
        self.saved
    }

    /// The bytes to write to the device so that the ballot survives a restart.
    pub fn persist(&self) -> (out: Vec<u8>)
        ensures
            out@ == encode_ballot(self@),
    {
        self.saved.encode()
    }

    /// The store as it was when `b` was written.
    pub fn recover(b: &[u8]) -> (r: Result<BallotStore, Error>)
        ensures
            match r {
                Ok(s) => decode_ballot(b@) == Some(s@),
                Err(e) => e == Error::BadLogState && decode_ballot(b@) is None,
            },
    {
        match Vote::decode(b) {
            Ok(v) => Ok(BallotStore { saved: v }),
            Err(e) => Err(e),
        }
    }
}


} // verus!
