//! Log entries and their persisted form.

use crate::clock::Clock;
use crate::wire::{
    copy_bytes, get_u64, lemma_bytes_round_trip, lemma_u64_round_trip, put_tail, put_u64,
    same_bytes, u64_at, u64_bytes,
};
use vstd::prelude::*;

verus! {

/// One record of the replicated log. `prev_clock` names the entry that precedes
/// this one, which lets a receiver detect that its log has diverged.
#[derive(Debug)]
pub struct Entry {
    pub prev_clock: Clock,
    pub this_clock: Clock,
    pub command: Vec<u8>,
}

/// The mathematical content of an [`Entry`].
pub struct EntryView {
    pub prev_clock: Clock,
    pub this_clock: Clock,
    pub command: Seq<u8>,
}

impl View for Entry {
    type V = EntryView;

    open spec fn view(&self) -> EntryView {
        EntryView {
            prev_clock: self.prev_clock,
            this_clock: self.this_clock,
            command: self.command@,
        }
    }
}

/// The number of bytes that the two clocks take at the front of an encoded entry.
pub const ENTRY_HEADER_LEN: usize = 32;

/// An entry on disk: both clocks as four numbers, then the command.
pub open spec fn encode_entry(e: EntryView) -> Seq<u8> {
    u64_bytes(e.prev_clock.term) + u64_bytes(e.prev_clock.index) + u64_bytes(e.this_clock.term)
        + u64_bytes(e.this_clock.index) + e.command
}

/// The entry that `b` stands for, if it is long enough to hold the clocks.
pub open spec fn decode_entry(b: Seq<u8>) -> Option<EntryView> {
    if b.len() < 32 {
        None
    } else {
        Some(
            EntryView {
                prev_clock: Clock { term: u64_at(b, 0), index: u64_at(b, 8) },
                this_clock: Clock { term: u64_at(b, 16), index: u64_at(b, 24) },
                command: b.skip(32),
            },
        )
    }
}

/// Decoding an encoded entry gives the entry back.
pub proof fn lemma_decode_encode_entry(e: EntryView)
    ensures
        decode_entry(encode_entry(e)) == Some(e),
{
    let b = encode_entry(e);
    lemma_u64_round_trip(e.prev_clock.term);
    lemma_u64_round_trip(e.prev_clock.index);
    lemma_u64_round_trip(e.this_clock.term);
    lemma_u64_round_trip(e.this_clock.index);
    assert(b.subrange(0, 8) =~= u64_bytes(e.prev_clock.term));
    assert(b.subrange(8, 16) =~= u64_bytes(e.prev_clock.index));
    assert(b.subrange(16, 24) =~= u64_bytes(e.this_clock.term));
    assert(b.subrange(24, 32) =~= u64_bytes(e.this_clock.index));
    assert(b.skip(32) =~= e.command);
}

/// Encoding a decoded entry gives the bytes back.
pub proof fn lemma_encode_decode_entry(b: Seq<u8>)
    requires
        decode_entry(b) is Some,
    ensures
        encode_entry(decode_entry(b)->Some_0) == b,
{
    lemma_bytes_round_trip(b.subrange(0, 8));
    lemma_bytes_round_trip(b.subrange(8, 16));
    lemma_bytes_round_trip(b.subrange(16, 24));
    lemma_bytes_round_trip(b.subrange(24, 32));
    assert(encode_entry(decode_entry(b)->Some_0) =~= b.subrange(0, 8) + b.subrange(8, 16)
        + b.subrange(16, 24) + b.subrange(24, 32) + b.skip(32));
    assert(b =~= b.subrange(0, 8) + b.subrange(8, 16) + b.subrange(16, 24) + b.subrange(24, 32)
        + b.skip(32));
}

impl Entry {
    /// A copy of this entry.
    pub fn duplicate(&self) -> (e: Entry)
        ensures
            e@ == self@,
    {
        Entry {
            prev_clock: self.prev_clock,
            this_clock: self.this_clock,
            command: copy_bytes(&self.command),
        }
    }

    /// Whether both entries hold the same clocks and the same command.
    pub fn same_as(&self, other: &Entry) -> (b: bool)
        ensures
            b == (self@ == other@),
    {
        self.prev_clock == other.prev_clock && self.this_clock == other.this_clock && same_bytes(
            &self.command,
            &other.command,
        )
    }

    /// The persisted form of this entry.
    pub fn encode(&self) -> (out: Vec<u8>)
        ensures
            out@ == encode_entry(self@),
            decode_entry(out@) == Some(self@),
    {
        let mut out: Vec<u8> = Vec::new();
        put_u64(&mut out, self.prev_clock.term);
        put_u64(&mut out, self.prev_clock.index);
        put_u64(&mut out, self.this_clock.term);
        put_u64(&mut out, self.this_clock.index);
        put_tail(&mut out, self.command.as_slice(), 0);
        proof {
            assert(self.command@.skip(0) =~= self.command@);
            assert(out@ =~= encode_entry(self@));
            lemma_decode_encode_entry(self@);
        }
        out
    }

    /// The entry persisted as `b`; `None` when `b` is too short to hold the clocks.
    pub fn decode(b: &[u8]) -> (r: Option<Entry>)
        ensures
            r.is_some() == decode_entry(b@).is_some(),
            r matches Some(e) ==> Some(e@) == decode_entry(b@) && encode_entry(e@) == b@,
    {
        if b.len() < ENTRY_HEADER_LEN {
            return None;
        }
        let prev_clock = Clock { term: get_u64(b, 0), index: get_u64(b, 8) };
        let this_clock = Clock { term: get_u64(b, 16), index: get_u64(b, 24) };
        let mut command: Vec<u8> = Vec::new();
        put_tail(&mut command, b, ENTRY_HEADER_LEN);
        proof {
            assert(command@ =~= b@.skip(32));
            lemma_encode_decode_entry(b@);
        }
        Some(Entry { prev_clock, this_clock, command })
    }
}

} // verus!
