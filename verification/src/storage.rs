//! The layout in which a lane is persisted: three namespaces of key-value
//! records. Entries are kept under their index keys, the ballot under one
//! fixed key, snapshot tags under index keys of their own.

use crate::ballot::{decode_ballot, encode_ballot, Vote};
use crate::clock::Index;
use crate::entry::{decode_entry, encode_entry, Entry, EntryView};
use crate::error::Error;
use crate::index_key::{index_key, key_index};
use crate::wire::{u64_at, u64_bytes};
use vstd::prelude::*;
use vstd::slice::slice_to_vec;
use vstd::string::StringSliceAdditionalSpecFns;

verus! {

/// Name of the namespace that maps indexes to entries.
pub const CF_ENTRIES: &'static str = "entries";

/// Name of the namespace that maps indexes to snapshot tags.
pub const CF_TAGS: &'static str = "tags";

/// Name of the namespace that holds the ballot.
pub const CF_CTRL: &'static str = "ctrl";

/// Key of the ballot in its namespace.
pub const BALLOT: &'static str = "ballot";

/// Name of the order that the entries' namespace is sorted by; see
/// [`crate::index_key::comparator_fn`].
pub const CMP: &'static str = "index_asc";

/// One of the three namespaces.
#[derive(Clone, Copy, Debug, PartialEq, Eq, Structural)]
pub enum Namespace {
    Entries,
    Tags,
    Ctrl,
}

impl Namespace {
    /// The name under which the storage engine knows the namespace.
    pub fn name(&self) -> (s: &'static str)
        ensures
            s@ == match self {
                Namespace::Entries => CF_ENTRIES@,
                Namespace::Tags => CF_TAGS@,
                Namespace::Ctrl => CF_CTRL@,
            },
    {
        match self {
            Namespace::Entries => CF_ENTRIES,
            Namespace::Tags => CF_TAGS,
            Namespace::Ctrl => CF_CTRL,
        }
    }
}

/// One key-value pair to write.
#[derive(Debug)]
pub struct Record {
    pub namespace: Namespace,
    pub key: Vec<u8>,
    pub value: Vec<u8>,
}

/// The mathematical content of a [`Record`].
pub struct RecordView {
    pub namespace: Namespace,
    pub key: Seq<u8>,
    pub value: Seq<u8>,
}

impl View for Record {
    type V = RecordView;

    open spec fn view(&self) -> RecordView {
        RecordView { namespace: self.namespace, key: self.key@, value: self.value@ }
    }
}

/// The contents of each record of `s`.
pub open spec fn record_views(s: Seq<Record>) -> Seq<RecordView> {
    Seq::new(s.len(), |k: int| s[k]@)
}

/// The record that persists the ballot `v`.
pub open spec fn ballot_record_of(v: Vote) -> RecordView {
    RecordView { namespace: Namespace::Ctrl, key: BALLOT.spec_bytes(), value: encode_ballot(v) }
}

/// The record that persists the entry `e` at index `i`.
pub open spec fn entry_record_of(i: Index, e: EntryView) -> RecordView {
    RecordView { namespace: Namespace::Entries, key: u64_bytes(i), value: encode_entry(e) }
}

/// The record that persists the tag of the snapshot at index `i`.
pub open spec fn tag_record_of(i: Index, tag: Seq<u8>) -> RecordView {
    RecordView { namespace: Namespace::Tags, key: u64_bytes(i), value: tag }
}

/// Describes where the store of a lane lives.
#[derive(Debug)]
pub struct StorageBuilder {
    path: String,
}

impl StorageBuilder {
    /// The place of the store.
    pub closed spec fn location(&self) -> Seq<char> {
        self.path@
    }

    pub fn new(path: &str) -> (b: StorageBuilder)
        ensures
            b.location() == path@,
    {
        StorageBuilder { path: path.to_owned() }
    }

    /// The place of the store.
    pub fn path(&self) -> (p: &str)
        ensures
            p@ == self.location(),
    {
        self.path.as_str()
    }

    /// What a newly created store holds: the ballot of a node that has never
    /// voted.
    pub fn initial_records(&self) -> (records: Vec<Record>)
        ensures
            records@.len() == 1,
            records@[0].namespace == Namespace::Ctrl,
            records@[0].key@ == BALLOT.spec_bytes(),
            records@[0].value@ == encode_ballot(Vote { cur_term: 0, voted_for: None }),
    {
        let mut records: Vec<Record> = Vec::new();
        records.push(ballot_record(&Vote::new()));
        records
    }
}

/// The record that persists a ballot.
pub fn ballot_record(v: &Vote) -> (r: Record)
    ensures
        r@ == ballot_record_of(*v),
        decode_ballot(r.value@) == Some(*v),
{
    Record { namespace: Namespace::Ctrl, key: slice_to_vec(BALLOT.as_bytes()), value: v.encode() }
}

/// The record that persists the entry at index `i`.
pub fn entry_record(i: Index, e: &Entry) -> (r: Record)
    ensures
        r@ == entry_record_of(i, e@),
        u64_at(r.key@, 0) == i,
        decode_entry(r.value@) == Some(e@),
{
    Record { namespace: Namespace::Entries, key: index_key(i), value: e.encode() }
}

/// The record that persists the tag of the snapshot at index `i`.
pub fn tag_record(i: Index, tag: &Vec<u8>) -> (r: Record)
    ensures
        r@ == tag_record_of(i, tag@),
        u64_at(r.key@, 0) == i,
{
    Record { namespace: Namespace::Tags, key: index_key(i), value: crate::wire::copy_bytes(tag) }
}

/// The test for an index below `limit`.
pub open spec fn is_below(limit: Index) -> spec_fn(Index) -> bool {
    |i: Index| i < limit
}

/// The tags, among those `listed`, that a snapshot at index `reclaim_before`
/// makes needless: those of the snapshots below it, in the order listed.
pub fn needless_tags(listed: &Vec<Index>, reclaim_before: Index) -> (out: Vec<Index>)
    ensures
        out@ == listed@.filter(is_below(reclaim_before)),
{
    let mut out: Vec<Index> = Vec::new();
    let n: usize = listed.len();
    let mut k: usize = 0;
    proof {
        reveal(Seq::filter);
        assert(listed@.take(0) =~= Seq::<Index>::empty());
    }
    while k < n
        invariant
            n == listed@.len(),
            k <= n,
            out@ == listed@.take(k as int).filter(is_below(reclaim_before)),
        decreases n - k,
    {
        proof {
            reveal(Seq::filter);
            assert(listed@.take(k + 1).drop_last() =~= listed@.take(k as int));
            assert(listed@.take(k + 1).last() == listed@[k as int]);
        }
        if listed[k] < reclaim_before {
            out.push(listed[k]);
        }
        k = k + 1;
    }
    assert(listed@.take(n as int) =~= listed@);
    out
}

/// The snapshot index and the tag that a record of the tags' namespace
/// holds. A key too short to be an index key is refused with
/// [`Error::BadLogState`].
pub fn parse_tag_record(key: &[u8], value: &[u8]) -> (r: Result<(Index, Vec<u8>), Error>)
    ensures
        r.is_ok() == (key@.len() >= 8),
        r matches Ok(pair) ==> pair.0 == u64_at(key@, 0) && pair.1@ == value@,
        r matches Err(e) ==> e == Error::BadLogState,
{
    match key_index(key) {
        Some(i) => Ok((i, slice_to_vec(value))),
        None => Err(Error::BadLogState),
    }
}

/// The index and the entry that a record of the entries' namespace holds.
/// A key too short to be an index key, like a value too short to be an entry,
/// is refused with [`Error::BadLogState`].
pub fn parse_entry_record(key: &[u8], value: &[u8]) -> (r: Result<(Index, Entry), Error>)
    ensures
        r.is_ok() == (key@.len() >= 8 && decode_entry(value@) is Some),
        r matches Ok(pair) ==> pair.0 == u64_at(key@, 0) && Some(pair.1@) == decode_entry(value@),
        r matches Err(e) ==> e == Error::BadLogState,
{
    let i: Index = match key_index(key) {
        Some(i) => i,
        None => {
            return Err(Error::BadLogState);
        },
    };
    match Entry::decode(value) {
        Some(e) => Ok((i, e)),
        None => Err(Error::BadLogState),
    }
}

} // verus!
