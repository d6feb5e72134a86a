//! The log store: an ordered map from indexes to entries that takes a write at
//! any index, and the snapshot tags kept beside it. The command log keeps the
//! indexes of what it retains consecutive; [`LogView`] describes such a run.

use crate::clock::{Clock, Index};
use crate::entry::{Entry, EntryView};
use crate::error::Error;
use crate::ordered_map::{
    below_index, from_index, greatest_key, holds_nothing, least_key, OrderedMap,
};
use std::collections::BTreeSet;
use vstd::prelude::*;

verus! {

/// A run of retained entries: the index of the first retained entry and the
/// retained entries in index order. An empty run has head 0.
pub struct LogView {
    pub head: Index,
    pub entries: Seq<EntryView>,
}

impl LogView {
    pub open spec fn is_empty(self) -> bool {
        self.entries.len() == 0
    }

    /// Index of the first retained entry; 0 when nothing is retained.
    pub open spec fn head_index(self) -> int {
        if self.is_empty() {
            0
        } else {
            self.head as int
        }
    }

    /// Index of the last retained entry; 0 when nothing is retained.
    pub open spec fn last_index(self) -> int {
        if self.is_empty() {
            0
        } else {
            self.head + self.entries.len() - 1
        }
    }

    /// Whether an entry is retained at index `i`.
    pub open spec fn contains(self, i: int) -> bool {
        !self.is_empty() && self.head <= i <= self.last_index()
    }

    /// The entry retained at index `i`.
    pub open spec fn at(self, i: int) -> EntryView
        recommends
            self.contains(i),
    {
        self.entries[i - self.head]
    }

    /// Indexes start at 1 and end within the range of `Index`.
    pub open spec fn wf(self) -> bool {
        if self.is_empty() {
            self.head == 0
        } else {
            self.head >= 1 && self.head + self.entries.len() - 1 <= u64::MAX
        }
    }

    /// Whether writing at index `i` keeps the retained indexes consecutive.
    pub open spec fn accepts(self, i: int) -> bool {
        i >= 1 && (self.is_empty() || self.head <= i <= self.last_index() + 1)
    }

    /// The store after writing `e` at index `i`.
    pub open spec fn insert(self, i: Index, e: EntryView) -> LogView
        recommends
            self.accepts(i as int),
    {
        if self.is_empty() {
            LogView { head: i, entries: seq![e] }
        } else if i == self.last_index() + 1 {
            LogView { head: self.head, entries: self.entries.push(e) }
        } else {
            LogView { head: self.head, entries: self.entries.update(i - self.head, e) }
        }
    }

    /// The store after dropping every entry whose index is below `i`.
    pub open spec fn delete_before(self, i: Index) -> LogView {
        if self.is_empty() || i <= self.head {
            self
        } else if i > self.last_index() {
            LogView { head: 0, entries: Seq::empty() }
        } else {
            LogView { head: i, entries: self.entries.skip(i - self.head) }
        }
    }

    /// The store after dropping every entry whose index is `i` or above.
    pub open spec fn truncate_from(self, i: Index) -> LogView {
        if self.is_empty() || i > self.last_index() {
            self
        } else if i <= self.head {
            LogView { head: 0, entries: Seq::empty() }
        } else {
            LogView { head: self.head, entries: self.entries.take(i - self.head) }
        }
    }
}

/// The contents of each entry of `s`.
pub open spec fn entry_views(s: Seq<Entry>) -> Seq<EntryView> {
    Seq::new(s.len(), |k: int| s[k]@)
}

/// An in-memory log store: a map from indexes to entries, ordered by index.
/// A write at any index is taken, and indexes need not be consecutive.
#[derive(Debug)]
pub struct LogStore {
    entries: OrderedMap<Entry>,
}

impl View for LogStore {
    type V = Map<Index, EntryView>;

    closed spec fn view(&self) -> Map<Index, EntryView> {
        self.entries@
    }
}

impl LogStore {
    /// A store that holds nothing.
    pub fn new() -> (s: LogStore)
        ensures
            s@ == Map::<Index, EntryView>::empty(),
    {
        LogStore { entries: OrderedMap::new() }
    }

    /// Writes `e` at index `i`, in place of what was there. Every index is
    /// taken, and no other index changes.
    pub fn insert_entry(&mut self, i: Index, e: Entry) -> (r: Result<(), Error>)
        ensures
            r == Ok::<(), Error>(()),
            final(self)@ == old(self)@.insert(i, e@),
            final(self)@.contains_key(i),
            forall|k: Index| #[trigger] old(self)@.contains_key(k) ==> final(self)@.contains_key(k),
    {
        self.entries.put(i, e);
        Ok(())
    }

    /// Removes the entry at index `i`. No other index changes.
    pub fn delete_entry(&mut self, i: Index) -> (r: Result<(), Error>)
        ensures
            r == Ok::<(), Error>(()),
            final(self)@ == old(self)@.remove(i),
    {
        self.entries.delete(i);
        Ok(())
    }

    /// Removes every entry whose index is below `i`.
    pub fn delete_entries_before(&mut self, i: Index) -> (r: Result<(), Error>)
        ensures
            r == Ok::<(), Error>(()),
            final(self)@ == from_index(old(self)@, i),
    {
        self.entries.delete_before(i);
        Ok(())
    }

    /// Removes every entry whose index is `i` or above.
    pub fn delete_entries_from(&mut self, i: Index) -> (r: Result<(), Error>)
        ensures
            r == Ok::<(), Error>(()),
            final(self)@ == below_index(old(self)@, i),
    {
        self.entries.delete_from(i);
        Ok(())
    }

    /// The entry at index `i`, if there is one.
    pub fn peek(&self, i: Index) -> (r: Option<&Entry>)
        ensures
            r.is_some() == self@.contains_key(i),
            r matches Some(e) ==> e@ == self@[i],
    {
        self.entries.get(i)
    }

    /// A copy of the entry at index `i`, if there is one.
    pub fn get_entry(&self, i: Index) -> (r: Option<Entry>)
        ensures
            r.is_some() == self@.contains_key(i),
            r matches Some(e) ==> e@ == self@[i],
    {
        match self.entries.get(i) {
            Some(e) => Some(e.duplicate()),
            None => None,
        }
    }

    /// The least index that holds an entry; 0 when the store holds nothing.
    pub fn get_head_index(&self) -> (i: Index)
        ensures
            if holds_nothing(self@) {
                i == 0
            } else {
                least_key(self@, i)
            },
    {
        self.entries.first_index()
    }

    /// The greatest index that holds an entry; 0 when the store holds nothing.
    pub fn get_last_index(&self) -> (i: Index)
        ensures
            if holds_nothing(self@) {
                i == 0
            } else {
                greatest_key(self@, i)
            },
    {
        self.entries.last_index()
    }
}

/// The tags of the snapshots that a lane keeps, by snapshot index.
#[derive(Debug)]
pub struct TagStore {
    tags: OrderedMap<Vec<u8>>,
}

impl View for TagStore {
    type V = Map<Index, Seq<u8>>;

    closed spec fn view(&self) -> Map<Index, Seq<u8>> {
        self.tags@
    }
}

impl TagStore {
    /// A store without tags.
    pub fn new() -> (s: TagStore)
        ensures
            s@ == Map::<Index, Seq<u8>>::empty(),
    {
        TagStore { tags: OrderedMap::new() }
    }

    /// Writes the tag of the snapshot at index `i`.
    pub fn put_tag(&mut self, i: Index, tag: Vec<u8>)
        ensures
            final(self)@ == old(self)@.insert(i, tag@),
    {
        self.tags.put(i, tag);
    }

    /// Removes the tag of the snapshot at index `i`.
    pub fn delete_tag(&mut self, i: Index)
        ensures
            final(self)@ == old(self)@.remove(i),
    {
        self.tags.delete(i);
    }

    /// The tag of the snapshot at index `i`, if there is one.
    pub fn get_tag(&self, i: Index) -> (r: Option<Vec<u8>>)
        ensures
            r.is_some() == self@.contains_key(i),
            r matches Some(tag) ==> tag@ == self@[i],
    {
        match self.tags.get(i) {
            Some(tag) => Some(crate::wire::copy_bytes(tag)),
            None => None,
        }
    }

    /// The indexes of the snapshots that have a tag.
    pub fn list_tags(&self) -> (out: BTreeSet<Index>)
        ensures
            out@ == self@.dom(),
    {
        broadcast use vstd::std_specs::btree::group_btree_axioms;

        let listed = self.tags.indexes();
        let n: usize = listed.len();
        let mut out: BTreeSet<Index> = BTreeSet::new();
        let mut k: usize = 0;
        while k < n
            invariant
                n == listed@.len(),
                k <= n,
                forall|i: Index| out@.contains(i) <==> exists|j: int| 0 <= j < k && listed@[j] == i,
            decreases n - k,
        {
            let ghost before = out@;
            let x: Index = listed[k];
            let _ = out.insert(x);
            proof {
                assert forall|i: Index| out@.contains(i) <==> exists|j: int|
                    0 <= j < k + 1 && listed@[j] == i by {
                    if before.contains(i) {
                        let j = choose|j: int| 0 <= j < k && listed@[j] == i;
                        assert(0 <= j < k + 1 && listed@[j] == i);
                    }
                    if i == x {
                        assert(0 <= k < k + 1 && listed@[k as int] == i);
                    }
                }
            }
            k = k + 1;
        }
        proof {
            assert forall|i: Index| out@.contains(i) == self@.dom().contains(i) by {
                if out@.contains(i) {
                    let j = choose|j: int| 0 <= j < n && listed@[j] == i;
                    assert(listed@.contains(i));
                }
                if listed@.contains(i) {
                    let j = choose|j: int| 0 <= j < listed@.len() && listed@[j] == i;
                    assert(0 <= j < n && listed@[j] == i);
                }
            }
            assert(out@ =~= self@.dom());
        }
        out
    }
}

} // verus!
