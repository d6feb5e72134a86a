//! The log store as the command log uses it: what it retains stands at
//! consecutive indexes. Writes that would leave a gap are refused here, so
//! that the store below never holds one.

use crate::clock::{Clock, Index};
use crate::entry::{Entry, EntryView};
use crate::error::Error;
use crate::log_store::{LogStore, LogView};
use crate::ordered_map::holds_nothing;
use vstd::prelude::*;

verus! {

/// A log store that retains a run of entries at consecutive indexes.
#[derive(Debug)]
pub struct RetainedLog {
    store: LogStore,
    /// The least index that holds an entry; 0 when nothing is retained.
    head: Index,
    /// The greatest index that holds an entry; 0 when nothing is retained.
    last: Index,
}

impl View for RetainedLog {
    type V = LogView;

    closed spec fn view(&self) -> LogView {
        if self.head == 0 {
            LogView { head: 0, entries: Seq::empty() }
        } else {
            LogView {
                head: self.head,
                entries: Seq::new(
                    (self.last - self.head + 1) as nat,
                    |k: int| self.store@[(self.head + k) as Index],
                ),
            }
        }
    }
}

impl RetainedLog {
    /// The store holds an entry at every index from `head` to `last` and at
    /// no other.
    #[verifier::type_invariant]
    spec fn consecutive(&self) -> bool {
        if self.head == 0 {
            self.last == 0 && holds_nothing(self.store@)
        } else {
            &&& self.head <= self.last
            &&& forall|k: Index| self.store@.contains_key(k) <==> self.head <= k <= self.last
        }
    }

    /// Indexes start at 1; see [`LogView::wf`].
    pub open spec fn wf(&self) -> bool {
        self@.wf()
    }

    /// A log that retains nothing.
    pub fn new() -> (s: RetainedLog)
        ensures
            s.wf(),
            s@.is_empty(),
            s@.head == 0,
    {
        RetainedLog { store: LogStore::new(), head: 0, last: 0 }
    }

    /// Index of the first retained entry; 0 when nothing is retained.
    pub fn get_head_index(&self) -> (i: Index)
        ensures
            self.wf(),
            i == self@.head_index(),
    {
        proof {
            use_type_invariant(&*self);
        }
        self.head
    }

    /// Index of the last retained entry; 0 when nothing is retained.
    pub fn get_last_index(&self) -> (i: Index)
        ensures
            self.wf(),
            i == self@.last_index(),
    {
        proof {
            use_type_invariant(&*self);
        }
        self.last
    }

    /// Whether an entry is retained at index `i`.
    pub fn has_entry(&self, i: Index) -> (b: bool)
        ensures
            b == self@.contains(i as int),
    {
        proof {
            use_type_invariant(&*self);
        }
        self.head != 0 && self.head <= i && i <= self.last
    }

    /// The entry retained at index `i`, which must be retained.
    pub fn peek(&self, i: Index) -> (e: &Entry)
        requires
            self@.contains(i as int),
        ensures
            e@ == self@.at(i as int),
    {
        proof {
            use_type_invariant(&*self);
        }
        self.store.peek(i).unwrap()
    }

    /// A copy of the entry retained at index `i`, if one is.
    pub fn get_entry(&self, i: Index) -> (r: Option<Entry>)
        ensures
            r.is_some() == self@.contains(i as int),
            r matches Some(e) ==> e@ == self@.at(i as int),
    {
        if self.has_entry(i) {
            Some(self.peek(i).duplicate())
        } else {
            None
        }
    }

    /// The clock of the entry retained at index `i`, if one is.
    pub fn clock_at(&self, i: Index) -> (r: Option<Clock>)
        ensures
            r == if self@.contains(i as int) {
                Some(self@.at(i as int).this_clock)
            } else {
                None
            },
    {
        if self.has_entry(i) {
            Some(self.peek(i).this_clock)
        } else {
            None
        }
    }

    /// Writes `e` at index `i`, replacing what was there. A write that would
    /// leave a gap in the retained indexes is refused and changes nothing.
    pub fn insert_entry(&mut self, i: Index, e: Entry) -> (r: Result<(), Error>)
        ensures
            final(self).wf(),
            r.is_ok() == old(self)@.accepts(i as int),
            r.is_ok() ==> final(self)@ == old(self)@.insert(i, e@),
            r matches Err(err) ==> err == Error::BadLogState && final(self)@ == old(self)@,
    {
        proof {
            use_type_invariant(&*self);
        }
        if i == 0 {
            return Err(Error::BadLogState);
        }
        if self.head != 0 && (i < self.head || (self.last < u64::MAX && i > self.last + 1)) {
            return Err(Error::BadLogState);
        }
        let ghost before = self@;
        let ghost held = self.store@;
        let mut whole = RetainedLog::new();
        std::mem::swap(&mut whole, self);
        let RetainedLog { mut store, head, last } = whole;
        let _ = store.insert_entry(i, e);
        let (head, last) = if head == 0 {
            (i, i)
        } else if i > last {
            (head, i)
        } else {
            (head, last)
        };
        *self = RetainedLog { store, head, last };
        proof {
            assert(self@.entries =~= before.insert(i, e@).entries);
        }
        Ok(())
    }

    /// Removes every entry whose index is below `i`.
    pub fn delete_entries_before(&mut self, i: Index)
        ensures
            final(self).wf(),
            final(self)@ == old(self)@.delete_before(i),
    {
        proof {
            use_type_invariant(&*self);
        }
        if self.head == 0 || i <= self.head {
            return ;
        }
        let ghost before = self@;
        let mut whole = RetainedLog::new();
        std::mem::swap(&mut whole, self);
        let RetainedLog { mut store, head, last } = whole;
        let _ = store.delete_entries_before(i);
        let (head, last) = if i > last {
            (0, 0)
        } else {
            (i, last)
        };
        *self = RetainedLog { store, head, last };
        proof {
            assert(self@.entries =~= before.delete_before(i).entries);
        }
    }

    /// Removes every entry whose index is `i` or above.
    pub fn truncate_from(&mut self, i: Index)
        ensures
            final(self).wf(),
            final(self)@ == old(self)@.truncate_from(i),
    {
        proof {
            use_type_invariant(&*self);
        }
        if self.head == 0 || i > self.last {
            return ;
        }
        let ghost before = self@;
        let mut whole = RetainedLog::new();
        std::mem::swap(&mut whole, self);
        let RetainedLog { mut store, head, last } = whole;
        let _ = store.delete_entries_from(i);
        let (head, last) = if i <= head {
            (0, 0)
        } else {
            (head, (i - 1) as Index)
        };
        *self = RetainedLog { store, head, last };
        proof {
            assert(self@.entries =~= before.truncate_from(i).entries);
        }
    }

    /// Drops everything and retains only `e`, at index `i`.
    pub fn reset(&mut self, i: Index, e: Entry)
        requires
            i >= 1,
        ensures
            final(self).wf(),
            final(self)@ == (LogView { head: i, entries: seq![e@] }),
    {
        let mut store = LogStore::new();
        let _ = store.insert_entry(i, e);
        *self = RetainedLog { store, head: i, last: i };
        proof {
            assert(self@.entries =~= seq![e@]);
        }
    }
}

} // verus!
