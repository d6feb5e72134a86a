//! The single arbiter of log mutation. Every change to the retained entries
//! goes through it, so the four pointers stay consistent with the log.

use crate::clock::{Clock, Index, NodeId, Term};
use crate::command::{
    decode_command, encode_command, lemma_decode_encode_command, Command, CommandView,
};
use crate::entry::{Entry, EntryView};
use crate::error::Error;
use crate::event::{CommitEvent, KernEvent, ReplicationEvent};
use crate::log_model::{
    config_bearing, config_index_upto, entries_ok, entry_ok, is_snapshot,
    lemma_config_index_agrees, lemma_config_index_bounds,
    lemma_config_index_reaches, lemma_snapshot_index_bounds, membership_of,
    snapshot_index_within, CommandLogView,
};
use crate::log_store::LogView;
use crate::retained_log::RetainedLog;
use crate::membership::Membership;
use vstd::prelude::*;

verus! {

/// What became of an entry offered by a leader.
#[derive(Clone, Copy, Debug, PartialEq, Eq, Structural)]
pub enum InsertOutcome {
    /// The entry is in the log, or is subsumed by the snapshot.
    Inserted,
    /// The log does not hold the predecessor that the sender named.
    Inconsistent,
    /// The entry is malformed: its clocks do not follow the predecessor's.
    Rejected,
}

/// What became of a command offered by the leader itself.
#[derive(Clone, Copy, Debug, PartialEq, Eq, Structural)]
pub enum AppendOutcome {
    /// The command is in the log at this index.
    Appended(Index),
    /// A configuration change is still uncommitted; the new one was not appended.
    ConfigurationPending,
}

impl AppendOutcome {
    /// The notification that is due after the append: the replication loops
    /// are woken when the log grew.
    pub fn signal(&self) -> (r: Option<ReplicationEvent>)
        ensures
            r.is_some() == (*self is Appended),
    {
        match self {
            AppendOutcome::Appended(_) => Some(ReplicationEvent),
            AppendOutcome::ConfigurationPending => None,
        }
    }
}

/// A committed entry handed over for execution.
#[derive(Debug)]
pub struct Applied {
    pub index: Index,
    pub command: Command,
}

impl Applied {
    /// The notification that is due when the entry is handed over: the
    /// kernel loop is woken for a kernel command.
    pub fn signal(&self) -> (r: Option<KernEvent>)
        ensures
            r.is_some() == (self.command@ is Kernel),
    {
        match &self.command {
            Command::Kernel { .. } => Some(KernEvent),
            _ => None,
        }
    }
}

/// How an offered entry relates to the log it is offered to.
pub enum InsertCase {
    /// The clocks of the entry do not fit together or regress in term.
    Malformed,
    /// The entry lies at or below the snapshot.
    Subsumed,
    /// The predecessor is missing or has another clock.
    Diverged,
    /// The command does not decode.
    Undecodable,
    /// The same entry is already there.
    Present,
    /// Another entry is there and it is committed.
    CommittedConflict,
    /// Another entry is there and it is not committed.
    Replaces,
    /// Nothing is there: the entry extends the log.
    Extends,
}

/// Classifies an offered entry.
pub open spec fn insert_case(s: CommandLogView, e: EntryView, sender_prev: Clock) -> InsertCase {
    let i = e.this_clock.index as int;
    if i == 0 || e.prev_clock != sender_prev || e.prev_clock.index + 1 != i || e.this_clock.term
        < e.prev_clock.term {
        InsertCase::Malformed
    } else if i <= s.snapshot_pointer {
        InsertCase::Subsumed
    } else if !s.log.contains(i - 1) || s.log.at(i - 1).this_clock != sender_prev {
        InsertCase::Diverged
    } else if decode_command(e.command) is None {
        InsertCase::Undecodable
    } else if s.log.contains(i) {
        if s.log.at(i).this_clock == e.this_clock {
            InsertCase::Present
        } else if i <= s.commit_pointer {
            InsertCase::CommittedConflict
        } else {
            InsertCase::Replaces
        }
    } else {
        InsertCase::Extends
    }
}

/// The log after `e` took the place of everything at or above its index.
pub open spec fn with_entry(s: CommandLogView, e: EntryView) -> CommandLogView {
    let log = s.log.truncate_from(e.this_clock.index).insert(e.this_clock.index, e);
    CommandLogView {
        log,
        membership_pointer: config_index_upto(log, e.this_clock.index as int) as Index,
        ..s
    }
}

/// The log after the entry at `i` became a snapshot entry carrying `m`.
pub open spec fn with_snapshot_at(s: CommandLogView, i: Index, e: EntryView) -> CommandLogView {
    let log = s.log.insert(i, e);
    CommandLogView {
        log,
        snapshot_pointer: i,
        membership_pointer: config_index_upto(log, log.last_index()) as Index,
        ..s
    }
}

/// The log after everything committed was applied: the snapshot pointer
/// moves to the last snapshot entry among what was applied, if there is one.
pub open spec fn after_apply(s: CommandLogView) -> CommandLogView {
    let found = snapshot_index_within(s.log, s.last_applied as int, s.commit_pointer as int);
    CommandLogView {
        last_applied: s.commit_pointer,
        snapshot_pointer: if found == 0 {
            s.snapshot_pointer
        } else {
            found as Index
        },
        ..s
    }
}

/// What becomes of the application's proposal to fold the log up to
/// `proposed` into a snapshot: nothing when the snapshot pointer is there
/// already; an error when the index is beyond the log or not applied yet.
pub open spec fn proposal_result(s: CommandLogView, proposed: Index) -> Result<bool, Error> {
    if proposed <= s.snapshot_pointer {
        Ok(false)
    } else if proposed > s.log.last_index() {
        Err(Error::EntryNotFound(proposed))
    } else if proposed > s.last_applied {
        Err(Error::BadLogState)
    } else {
        Ok(true)
    }
}

/// The log after that proposal: where it was taken up, the entry at
/// `proposed` is a snapshot entry that carries the membership in force there.
pub open spec fn after_proposal(s: CommandLogView, proposed: Index) -> CommandLogView {
    if proposal_result(s, proposed) == Ok::<bool, Error>(true) {
        with_snapshot_at(
            s,
            proposed,
            EntryView {
                command: encode_command(
                    CommandView::Snapshot(s.membership_at(proposed as int)->Some_0),
                ),
                ..s.log.at(proposed as int)
            },
        )
    } else {
        s
    }
}

/// Whether the entry can stand alone at the head of a log: it is a snapshot
/// entry whose clocks fit together.
pub open spec fn snapshot_entry_ok(e: EntryView) -> bool {
    &&& is_snapshot(e)
    &&& e.this_clock.index != 0
    &&& e.prev_clock.index + 1 == e.this_clock.index
    &&& e.prev_clock.term <= e.this_clock.term
}

/// Whether the log holds an entry with the clocks of `e` at the index of `e`.
pub open spec fn holds_entry(log: LogView, e: EntryView) -> bool {
    &&& log.contains(e.this_clock.index as int)
    &&& log.at(e.this_clock.index as int).this_clock == e.this_clock
    &&& log.at(e.this_clock.index as int).prev_clock == e.prev_clock
}

/// What is handed over for the entry at index `i`.
pub open spec fn applied_at(log: LogView, i: int, a: Applied) -> bool {
    a.index == i && Some(a.command@) == decode_command(log.at(i).command) && a.command.wf()
}

/// The log that the persisted records hold: the entries in the order of the
/// records, the first at the index that its record names.
pub open spec fn recorded_log(records: Seq<(Index, Entry)>) -> LogView {
    if records.len() == 0 {
        LogView { head: 0, entries: Seq::empty() }
    } else {
        LogView { head: records[0].0, entries: Seq::new(records.len(), |k: int| records[k].1@) }
    }
}

/// Whether a command log can be restored from the records: they name
/// consecutive indexes from 1 or above, their entries are in order, and,
/// unless there are none, one of them is a snapshot entry.
pub open spec fn restorable(records: Seq<(Index, Entry)>) -> bool {
    let log = recorded_log(records);
    records.len() == 0 || {
        &&& records[0].0 >= 1
        &&& records[0].0 + records.len() - 1 <= u64::MAX
        &&& forall|k: int| 0 <= k < records.len() ==> (#[trigger] records[k]).0 == records[0].0 + k
        &&& entries_ok(log)
        &&& snapshot_index_within(log, log.head - 1, log.last_index()) != 0
    }
}

/// The command log that the records restore: what was applied is taken to be
/// what the last snapshot covers.
pub open spec fn restored(records: Seq<(Index, Entry)>) -> CommandLogView {
    let log = recorded_log(records);
    let snapshot = snapshot_index_within(log, log.head - 1, log.last_index()) as Index;
    CommandLogView {
        log,
        snapshot_pointer: snapshot,
        commit_pointer: snapshot,
        last_applied: snapshot,
        membership_pointer: config_index_upto(log, log.last_index()) as Index,
    }
}

/// Index of the last configuration-bearing entry retained at or below `i`.
fn find_config_index(store: &RetainedLog, i: Index) -> (r: Index)
    requires
        store.wf(),
        entries_ok(store@),
        i <= store@.last_index(),
    ensures
        r == config_index_upto(store@, i as int),
{
    let head: Index = store.get_head_index();
    if head == 0 {
        proof {
            lemma_config_index_bounds(store@, i as int);
        }
        return 0;
    }
    let mut j: Index = i;
    while j >= head
        invariant
            store.wf(),
            entries_ok(store@),
            head == store@.head,
            head >= 1,
            j <= i <= store@.last_index(),
            config_index_upto(store@, j as int) == config_index_upto(store@, i as int),
        decreases j,
    {
        assert(store@.contains(j as int));
        assert(entry_ok(store@, j as int));
        let e = store.peek(j);
        match Command::decode(e.command.as_slice()) {
            Ok(Command::Snapshot { .. }) => {
                return j;
            },
            Ok(Command::ClusterConfiguration { .. }) => {
                return j;
            },
            _ => {},
        }
        j = j - 1;
    }
    0
}

/// The membership carried by the entry at `i`, which must carry one.
fn read_membership(store: &RetainedLog, i: Index) -> (m: Membership)
    requires
        store.wf(),
        store@.contains(i as int),
        config_bearing(store@.at(i as int)),
    ensures
        m@ == membership_of(store@.at(i as int)),
        m.wf(),
{
    let e = store.peek(i);
    match Command::decode(e.command.as_slice()) {
        Ok(Command::Snapshot { membership }) => membership,
        Ok(Command::ClusterConfiguration { membership }) => membership,
        _ => {
            assert(false);
            Membership::new()
        },
    }
}

/// The log of a cluster of the single node `id`, as it starts: the empty
/// snapshot at index 1, committed and applied, and the configuration that
/// holds only `id` at index 2.
pub open spec fn initial_log(id: NodeId) -> CommandLogView {
    CommandLogView {
        log: LogView {
            head: 1,
            entries: seq![
                EntryView {
                    prev_clock: Clock { term: 0, index: 0 },
                    this_clock: Clock { term: 0, index: 1 },
                    command: encode_command(CommandView::Snapshot(Seq::empty())),
                },
                EntryView {
                    prev_clock: Clock { term: 0, index: 1 },
                    this_clock: Clock { term: 0, index: 2 },
                    command: encode_command(CommandView::ClusterConfiguration(seq![id])),
                },
            ],
        },
        snapshot_pointer: 1,
        commit_pointer: 1,
        last_applied: 1,
        membership_pointer: 2,
    }
}

/// The node that starts a cluster is its only member.
pub proof fn lemma_initial_log_members(id: NodeId)
    ensures
        initial_log(id).membership_at(2) == Some(seq![id]),
        initial_log(id).log.last_index() == 2,
        initial_log(id).last_clock() == (Clock { term: 0, index: 2 }),
{
    let log = initial_log(id).log;
    assert(crate::membership::strictly_ascending(seq![id]));
    assert(crate::membership::strictly_ascending(Seq::<NodeId>::empty()));
    lemma_decode_encode_command(CommandView::ClusterConfiguration(seq![id]));
    lemma_decode_encode_command(CommandView::Snapshot(Seq::empty()));
    assert(log.at(2) == log.entries[1]);
    assert(config_bearing(log.at(2)));
    assert(config_index_upto(log, 2) == 2);
}

/// A lane's command log.
#[derive(Debug)]
pub struct CommandLog {
    store: RetainedLog,
    snapshot_pointer: Index,
    commit_pointer: Index,
    last_applied: Index,
    membership_pointer: Index,
}

impl View for CommandLog {
    type V = CommandLogView;

    closed spec fn view(&self) -> CommandLogView {
        CommandLogView {
            log: self.store@,
            snapshot_pointer: self.snapshot_pointer,
            commit_pointer: self.commit_pointer,
            last_applied: self.last_applied,
            membership_pointer: self.membership_pointer,
        }
    }
}

impl CommandLog {
    /// The invariants of the log; see [`CommandLogView::wf`].
    pub open spec fn wf(&self) -> bool {
        self@.wf()
    }

    /// Every index from the snapshot pointer to the last index holds an entry.
    pub proof fn lemma_retained_above_snapshot(&self, i: int)
        requires
            self.wf(),
            self@.snapshot_pointer <= i <= self@.log.last_index(),
            self@.snapshot_pointer > 0 || i > 0,
        ensures
            self@.log.contains(i),
    {
    }

    /// The pointers are ordered as the invariants say.
    pub proof fn lemma_pointers_ordered(&self)
        requires
            self.wf(),
        ensures
            self@.snapshot_pointer <= self@.last_applied <= self@.commit_pointer
                <= self@.log.last_index(),
    {
    }

    /// The log of a node that has never been part of a cluster.
    pub fn new() -> (log: CommandLog)
        ensures
            log.wf(),
            log@.log.is_empty(),
    {
        CommandLog {
            store: RetainedLog::new(),
            snapshot_pointer: 0,
            commit_pointer: 0,
            last_applied: 0,
            membership_pointer: 0,
        }
    }

    /// Restores the log after a restart from the records that were persisted,
    /// given in index order. Everything up to the last snapshot entry counts as
    /// committed and applied; the application must load that snapshot.
    ///
    /// Records that do not form a log are refused with
    /// [`Error::BadLogState`]; see [`restorable`].
    pub fn restore(records: &Vec<(Index, Entry)>) -> (r: Result<CommandLog, Error>)
        ensures
            r.is_ok() == restorable(records@),
            r matches Ok(log) ==> log.wf() && log@ == restored(records@),
            r matches Err(e) ==> e == Error::BadLogState,
    {
        let n: usize = records.len();
        let mut store = RetainedLog::new();
        if n == 0 {
            assert(store@.entries =~= recorded_log(records@).entries);
            return Ok(
                CommandLog {
                    store,
                    snapshot_pointer: 0,
                    commit_pointer: 0,
                    last_applied: 0,
                    membership_pointer: 0,
                },
            );
        }
        let head: Index = records[0].0;
        let ghost whole = recorded_log(records@);
        if head == 0 || (n - 1) as u64 > u64::MAX - head {
            return Err(Error::BadLogState);
        }
        let mut k: usize = 0;
        let mut snapshot: Index = 0;
        while k < n
            invariant
                n == records@.len(),
                n > 0,
                head == records@[0].0,
                head >= 1,
                head + n - 1 <= u64::MAX,
                whole == recorded_log(records@),
                k <= n,
                store.wf(),
                k == 0 ==> store@.is_empty(),
                k > 0 ==> store@.head == head,
                store@.entries == whole.entries.take(k as int),
                forall|j: int| 0 <= j < k ==> (#[trigger] records@[j]).0 == head + j,
                forall|i: int| head <= i < head + k ==> entry_ok(whole, i),
                snapshot == snapshot_index_within(whole, head - 1, head + k - 1),
            decreases n - k,
        {
            let index: Index = head + k as u64;
            let ghost i = index as int;
            let stated: Index = records[k].0;
            let e: &Entry = &records[k].1;
            assert(whole.at(i) == e@);
            if stated != index {
                return Err(Error::BadLogState);
            }
            let linked: bool = k == 0 || match store.clock_at(index - 1) {
                Some(c) => c == e.prev_clock,
                None => false,
            };
            let command = Command::decode(e.command.as_slice());
            if e.this_clock.index != index || e.prev_clock.index != index - 1
                || e.prev_clock.term > e.this_clock.term || !linked || command.is_err() {
                proof {
                    assert(whole.contains(i));
                    if k > 0 {
                        assert(store@.at(i - 1) == whole.at(i - 1));
                    }
                    assert(!entry_ok(whole, i));
                }
                return Err(Error::BadLogState);
            }
            match command {
                Ok(Command::Snapshot { .. }) => {
                    snapshot = index;
                },
                _ => {},
            }
            proof {
                if k > 0 {
                    assert(store@.at(i - 1) == whole.at(i - 1));
                }
                assert(entry_ok(whole, i));
            }
            let ghost before = store@;
            let _ = store.insert_entry(index, e.duplicate());
            proof {
                assert(store@.entries =~= whole.entries.take(k + 1));
            }
            k = k + 1;
        }
        proof {
            assert(whole.entries.take(n as int) =~= whole.entries);
            assert(store@ == whole);
            assert forall|i: int| #[trigger] whole.contains(i) implies entry_ok(whole, i) by {}
        }
        if snapshot == 0 {
            return Err(Error::BadLogState);
        }
        proof {
            lemma_snapshot_index_bounds(whole, head - 1, whole.last_index());
        }
        let last: Index = store.get_last_index();
        let membership_pointer = find_config_index(&store, last);
        Ok(
            CommandLog {
                store,
                snapshot_pointer: snapshot,
                commit_pointer: snapshot,
                last_applied: snapshot,
                membership_pointer,
            },
        )
    }

    /// Index of the lowest entry still backed by a snapshot.
    pub fn snapshot_pointer(&self) -> (i: Index)
        ensures
            i == self@.snapshot_pointer,
    {
        self.snapshot_pointer
    }

    /// Highest index known to be replicated on a majority.
    pub fn commit_pointer(&self) -> (i: Index)
        ensures
            i == self@.commit_pointer,
    {
        self.commit_pointer
    }

    /// Highest index whose command was handed over for execution.
    pub fn last_applied(&self) -> (i: Index)
        ensures
            i == self@.last_applied,
    {
        self.last_applied
    }

    /// Index of the most recent configuration-bearing entry.
    pub fn membership_pointer(&self) -> (i: Index)
        ensures
            i == self@.membership_pointer,
    {
        self.membership_pointer
    }

    /// Index of the first retained entry; 0 for an empty log.
    pub fn get_log_head_index(&self) -> (i: Index)
        requires
            self.wf(),
        ensures
            i == self@.log.head_index(),
    {
        self.store.get_head_index()
    }

    /// Index of the last retained entry; 0 for an empty log.
    pub fn get_log_last_index(&self) -> (i: Index)
        requires
            self.wf(),
        ensures
            i == self@.log.last_index(),
    {
        self.store.get_last_index()
    }

    /// The clock of the last retained entry, or the zero clock for an empty log.
    pub fn last_clock(&self) -> (c: Clock)
        requires
            self.wf(),
        ensures
            c == self@.last_clock(),
    {
        let last: Index = self.store.get_last_index();
        match self.store.clock_at(last) {
            Some(c) => c,
            None => Clock { term: 0, index: 0 },
        }
    }

    /// A copy of the entry at index `i`.
    pub fn get_entry(&self, i: Index) -> (r: Result<Entry, Error>)
        requires
            self.wf(),
        ensures
            match r {
                Ok(e) => self@.log.contains(i as int) && e@ == self@.log.at(i as int),
                Err(err) => !self@.log.contains(i as int) && err == Error::EntryNotFound(i),
            },
    {
        match self.store.get_entry(i) {
            Some(e) => Ok(e),
            None => Err(Error::EntryNotFound(i)),
        }
    }

    /// The clock of the entry at index `i`.
    pub fn clock_at(&self, i: Index) -> (r: Option<Clock>)
        requires
            self.wf(),
        ensures
            r == if self@.log.contains(i as int) {
                Some(self@.log.at(i as int).this_clock)
            } else {
                None
            },
    {
        self.store.clock_at(i)
    }

    /// Starts a cluster of one: writes the initial snapshot at index 1 and the
    /// configuration that holds only `self_id` at index 2. Refused with
    /// [`Error::BadLogState`] when the log already holds entries.
    pub fn init_cluster(&mut self, self_id: NodeId) -> (r: Result<(), Error>)
        requires
            old(self).wf(),
        ensures
            final(self).wf(),
            old(self)@.pointers_not_after(final(self)@),
            old(self)@.membership_pointer <= final(self)@.membership_pointer,
            r.is_ok() == old(self)@.log.is_empty(),
            r matches Err(e) ==> e == Error::BadLogState && final(self)@ == old(self)@,
            r.is_ok() ==> final(self)@ == initial_log(self_id),
    {
        if self.store.get_last_index() != 0 {
            return Err(Error::BadLogState);
        }
        let mut members = Membership::new();
        members.insert(self_id);
        proof {
            assert(members.members() =~= set![self_id]);
            crate::membership::lemma_ascending_len_is_cardinality(members@);
            assert(members@.len() == 1);
            assert(members@.contains(members@[0]));
            assert(members.members().contains(members@[0]));
            assert(members@ =~= seq![self_id]);
        }
        let first = Entry {
            prev_clock: Clock { term: 0, index: 0 },
            this_clock: Clock { term: 0, index: 1 },
            command: (Command::Snapshot { membership: Membership::new() }).encode(),
        };
        let second = Entry {
            prev_clock: Clock { term: 0, index: 1 },
            this_clock: Clock { term: 0, index: 2 },
            command: (Command::ClusterConfiguration { membership: members }).encode(),
        };
        let _ = self.store.insert_entry(1, first);
        let _ = self.store.insert_entry(2, second);
        self.snapshot_pointer = 1;
        self.commit_pointer = 1;
        self.last_applied = 1;
        self.membership_pointer = 2;
        proof {
            let log = self.store@;
            assert(log.entries.len() == 2);
            assert forall|i: int| #[trigger] log.contains(i) implies entry_ok(log, i) by {
                assert(i == 1 || i == 2);
            }
            assert(config_index_upto(log, 2) == 2);
            assert(log.entries =~= initial_log(self_id).log.entries);
        }
        Ok(())
    }

    /// Appends a command of the leader's own under `term`. The new entry takes
    /// the index after the last one and names the last entry as its predecessor.
    ///
    /// A configuration change is not appended while an earlier one is
    /// uncommitted. Refused with [`Error::BadLogState`]: an empty log, a
    /// snapshot command, a term older than that of the last entry, and a log
    /// whose indexes are used up.
    pub fn append_new_entry(&mut self, command: &Command, term: Term) -> (r: Result<
        AppendOutcome,
        Error,
    >)
        requires
            old(self).wf(),
            command.wf(),
        ensures
            final(self).wf(),
            old(self)@.pointers_not_after(final(self)@),
            old(self)@.membership_pointer <= final(self)@.membership_pointer,
            r == if old(self)@.log.is_empty() || old(self)@.log.last_index() == u64::MAX
                || command@ is Snapshot || term < old(self)@.last_clock().term {
                Err::<AppendOutcome, Error>(Error::BadLogState)
            } else if command@ is ClusterConfiguration
                && old(self)@.membership_pointer > old(self)@.commit_pointer {
                Ok(AppendOutcome::ConfigurationPending)
            } else {
                Ok(AppendOutcome::Appended((old(self)@.log.last_index() + 1) as u64))
            },
            r matches Ok(AppendOutcome::Appended(i)) ==> {
                &&& final(self)@.log == old(self)@.log.insert(
                    i,
                    EntryView {
                        prev_clock: old(self)@.last_clock(),
                        this_clock: Clock { term, index: i },
                        command: crate::command::encode_command(command@),
                    },
                )
                &&& final(self)@.snapshot_pointer == old(self)@.snapshot_pointer
                &&& final(self)@.commit_pointer == old(self)@.commit_pointer
                &&& final(self)@.last_applied == old(self)@.last_applied
                &&& final(self)@.membership_pointer == if command@ is ClusterConfiguration {
                    i
                } else {
                    old(self)@.membership_pointer
                }
            },
            !(r matches Ok(AppendOutcome::Appended(_))) ==> final(self)@ == old(self)@,
    {
        let last: Index = self.store.get_last_index();
        if last == 0 || last == u64::MAX {
            return Err(Error::BadLogState);
        }
        let is_config: bool = match command {
            Command::Snapshot { .. } => {
                return Err(Error::BadLogState);
            },
            Command::ClusterConfiguration { .. } => true,
            _ => false,
        };
        let prev_clock: Clock = self.last_clock();
        if term < prev_clock.term {
            return Err(Error::BadLogState);
        }
        if is_config && self.membership_pointer > self.commit_pointer {
            return Ok(AppendOutcome::ConfigurationPending);
        }
        let index: Index = last + 1;
        let entry = Entry {
            prev_clock,
            this_clock: Clock { term, index },
            command: command.encode(),
        };
        let ghost before = self.store@;
        let ghost e = entry@;
        assert(before.contains(last as int));
        assert(entry_ok(before, last as int));
        let _ = self.store.insert_entry(index, entry);
        if is_config {
            self.membership_pointer = index;
        }
        proof {
            let log = self.store@;
            assert(log.entries =~= before.entries.push(e));
            assert forall|i: int| #[trigger] log.contains(i) implies entry_ok(log, i) by {
                if i <= last {
                    assert(before.contains(i));
                    assert(entry_ok(before, i));
                }
            }
            assert(log.at(self.snapshot_pointer as int) == before.at(self.snapshot_pointer as int));
            if !is_config {
                assert(!config_bearing(e));
                lemma_config_index_agrees(before, log, last as int);
            }
        }
        Ok(AppendOutcome::Appended(index))
    }

    /// Offers an entry received from a leader, together with the clock that the
    /// sender names as the entry's predecessor.
    ///
    /// The entry is inserted when the predecessor is retained with that clock.
    /// An entry that is already there is left alone; an uncommitted entry with
    /// another clock is replaced together with everything after it. Replacing a
    /// committed entry, like an entry whose command does not decode, is refused
    /// with [`Error::BadLogState`]. An entry at or below the snapshot counts as
    /// inserted and changes nothing.
    pub fn try_insert_entry(&mut self, entry: Entry, sender_prev_clock: Clock) -> (r: Result<
        InsertOutcome,
        Error,
    >)
        requires
            old(self).wf(),
        ensures
            final(self).wf(),
            old(self)@.pointers_not_after(final(self)@),
            old(self)@.membership_pointer < entry@.this_clock.index
                ==> old(self)@.membership_pointer <= final(self)@.membership_pointer,
            r == match insert_case(old(self)@, entry@, sender_prev_clock) {
                InsertCase::Malformed => Ok::<InsertOutcome, Error>(InsertOutcome::Rejected),
                InsertCase::Diverged => Ok(InsertOutcome::Inconsistent),
                InsertCase::Undecodable => Err(Error::BadLogState),
                InsertCase::CommittedConflict => Err(Error::BadLogState),
                _ => Ok(InsertOutcome::Inserted),
            },
            final(self)@ == match insert_case(old(self)@, entry@, sender_prev_clock) {
                InsertCase::Replaces => with_entry(old(self)@, entry@),
                InsertCase::Extends => with_entry(old(self)@, entry@),
                _ => old(self)@,
            },
    {
        let index: Index = entry.this_clock.index;
        if index == 0 || !(entry.prev_clock == sender_prev_clock) || entry.prev_clock.index
            != index - 1 || entry.this_clock.term < entry.prev_clock.term {
            return Ok(InsertOutcome::Rejected);
        }
        if index <= self.snapshot_pointer {
            return Ok(InsertOutcome::Inserted);
        }
        match self.store.clock_at(index - 1) {
            Some(c) => {
                if !(c == sender_prev_clock) {
                    return Ok(InsertOutcome::Inconsistent);
                }
            },
            None => {
                return Ok(InsertOutcome::Inconsistent);
            },
        }
        if Command::decode(entry.command.as_slice()).is_err() {
            return Err(Error::BadLogState);
        }
        let ghost before = self.store@;
        let ghost e = entry@;
        match self.store.clock_at(index) {
            Some(c) => {
                if c == entry.this_clock {
                    return Ok(InsertOutcome::Inserted);
                }
                if index <= self.commit_pointer {
                    return Err(Error::BadLogState);
                }
                self.store.truncate_from(index);
            },
            None => {},
        }
        let ghost cut = self.store@;
        assert(cut == before.truncate_from(index));
        assert(cut.entries =~= before.entries.take(index - before.head));
        let _ = self.store.insert_entry(index, entry);
        proof {
            let log = self.store@;
            assert(log.entries =~= cut.entries.push(e));
            assert forall|i: int| #[trigger] log.contains(i) implies entry_ok(log, i) by {
                if i < index {
                    assert(before.contains(i));
                    assert(entry_ok(before, i));
                }
            }
            assert(log.at(self.snapshot_pointer as int) == before.at(self.snapshot_pointer as int));
            lemma_config_index_bounds(log, index as int);
        }
        let ghost old_pointer = self.membership_pointer;
        self.membership_pointer = find_config_index(&self.store, index);
        proof {
            let log = self.store@;
            if old_pointer < index {
                lemma_config_index_bounds(before, before.last_index());
                if old_pointer >= 1 {
                    assert(log.at(old_pointer as int) == before.at(old_pointer as int));
                    lemma_config_index_reaches(log, index as int, old_pointer as int);
                }
            }
        }
        Ok(InsertOutcome::Inserted)
    }

    /// Moves the commit pointer up to `new_commit`, but never beyond the last
    /// entry and never backwards. Reports whether it moved.
    pub fn advance_commit_pointer(&mut self, new_commit: Index) -> (r: Option<CommitEvent>)
        requires
            old(self).wf(),
        ensures
            final(self).wf(),
            final(self)@ == (CommandLogView {
                commit_pointer: if new_commit <= old(self)@.commit_pointer {
                    old(self)@.commit_pointer
                } else if new_commit <= old(self)@.log.last_index() {
                    new_commit
                } else {
                    old(self)@.log.last_index() as Index
                },
                ..old(self)@
            }),
            r.is_some() == (final(self)@.commit_pointer > old(self)@.commit_pointer),
            old(self)@.pointers_not_after(final(self)@),
    {
        let last: Index = self.store.get_last_index();
        let target: Index = if new_commit <= last {
            new_commit
        } else {
            last
        };
        if target > self.commit_pointer {
            self.commit_pointer = target;
            Some(CommitEvent)
        } else {
            None
        }
    }

    /// Hands over, in index order, every entry that is committed and was not
    /// handed over before. A snapshot entry among them moves the snapshot
    /// pointer to its index.
    pub fn advance_last_applied(&mut self) -> (out: Vec<Applied>)
        requires
            old(self).wf(),
        ensures
            final(self).wf(),
            final(self)@ == after_apply(old(self)@),
            old(self)@.pointers_not_after(final(self)@),
            out@.len() == old(self)@.commit_pointer - old(self)@.last_applied,
            forall|k: int|
                0 <= k < out@.len() ==> applied_at(
                    old(self)@.log,
                    old(self)@.last_applied + 1 + k,
                    #[trigger] out@[k],
                ),
    {
        let mut out: Vec<Applied> = Vec::new();
        let from: Index = self.last_applied;
        let upto: Index = self.commit_pointer;
        let ghost start = self@;
        let mut done: Index = from;
        let mut snapshot: Index = self.snapshot_pointer;
        while done < upto
            invariant
                self.wf(),
                self@ == start,
                from == start.last_applied,
                upto == start.commit_pointer,
                from <= done <= upto,
                out@.len() == done - from,
                forall|k: int| 0 <= k < out@.len()
                    ==> applied_at(start.log, from + 1 + k, #[trigger] out@[k]),
                snapshot == if snapshot_index_within(start.log, from as int, done as int) == 0 {
                    start.snapshot_pointer
                } else {
                    snapshot_index_within(start.log, from as int, done as int) as Index
                },
            decreases upto - done,
        {
            let index: Index = done + 1;
            assert(start.log.contains(index as int));
            assert(entry_ok(start.log, index as int));
            let e = self.store.peek(index);
            match Command::decode(e.command.as_slice()) {
                Ok(command) => {
                    match command {
                        Command::Snapshot { .. } => {
                            snapshot = index;
                        },
                        _ => {},
                    }
                    out.push(Applied { index, command });
                },
                Err(_) => {
                    assert(false);
                },
            }
            done = index;
        }
        proof {
            lemma_snapshot_index_bounds(start.log, from as int, upto as int);
        }
        self.last_applied = upto;
        self.snapshot_pointer = snapshot;
        out
    }

    /// The membership in force at index `i`: the one carried by the last
    /// snapshot or configuration entry retained at or below `i`.
    pub fn try_read_membership(&self, i: Index) -> (r: Option<Membership>)
        requires
            self.wf(),
        ensures
            r.is_some() == self@.membership_at(i as int).is_some(),
            r matches Some(m) ==> Some(m@) == self@.membership_at(i as int) && m.wf(),
    {
        let last: Index = self.store.get_last_index();
        let upto: Index = if i > last {
            last
        } else {
            i
        };
        let at: Index = find_config_index(&self.store, upto);
        if at == 0 {
            None
        } else {
            proof {
                lemma_config_index_bounds(self.store@, upto as int);
            }
            Some(read_membership(&self.store, at))
        }
    }

    /// Takes the application's proposal for a new snapshot point. When it lies
    /// above the snapshot pointer, the entry at that index is rewritten into a
    /// snapshot entry that keeps its clocks and carries the membership in force
    /// there, and the snapshot pointer moves to it. Reports whether it moved.
    ///
    /// A proposal beyond the log fails with [`Error::EntryNotFound`]; one beyond
    /// what was applied fails with [`Error::BadLogState`].
    pub fn advance_snapshot_index(&mut self, proposed: Index) -> (r: Result<bool, Error>)
        requires
            old(self).wf(),
        ensures
            final(self).wf(),
            old(self)@.pointers_not_after(final(self)@),
            old(self)@.membership_pointer <= final(self)@.membership_pointer,
            r == proposal_result(old(self)@, proposed),
            final(self)@ == after_proposal(old(self)@, proposed),
    {
        if proposed <= self.snapshot_pointer {
            return Ok(false);
        }
        if proposed > self.store.get_last_index() {
            return Err(Error::EntryNotFound(proposed));
        }
        if proposed > self.last_applied {
            return Err(Error::BadLogState);
        }
        let ghost before = self.store@;
        let ghost sp = self.snapshot_pointer;
        proof {
            assert(config_bearing(before.at(sp as int)));
            lemma_config_index_reaches(before, proposed as int, sp as int);
            lemma_config_index_bounds(before, proposed as int);
        }
        let at: Index = find_config_index(&self.store, proposed);
        let membership = read_membership(&self.store, at);
        let existing = self.store.peek(proposed);
        assert(before.contains(proposed as int));
        assert(entry_ok(before, proposed as int));
        let entry = Entry {
            prev_clock: existing.prev_clock,
            this_clock: existing.this_clock,
            command: (Command::Snapshot { membership }).encode(),
        };
        let ghost e = entry@;
        let _ = self.store.insert_entry(proposed, entry);
        self.snapshot_pointer = proposed;
        proof {
            let log = self.store@;
            assert(log.entries =~= before.entries.update(proposed - before.head, e));
            assert forall|i: int| #[trigger] log.contains(i) implies entry_ok(log, i) by {
                assert(before.contains(i));
                assert(entry_ok(before, i));
            }
            lemma_config_index_bounds(log, log.last_index());
            lemma_config_index_bounds(before, before.last_index());
            lemma_config_index_reaches(log, log.last_index(), proposed as int);
            let old_pointer = self.membership_pointer as int;
            if old_pointer > proposed {
                assert(log.at(old_pointer) == before.at(old_pointer));
                lemma_config_index_reaches(log, log.last_index(), old_pointer);
            }
        }
        self.membership_pointer = find_config_index(&self.store, self.store.get_last_index());
        Ok(true)
    }

    /// Drops the entries below the snapshot pointer. Returns the snapshot
    /// pointer: application snapshots taken before it are no longer needed.
    pub fn run_gc(&mut self) -> (reclaim_before: Index)
        requires
            old(self).wf(),
        ensures
            final(self).wf(),
            final(self)@ == (CommandLogView {
                log: old(self)@.log.delete_before(old(self)@.snapshot_pointer),
                ..old(self)@
            }),
            final(self)@.log.head_index() == old(self)@.snapshot_pointer,
            old(self)@.pointers_not_after(final(self)@),
            reclaim_before == old(self)@.snapshot_pointer,
    {
        let ghost before = self.store@;
        self.store.delete_entries_before(self.snapshot_pointer);
        proof {
            let log = self.store@;
            if !before.is_empty() {
                assert forall|i: int| #[trigger] log.contains(i) implies entry_ok(log, i) by {
                    assert(before.contains(i));
                    assert(entry_ok(before, i));
                }
                let sp = self.snapshot_pointer as int;
                assert(config_bearing(before.at(sp)));
                lemma_config_index_reaches(before, before.last_index(), sp);
                lemma_config_index_agrees(before, log, before.last_index());
            }
        }
        self.snapshot_pointer
    }

    /// Takes a snapshot entry received from the leader, after the snapshot
    /// itself was saved. Reports whether the entry was installed.
    ///
    /// When the log holds an entry of the same clocks at the entry's index, the
    /// log is consistent with the snapshot: that entry becomes the snapshot
    /// entry and what follows it is kept. Otherwise everything retained is
    /// dropped and the snapshot entry is all that the log holds. Either way the
    /// snapshot, commit and applied pointers move to the entry's index.
    ///
    /// An entry at or below the commit pointer is already subsumed and changes
    /// nothing. An entry that is no snapshot entry, or whose clocks do not fit
    /// together or regress in term, is refused with [`Error::BadLogState`].
    pub fn install_snapshot(&mut self, entry: Entry) -> (r: Result<bool, Error>)
        requires
            old(self).wf(),
        ensures
            final(self).wf(),
            old(self)@.pointers_not_after(final(self)@),
            old(self)@.membership_pointer <= entry@.this_clock.index
                ==> old(self)@.membership_pointer <= final(self)@.membership_pointer,
            r == if !snapshot_entry_ok(entry@) {
                Err::<bool, Error>(Error::BadLogState)
            } else {
                Ok(entry@.this_clock.index > old(self)@.commit_pointer)
            },
            final(self)@ == if r != Ok::<bool, Error>(true) {
                old(self)@
            } else if holds_entry(old(self)@.log, entry@) {
                CommandLogView {
                    commit_pointer: entry@.this_clock.index,
                    last_applied: entry@.this_clock.index,
                    ..with_snapshot_at(old(self)@, entry@.this_clock.index, entry@)
                }
            } else {
                CommandLogView {
                    log: LogView { head: entry@.this_clock.index, entries: seq![entry@] },
                    snapshot_pointer: entry@.this_clock.index,
                    commit_pointer: entry@.this_clock.index,
                    last_applied: entry@.this_clock.index,
                    membership_pointer: entry@.this_clock.index,
                }
            },
    {
        let index: Index = entry.this_clock.index;
        let is_snapshot_entry: bool = match Command::decode(entry.command.as_slice()) {
            Ok(Command::Snapshot { .. }) => true,
            _ => false,
        };
        if !is_snapshot_entry || index == 0 || entry.prev_clock.index != index - 1
            || entry.this_clock.term < entry.prev_clock.term {
            return Err(Error::BadLogState);
        }
        if index <= self.commit_pointer {
            return Ok(false);
        }
        let ghost e = entry@;
        let ghost before = self.store@;
        let consistent: bool = self.store.has_entry(index) && self.store.peek(index).this_clock
            == entry.this_clock && self.store.peek(index).prev_clock == entry.prev_clock;
        if consistent {
            proof {
                assert(before.contains(index as int));
                assert(entry_ok(before, index as int));
            }
            let _ = self.store.insert_entry(index, entry);
            self.snapshot_pointer = index;
            self.commit_pointer = index;
            self.last_applied = index;
            proof {
                let log = self.store@;
                assert(log.entries =~= before.entries.update(index - before.head, e));
                assert forall|i: int| #[trigger] log.contains(i) implies entry_ok(log, i) by {
                    assert(before.contains(i));
                    assert(entry_ok(before, i));
                }
                lemma_config_index_bounds(before, before.last_index());
                lemma_config_index_reaches(log, log.last_index(), index as int);
                let old_pointer = self.membership_pointer as int;
                if old_pointer > index {
                    assert(log.at(old_pointer) == before.at(old_pointer));
                    lemma_config_index_reaches(log, log.last_index(), old_pointer);
                }
            }
            self.membership_pointer = find_config_index(&self.store, self.store.get_last_index());
        } else {
            self.store.reset(index, entry);
            self.snapshot_pointer = index;
            self.commit_pointer = index;
            self.last_applied = index;
            self.membership_pointer = index;
            proof {
                let log = self.store@;
                assert forall|i: int| #[trigger] log.contains(i) implies entry_ok(log, i) by {
                    assert(i == index);
                }
            }
        }
        Ok(true)
    }
}

} // verus!
