use lolraft::ballot::{BallotStore, Vote};
use lolraft::clock::Clock;
use lolraft::command::Command;
use lolraft::command_log::{AppendOutcome, CommandLog, InsertOutcome};
use lolraft::entry::Entry;
use lolraft::error::Error;
use lolraft::log_store::{LogStore, TagStore};
use lolraft::membership::{is_strictly_ascending, same_ids, Membership};
use lolraft::retained_log::RetainedLog;
use lolraft::storage::needless_tags;

fn entry(prev: (u64, u64), this: (u64, u64), command: &Command) -> Entry {
    Entry {
        prev_clock: Clock { term: prev.0, index: prev.1 },
        this_clock: Clock { term: this.0, index: this.1 },
        command: command.encode(),
    }
}

fn user(n: u8) -> Command {
    Command::User { bytes: vec![n] }
}

/// A log of one node: snapshot at 1, configuration at 2, then entries of term 1.
fn log_with(n: u64) -> CommandLog {
    let mut log = CommandLog::new();
    log.init_cluster(0).unwrap();
    for i in 0..n {
        assert_eq!(
            log.append_new_entry(&user(i as u8), 1),
            Ok(AppendOutcome::Appended(3 + i))
        );
    }
    log
}

#[test]
fn clock_order_is_lexicographic() {
    let a = Clock::new(1, 9);
    let b = Clock::new(2, 1);
    assert!(a.le(&b));
    assert!(!b.le(&a));
    assert!(Clock::new(2, 1).le(&Clock::new(2, 1)));
    assert!(Clock::new(2, 1).le(&Clock::new(2, 2)));
    assert!(!Clock::new(2, 3).le(&Clock::new(2, 2)));
    assert!(b.at_least(&a));
    assert!(!a.at_least(&b));
    assert_eq!(Clock::zero(), Clock { term: 0, index: 0 });
    assert!(Clock::zero().le(&a));
}

#[test]
fn membership_is_a_sorted_set() {
    let mut m = Membership::new();
    assert_eq!(m.len(), 0);
    assert!(m.insert(5));
    assert!(m.insert(1));
    assert!(!m.insert(5));
    assert!(m.insert(3));
    assert_eq!(m.to_vec(), vec![1, 3, 5]);
    assert!(m.contains(3));
    assert!(!m.contains(4));
    assert!(m.remove(3));
    assert!(!m.remove(3));
    assert_eq!(m.to_vec(), vec![1, 5]);
    assert_eq!(m.get(1), 5);
    assert!(Membership::from_sorted(vec![1, 2, 2]).is_none());
    assert!(Membership::from_sorted(vec![2, 1]).is_none());
    assert_eq!(Membership::from_sorted(vec![1, 2, 7]).unwrap().to_vec(), vec![1, 2, 7]);
    assert_eq!(Membership::from_ids(&vec![9, 1, 9, 4, 1]).to_vec(), vec![1, 4, 9]);
    assert!(m.same_as(&Membership::from_ids(&vec![5, 1])));
    assert!(!m.same_as(&Membership::from_ids(&vec![5, 1, 2])));
    assert!(is_strictly_ascending(&vec![]));
    assert!(is_strictly_ascending(&vec![4]));
    assert!(!is_strictly_ascending(&vec![4, 4]));
    assert!(same_ids(&vec![1, 2], &vec![1, 2]));
    assert!(!same_ids(&vec![1, 2], &vec![2, 1]));
}

#[test]
fn quorum_is_a_strict_majority() {
    let expected = [1usize, 1, 2, 2, 3, 3, 4, 4];
    let mut m = Membership::new();
    for (n, q) in expected.iter().enumerate() {
        assert_eq!(m.len(), n);
        assert_eq!(m.quorum(), *q);
        m.insert(n as u64);
    }
}

#[test]
fn test_storage() {
    let e = Entry {
        prev_clock: Clock { term: 0, index: 0 },
        this_clock: Clock { term: 0, index: 0 },
        command: Vec::new(),
    };

    // vote
    let id = 7u64;
    let mut ballots = BallotStore::new();
    assert_eq!(ballots.load_ballot(), Vote { cur_term: 0, voted_for: None });
    ballots.save_ballot(Vote { cur_term: 1, voted_for: Some(id) });
    assert_eq!(ballots.load_ballot(), Vote { cur_term: 1, voted_for: Some(id) });

    // tag
    let mut tags = TagStore::new();
    let tag: Vec<u8> = vec![];
    assert!(tags.get_tag(10).is_none());
    tags.put_tag(10, tag.clone());
    assert_eq!(tags.get_tag(10), Some(tag.clone()));

    let mut s = LogStore::new();
    assert_eq!(s.get_head_index(), 0);
    assert_eq!(s.get_last_index(), 0);
    assert!(s.get_entry(1).is_none());

    s.insert_entry(1, e.duplicate()).unwrap();
    assert_eq!(s.get_last_index(), 1);
    assert_eq!(s.get_head_index(), 1);
    s.insert_entry(2, e.duplicate()).unwrap();
    s.insert_entry(3, e.duplicate()).unwrap();
    s.insert_entry(4, e.duplicate()).unwrap();
    s.insert_entry(5, e.duplicate()).unwrap();
    assert_eq!(s.get_last_index(), 5);

    s.insert_entry(4, e.duplicate()).unwrap();
    assert_eq!(s.get_last_index(), 5);
    s.insert_entry(2, e.duplicate()).unwrap();
    assert_eq!(s.get_head_index(), 1);

    assert!(s.get_entry(1).is_some());
    s.delete_entries_before(4).unwrap();
    assert!(s.get_entry(1).is_none());
    assert!(s.get_entry(3).is_none());
    assert!(s.get_entry(4).is_some());
    assert_eq!(s.get_head_index(), 4);
    assert_eq!(s.get_last_index(), 5);
}

#[test]
fn store_orders_by_index_and_takes_any_index() {
    let e = |n: u64| entry((0, 0), (0, n), &Command::Noop);
    let mut s = LogStore::new();
    s.insert_entry(256, e(256)).unwrap();
    s.insert_entry(1, e(1)).unwrap();
    assert_eq!(s.get_last_index(), 256);
    assert_eq!(s.get_head_index(), 1);
    assert!(s.get_entry(2).is_none());
    assert_eq!(s.get_entry(256).unwrap().this_clock.index, 256);

    s.insert_entry(70000, e(70000)).unwrap();
    s.insert_entry(300, e(300)).unwrap();
    s.insert_entry(0, e(0)).unwrap();
    assert_eq!((s.get_head_index(), s.get_last_index()), (0, 70000));
    // a write changes its own index only
    s.insert_entry(300, e(301)).unwrap();
    assert_eq!(s.peek(300).unwrap().this_clock.index, 301);
    assert_eq!(s.peek(256).unwrap().this_clock.index, 256);

    // one entry is removed, wherever it stands
    s.delete_entry(256).unwrap();
    assert!(s.get_entry(256).is_none());
    assert!(s.get_entry(1).is_some() && s.get_entry(300).is_some());
    s.delete_entry(256).unwrap();
    s.delete_entry(0).unwrap();
    assert_eq!((s.get_head_index(), s.get_last_index()), (1, 70000));
    s.delete_entry(70000).unwrap();
    assert_eq!((s.get_head_index(), s.get_last_index()), (1, 300));

    s.delete_entries_before(2).unwrap();
    assert_eq!((s.get_head_index(), s.get_last_index()), (300, 300));
    s.insert_entry(400, e(400)).unwrap();
    s.delete_entries_from(400).unwrap();
    assert_eq!((s.get_head_index(), s.get_last_index()), (300, 300));
    s.delete_entries_before(u64::MAX).unwrap();
    assert_eq!((s.get_head_index(), s.get_last_index()), (0, 0));
}

#[test]
fn tags_are_kept_by_snapshot_index() {
    let listed = |tags: &TagStore| tags.list_tags().into_iter().collect::<Vec<u64>>();
    let mut tags = TagStore::new();
    assert!(tags.list_tags().is_empty());
    tags.put_tag(30, vec![3]);
    tags.put_tag(10, vec![1]);
    tags.put_tag(20, vec![2]);
    tags.put_tag(10, vec![9]);
    assert_eq!(listed(&tags), vec![10, 20, 30]);
    assert_eq!(tags.get_tag(10), Some(vec![9]));
    assert_eq!(tags.get_tag(15), None);
    tags.delete_tag(20);
    tags.delete_tag(21);
    assert_eq!(listed(&tags), vec![10, 30]);
    // a snapshot at 30 makes the tags below it needless
    for i in needless_tags(&listed(&tags), 30) {
        tags.delete_tag(i);
    }
    assert_eq!(listed(&tags), vec![30]);
    assert_eq!(tags.get_tag(30), Some(vec![3]));
    assert_eq!(needless_tags(&vec![5, 40, 7, 30], 30), vec![5, 7]);
    assert_eq!(needless_tags(&vec![5, 7], 0), Vec::<u64>::new());
}

#[test]
fn retained_log_keeps_its_indexes_consecutive() {
    let e = entry((0, 0), (0, 1), &Command::Noop);
    let mut s = RetainedLog::new();
    assert_eq!(s.insert_entry(0, e.duplicate()), Err(Error::BadLogState));
    s.insert_entry(10, e.duplicate()).unwrap();
    assert_eq!(s.insert_entry(12, e.duplicate()), Err(Error::BadLogState));
    assert_eq!(s.insert_entry(9, e.duplicate()), Err(Error::BadLogState));
    s.insert_entry(11, e.duplicate()).unwrap();
    s.insert_entry(12, e.duplicate()).unwrap();
    assert!(s.has_entry(10) && s.has_entry(12) && !s.has_entry(13) && !s.has_entry(9));
    s.truncate_from(12);
    assert_eq!(s.get_last_index(), 11);
    s.delete_entries_before(11);
    assert_eq!(s.get_head_index(), 11);
    s.truncate_from(11);
    assert_eq!((s.get_head_index(), s.get_last_index()), (0, 0));
    s.reset(40, e.duplicate());
    assert_eq!((s.get_head_index(), s.get_last_index()), (40, 40));
    s.delete_entries_before(41);
    assert_eq!((s.get_head_index(), s.get_last_index()), (0, 0));
    assert_eq!(s.clock_at(1), None);
    assert!(s.get_entry(40).is_none());
}

#[test]
fn cluster_of_one_starts_with_snapshot_and_configuration() {
    let mut log = CommandLog::new();
    assert_eq!(log.get_log_last_index(), 0);
    assert_eq!(log.last_clock(), Clock { term: 0, index: 0 });
    assert!(log.try_read_membership(0).is_none());
    log.init_cluster(4).unwrap();
    assert_eq!(log.get_log_head_index(), 1);
    assert_eq!(log.get_log_last_index(), 2);
    assert_eq!(log.snapshot_pointer(), 1);
    assert_eq!(log.commit_pointer(), 1);
    assert_eq!(log.last_applied(), 1);
    assert_eq!(log.membership_pointer(), 2);
    assert_eq!(log.try_read_membership(1).unwrap().to_vec(), Vec::<u64>::new());
    assert_eq!(log.try_read_membership(2).unwrap().to_vec(), vec![4]);
    assert_eq!(log.try_read_membership(99).unwrap().to_vec(), vec![4]);
    assert_eq!(log.last_clock(), Clock { term: 0, index: 2 });
    assert_eq!(log.init_cluster(4), Err(Error::BadLogState));
}

#[test]
fn append_stamps_term_and_next_index() {
    let mut log = log_with(0);
    assert_eq!(log.append_new_entry(&user(1), 3), Ok(AppendOutcome::Appended(3)));
    let e = log.get_entry(3).unwrap();
    assert_eq!(e.prev_clock, Clock { term: 0, index: 2 });
    assert_eq!(e.this_clock, Clock { term: 3, index: 3 });
    assert_eq!(e.command, vec![3, 1]);
    assert_eq!(log.append_new_entry(&Command::Noop, 3), Ok(AppendOutcome::Appended(4)));
    assert_eq!(log.get_entry(4).unwrap().prev_clock, Clock { term: 3, index: 3 });
    assert_eq!(log.get_entry(5).err(), Some(Error::EntryNotFound(5)));
    assert_eq!(log.commit_pointer(), 1);
}

#[test]
fn append_refusals() {
    let mut empty = CommandLog::new();
    assert_eq!(empty.append_new_entry(&Command::Noop, 1), Err(Error::BadLogState));
    let mut log = log_with(1);
    let snapshot = Command::Snapshot { membership: Membership::new() };
    assert_eq!(log.append_new_entry(&snapshot, 1), Err(Error::BadLogState));
    assert_eq!(log.append_new_entry(&Command::Noop, 0), Err(Error::BadLogState));
    assert_eq!(log.get_log_last_index(), 3);
}

#[test]
fn one_configuration_change_at_a_time() {
    let mut log = log_with(0);
    let config = |ids: Vec<u64>| Command::ClusterConfiguration {
        membership: Membership::from_ids(&ids),
    };
    // the configuration at index 2 is not committed yet
    assert_eq!(log.membership_pointer(), 2);
    assert_eq!(log.commit_pointer(), 1);
    assert_eq!(log.append_new_entry(&config(vec![0, 1]), 1), Ok(AppendOutcome::ConfigurationPending));
    assert_eq!(log.get_log_last_index(), 2);
    log.advance_commit_pointer(2);
    assert_eq!(log.append_new_entry(&config(vec![0, 1]), 1), Ok(AppendOutcome::Appended(3)));
    assert_eq!(log.membership_pointer(), 3);
    assert_eq!(log.try_read_membership(3).unwrap().to_vec(), vec![0, 1]);
    assert_eq!(log.try_read_membership(2).unwrap().to_vec(), vec![0]);
    assert_eq!(
        log.append_new_entry(&config(vec![0, 1, 2]), 1),
        Ok(AppendOutcome::ConfigurationPending)
    );
    // other commands are not held back
    assert_eq!(log.append_new_entry(&user(1), 1), Ok(AppendOutcome::Appended(4)));
    assert_eq!(log.membership_pointer(), 3);
}

#[test]
fn commit_pointer_is_monotone_and_bounded() {
    let mut log = log_with(3);
    assert_eq!(log.get_log_last_index(), 5);
    assert!(log.advance_commit_pointer(3).is_some());
    assert_eq!(log.commit_pointer(), 3);
    assert!(log.advance_commit_pointer(2).is_none());
    assert_eq!(log.commit_pointer(), 3);
    assert!(log.advance_commit_pointer(3).is_none());
    assert_eq!(log.commit_pointer(), 3);
    assert!(log.advance_commit_pointer(100).is_some());
    assert_eq!(log.commit_pointer(), 5);
    assert!(log.advance_commit_pointer(0).is_none());
    assert_eq!(log.commit_pointer(), 5);
}

#[test]
fn entries_are_applied_once_and_in_order() {
    let mut log = log_with(3);
    assert!(log.advance_last_applied().is_empty());
    log.advance_commit_pointer(4);
    let applied = log.advance_last_applied();
    let indexes: Vec<u64> = applied.iter().map(|a| a.index).collect();
    assert_eq!(indexes, vec![2, 3, 4]);
    assert!(matches!(applied[0].command, Command::ClusterConfiguration { .. }));
    assert!(matches!(&applied[1].command, Command::User { bytes } if bytes == &vec![0]));
    assert!(matches!(&applied[2].command, Command::User { bytes } if bytes == &vec![1]));
    assert_eq!(log.last_applied(), 4);
    assert!(log.advance_last_applied().is_empty());
    log.advance_commit_pointer(5);
    let applied = log.advance_last_applied();
    assert_eq!(applied.len(), 1);
    assert_eq!(applied[0].index, 5);
    assert_eq!(log.last_applied(), 5);
}

#[test]
fn follower_inserts_what_chains() {
    let mut log = log_with(0);
    let e3 = entry((0, 2), (1, 3), &user(3));
    assert_eq!(
        log.try_insert_entry(e3.duplicate(), Clock { term: 0, index: 2 }),
        Ok(InsertOutcome::Inserted)
    );
    assert_eq!(log.get_log_last_index(), 3);
    assert!(log.get_entry(3).unwrap().same_as(&e3));
    // a second time is the same as once
    assert_eq!(
        log.try_insert_entry(e3.duplicate(), Clock { term: 0, index: 2 }),
        Ok(InsertOutcome::Inserted)
    );
    assert_eq!(log.get_log_last_index(), 3);
    assert!(log.get_entry(3).unwrap().same_as(&e3));
}

#[test]
fn follower_reports_a_missing_predecessor() {
    let mut log = log_with(0);
    let e5 = entry((1, 4), (1, 5), &user(5));
    assert_eq!(
        log.try_insert_entry(e5, Clock { term: 1, index: 4 }),
        Ok(InsertOutcome::Inconsistent)
    );
    // the predecessor is there, but with another clock
    let e3 = entry((7, 2), (7, 3), &user(3));
    assert_eq!(
        log.try_insert_entry(e3, Clock { term: 7, index: 2 }),
        Ok(InsertOutcome::Inconsistent)
    );
    assert_eq!(log.get_log_last_index(), 2);
    let mut empty = CommandLog::new();
    let e1 = entry((0, 0), (1, 1), &user(1));
    assert_eq!(empty.try_insert_entry(e1, Clock::zero()), Ok(InsertOutcome::Inconsistent));
}

#[test]
fn follower_rejects_malformed_entries() {
    let mut log = log_with(0);
    let prev = Clock { term: 0, index: 2 };
    // the entry disagrees with the sender about its predecessor
    let e = entry((0, 1), (1, 3), &user(1));
    assert_eq!(log.try_insert_entry(e, prev), Ok(InsertOutcome::Rejected));
    // the index does not follow the predecessor's
    let e = entry((0, 2), (1, 4), &user(1));
    assert_eq!(log.try_insert_entry(e, prev), Ok(InsertOutcome::Rejected));
    // index 0
    let e = entry((0, 0), (1, 0), &user(1));
    assert_eq!(log.try_insert_entry(e, Clock::zero()), Ok(InsertOutcome::Rejected));
    // the term goes back
    let mut log = log_with(1);
    let e = entry((1, 3), (0, 4), &user(1));
    assert_eq!(
        log.try_insert_entry(e, Clock { term: 1, index: 3 }),
        Ok(InsertOutcome::Rejected)
    );
    assert_eq!(log.get_log_last_index(), 3);
}

#[test]
fn entry_below_snapshot_is_silently_accepted() {
    let mut log = log_with(0);
    let e = entry((0, 0), (5, 1), &user(1));
    assert_eq!(log.try_insert_entry(e, Clock::zero()), Ok(InsertOutcome::Inserted));
    assert_eq!(log.get_entry(1).unwrap().this_clock, Clock { term: 0, index: 1 });
    assert_eq!(log.get_log_last_index(), 2);
}

#[test]
fn undecodable_command_is_bad_log_state() {
    let mut log = log_with(0);
    let e = Entry {
        prev_clock: Clock { term: 0, index: 2 },
        this_clock: Clock { term: 1, index: 3 },
        command: vec![99],
    };
    assert_eq!(log.try_insert_entry(e, Clock { term: 0, index: 2 }), Err(Error::BadLogState));
    assert_eq!(log.get_log_last_index(), 2);
}

#[test]
fn conflicting_suffix_is_replaced() {
    let mut log = log_with(3);
    let config = Command::ClusterConfiguration { membership: Membership::from_ids(&vec![0, 9]) };
    log.advance_commit_pointer(3);
    assert_eq!(log.append_new_entry(&config, 1), Ok(AppendOutcome::Appended(6)));
    assert_eq!(log.membership_pointer(), 6);
    // a leader of term 2 has another entry at index 4
    let e4 = entry((1, 3), (2, 4), &user(40));
    assert_eq!(
        log.try_insert_entry(e4.duplicate(), Clock { term: 1, index: 3 }),
        Ok(InsertOutcome::Inserted)
    );
    assert_eq!(log.get_log_last_index(), 4);
    assert!(log.get_entry(4).unwrap().same_as(&e4));
    assert!(log.get_entry(5).is_err());
    // the configuration that was cut off is no longer in force
    assert_eq!(log.membership_pointer(), 2);
    assert_eq!(log.commit_pointer(), 3);
}

#[test]
fn committed_entry_is_never_replaced() {
    let mut log = log_with(3);
    log.advance_commit_pointer(4);
    let e4 = entry((1, 3), (2, 4), &user(40));
    assert_eq!(
        log.try_insert_entry(e4, Clock { term: 1, index: 3 }),
        Err(Error::BadLogState)
    );
    assert_eq!(log.get_log_last_index(), 5);
    assert_eq!(log.get_entry(4).unwrap().this_clock, Clock { term: 1, index: 4 });
}

#[test]
fn snapshot_point_moves_on_proposal() {
    let mut log = log_with(4);
    log.advance_commit_pointer(5);
    log.advance_last_applied();
    assert_eq!(log.advance_snapshot_index(1), Ok(false));
    assert_eq!(log.advance_snapshot_index(0), Ok(false));
    assert_eq!(log.advance_snapshot_index(7), Err(Error::EntryNotFound(7)));
    assert_eq!(log.advance_snapshot_index(6), Err(Error::BadLogState));
    assert_eq!(log.snapshot_pointer(), 1);
    let before = log.get_entry(4).unwrap();
    assert_eq!(log.advance_snapshot_index(4), Ok(true));
    assert_eq!(log.snapshot_pointer(), 4);
    let after = log.get_entry(4).unwrap();
    assert_eq!(after.prev_clock, before.prev_clock);
    assert_eq!(after.this_clock, before.this_clock);
    match Command::decode(&after.command).unwrap() {
        Command::Snapshot { membership } => assert_eq!(membership.to_vec(), vec![0]),
        _ => panic!("not a snapshot entry"),
    }
    assert_eq!(log.membership_pointer(), 4);
    assert_eq!(log.advance_snapshot_index(3), Ok(false));
    assert_eq!(log.get_log_head_index(), 1);
    assert_eq!(log.run_gc(), 4);
    assert_eq!(log.get_log_head_index(), 4);
    assert_eq!(log.get_log_last_index(), 6);
    assert!(log.get_entry(3).is_err());
    assert_eq!(log.try_read_membership(6).unwrap().to_vec(), vec![0]);
    assert!(log.try_read_membership(3).is_none());
    assert_eq!(log.run_gc(), 4);
    assert_eq!(log.get_log_head_index(), 4);
}

#[test]
fn snapshot_from_leader_replaces_the_log() {
    let mut log = log_with(2);
    let members = Membership::from_ids(&vec![0, 1, 2]);
    let snap = entry((3, 99), (3, 100), &Command::Snapshot { membership: members });
    assert_eq!(log.install_snapshot(snap.duplicate()), Ok(true));
    assert_eq!(log.get_log_head_index(), 100);
    assert_eq!(log.get_log_last_index(), 100);
    assert_eq!(log.snapshot_pointer(), 100);
    assert_eq!(log.commit_pointer(), 100);
    assert_eq!(log.last_applied(), 100);
    assert_eq!(log.membership_pointer(), 100);
    assert_eq!(log.try_read_membership(100).unwrap().to_vec(), vec![0, 1, 2]);
    // already subsumed
    let old = entry((1, 49), (1, 50), &Command::Snapshot { membership: Membership::new() });
    assert_eq!(log.install_snapshot(old), Ok(false));
    assert_eq!(log.snapshot_pointer(), 100);
    // no snapshot entry
    let e = entry((3, 100), (3, 101), &user(1));
    assert_eq!(log.install_snapshot(e), Err(Error::BadLogState));
    // clocks that do not fit
    let bad = entry((3, 7), (3, 200), &Command::Snapshot { membership: Membership::new() });
    assert_eq!(log.install_snapshot(bad), Err(Error::BadLogState));
    // entries after the snapshot chain to it
    let next = entry((3, 100), (3, 101), &user(1));
    assert_eq!(
        log.try_insert_entry(next, Clock { term: 3, index: 100 }),
        Ok(InsertOutcome::Inserted)
    );
}

#[test]
fn snapshot_consistent_with_the_log_keeps_what_follows() {
    let mut log = log_with(3);
    assert_eq!(log.get_log_last_index(), 5);
    let members = Membership::from_ids(&vec![0, 7]);
    // the leader cut a snapshot at index 4, where this log holds the same clocks
    let snap = entry((1, 3), (1, 4), &Command::Snapshot { membership: members });
    assert_eq!(log.install_snapshot(snap.duplicate()), Ok(true));
    assert_eq!(log.get_log_head_index(), 1);
    assert_eq!(log.get_log_last_index(), 5);
    assert!(log.get_entry(4).unwrap().same_as(&snap));
    assert_eq!(log.get_entry(5).unwrap().this_clock, Clock { term: 1, index: 5 });
    assert_eq!(log.snapshot_pointer(), 4);
    assert_eq!(log.commit_pointer(), 4);
    assert_eq!(log.last_applied(), 4);
    assert_eq!(log.membership_pointer(), 4);
    assert_eq!(log.try_read_membership(5).unwrap().to_vec(), vec![0, 7]);
    assert_eq!(log.run_gc(), 4);
    assert_eq!(log.get_log_head_index(), 4);
    // the same index with another clock: the log has diverged and is dropped
    let mut log = log_with(3);
    let other = entry((2, 3), (2, 4), &Command::Snapshot { membership: Membership::new() });
    assert_eq!(log.install_snapshot(other), Ok(true));
    assert_eq!((log.get_log_head_index(), log.get_log_last_index()), (4, 4));
}

#[test]
fn snapshot_entry_is_applied_as_a_snapshot() {
    let mut log = log_with(1);
    let snap = entry((1, 3), (1, 4), &Command::Snapshot { membership: Membership::from_ids(&vec![0]) });
    assert_eq!(
        log.try_insert_entry(snap, Clock { term: 1, index: 3 }),
        Ok(InsertOutcome::Inserted)
    );
    assert_eq!(log.membership_pointer(), 4);
    log.advance_commit_pointer(4);
    let applied = log.advance_last_applied();
    assert_eq!(applied.len(), 3);
    assert!(matches!(applied[2].command, Command::Snapshot { .. }));
    assert_eq!(log.snapshot_pointer(), 4);
    assert_eq!(log.last_applied(), 4);
}

#[test]
fn log_is_restored_from_its_records() {
    let mut log = log_with(4);
    log.advance_commit_pointer(6);
    log.advance_last_applied();
    assert_eq!(log.advance_snapshot_index(5), Ok(true));
    let mut records = Vec::new();
    for i in log.get_log_head_index()..=log.get_log_last_index() {
        records.push((i, log.get_entry(i).unwrap()));
    }
    let back = CommandLog::restore(&records).unwrap();
    assert_eq!(back.get_log_head_index(), 1);
    assert_eq!(back.get_log_last_index(), 6);
    assert_eq!(back.snapshot_pointer(), 5);
    assert_eq!(back.commit_pointer(), 5);
    assert_eq!(back.last_applied(), 5);
    assert_eq!(back.membership_pointer(), 5);
    for i in 1..=6 {
        assert!(back.get_entry(i).unwrap().same_as(&log.get_entry(i).unwrap()));
    }
    let empty = CommandLog::restore(&Vec::new()).unwrap();
    assert_eq!(empty.get_log_last_index(), 0);
    // a gap
    let mut gap: Vec<(u64, Entry)> = records.iter().map(|(i, e)| (*i, e.duplicate())).collect();
    gap.remove(2);
    assert_eq!(CommandLog::restore(&gap).err(), Some(Error::BadLogState));
    // no snapshot entry
    let tail: Vec<(u64, Entry)> = vec![(6, records[5].1.duplicate())];
    assert_eq!(CommandLog::restore(&tail).err(), Some(Error::BadLogState));
    // a record under the wrong index
    let mut shifted: Vec<(u64, Entry)> =
        records.iter().map(|(i, e)| (*i + 1, e.duplicate())).collect();
    assert_eq!(CommandLog::restore(&shifted).err(), Some(Error::BadLogState));
    shifted.clear();
}

#[test]
fn pointers_never_go_back() {
    let mut log = log_with(5);
    let mut seen = (0u64, 0u64, 0u64);
    let mut check = |log: &CommandLog| {
        let now = (log.snapshot_pointer(), log.commit_pointer(), log.last_applied());
        assert!(seen.0 <= now.0 && seen.1 <= now.1 && seen.2 <= now.2);
        assert!(now.0 <= now.2 && now.2 <= now.1 && now.1 <= log.get_log_last_index());
        seen = now;
    };
    check(&log);
    log.advance_commit_pointer(4);
    check(&log);
    log.advance_commit_pointer(2);
    check(&log);
    log.advance_last_applied();
    check(&log);
    let _ = log.advance_snapshot_index(3);
    check(&log);
    let _ = log.advance_snapshot_index(2);
    check(&log);
    log.run_gc();
    check(&log);
    let e = entry((1, 4), (2, 5), &user(9));
    let _ = log.try_insert_entry(e, Clock { term: 1, index: 4 });
    check(&log);
    let _ = log.append_new_entry(&user(1), 2);
    check(&log);
    log.advance_commit_pointer(100);
    check(&log);
    log.advance_last_applied();
    check(&log);
    let snap = entry((2, 1), (2, 2), &Command::Snapshot { membership: Membership::new() });
    let _ = log.install_snapshot(snap);
    check(&log);
    let snap = entry((2, 49), (2, 50), &Command::Snapshot { membership: Membership::new() });
    let _ = log.install_snapshot(snap);
    check(&log);
}
