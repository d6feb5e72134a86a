use lolraft::ballot::BallotStore;
use lolraft::clock::Clock;
use lolraft::command::Command;
use lolraft::command_log::{AppendOutcome, CommandLog};
use lolraft::driver::RaftDriver;
use lolraft::entry::Entry;
use lolraft::error::Error;
use lolraft::heartbeat::{Heartbeat, HeartbeatBuffer, HEARTBEAT_INTERVAL_MS};
use lolraft::membership::Membership;
use lolraft::peers::{
    AckOutcome, AppendEntries, AppendEntriesResponse, Peers, ReplicationPlan, IN_FLIGHT_MAX,
    REPLICATION_BATCH,
};
use lolraft::process::{stream_is_chained, RaftProcess, ReadPlan, Submitted};
use lolraft::snapshot::{reassemble, split_chunks, InstallSnapshotChunk, SnapshotReceiver};
use lolraft::index_key::index_key;
use lolraft::storage::Namespace;
use lolraft::voter::{ElectionState, Stepdown};

fn members(ids: &[u64]) -> Membership {
    Membership::from_ids(&ids.to_vec())
}

fn log_with(n: u64, term: u64) -> CommandLog {
    let mut log = CommandLog::new();
    log.init_cluster(0).unwrap();
    for i in 0..n {
        assert_eq!(
            log.append_new_entry(&Command::User { bytes: vec![i as u8] }, term),
            Ok(AppendOutcome::Appended(3 + i))
        );
    }
    log
}

fn ok(term: u64, hint: u64) -> AppendEntriesResponse {
    AppendEntriesResponse { success: true, hint_index: hint, term }
}

fn fail(term: u64, hint: u64) -> AppendEntriesResponse {
    AppendEntriesResponse { success: false, hint_index: hint, term }
}

#[test]
fn directory_lists_the_other_members() {
    let mut p = Peers::new(2);
    assert_eq!(p.len(), 0);
    assert!(!p.self_is_member());
    p.set_membership(&members(&[1, 2, 3]), 10);
    assert_eq!(p.len(), 2);
    assert!(p.self_is_member());
    let one = p.progress(1).unwrap();
    assert_eq!((one.id, one.next_index, one.match_index), (1, 11, 0));
    assert_eq!(one.in_flight_max, IN_FLIGHT_MAX);
    assert_eq!(p.progress(2), Err(Error::PeerNotFound(2)));
    assert_eq!(p.progress(4), Err(Error::PeerNotFound(4)));
    // a listed follower keeps its progress, a new one starts afresh
    p.handle_ack(1, 1, &ok(1, 10), 10).unwrap();
    p.set_membership(&members(&[1, 4]), 20);
    assert!(!p.self_is_member());
    assert_eq!(p.len(), 2);
    assert_eq!(p.progress(1).unwrap().match_index, 10);
    assert_eq!(p.progress(1).unwrap().next_index, 11);
    assert_eq!(p.progress(4).unwrap().next_index, 21);
    assert_eq!(p.progress(3), Err(Error::PeerNotFound(3)));
    assert_eq!((p.get(0).id, p.get(1).id), (1, 4));
}

#[test]
fn progress_is_reset_on_election() {
    let mut p = Peers::new(0);
    p.set_membership(&members(&[0, 1, 2]), 5);
    p.handle_ack(1, 1, &ok(1, 5), 5).unwrap();
    p.record_heartbeat_ack(2, 777).unwrap();
    p.reset_progress(9);
    for id in [1u64, 2] {
        let x = p.progress(id).unwrap();
        assert_eq!((x.next_index, x.match_index), (10, 0));
    }
    assert_eq!(p.progress(2).unwrap().last_heartbeat_ack, 777);
    assert_eq!(p.record_heartbeat_ack(5, 1), Err(Error::PeerNotFound(5)));
}

#[test]
fn acknowledgements_move_the_progress() {
    let mut p = Peers::new(0);
    p.set_membership(&members(&[0, 1]), 10);
    // success
    assert_eq!(p.handle_ack(1, 3, &ok(3, 7), 7), Ok(AckOutcome::Advanced));
    let x = p.progress(1).unwrap();
    assert_eq!((x.next_index, x.match_index), (8, 7));
    // a late success for an earlier batch does not move the match index back
    assert_eq!(p.handle_ack(1, 3, &ok(3, 7), 5), Ok(AckOutcome::Advanced));
    let x = p.progress(1).unwrap();
    assert_eq!((x.next_index, x.match_index), (8, 7));
    // failure moves one back
    assert_eq!(p.handle_ack(1, 3, &fail(3, 100), 9), Ok(AckOutcome::Retreated));
    assert_eq!(p.progress(1).unwrap().next_index, 7);
    assert_eq!(p.progress(1).unwrap().match_index, 7);
    // failure with a hint jumps to the follower's end
    assert_eq!(p.handle_ack(1, 3, &fail(3, 2), 9), Ok(AckOutcome::Retreated));
    assert_eq!(p.progress(1).unwrap().next_index, 3);
    // never below 1
    assert_eq!(p.handle_ack(1, 3, &fail(3, 0), 9), Ok(AckOutcome::Retreated));
    assert_eq!(p.progress(1).unwrap().next_index, 1);
    assert_eq!(p.handle_ack(1, 3, &fail(3, 0), 9), Ok(AckOutcome::Retreated));
    assert_eq!(p.progress(1).unwrap().next_index, 1);
    // a newer term asks the leader to yield and changes nothing
    assert_eq!(p.handle_ack(1, 3, &ok(4, 50), 50), Ok(AckOutcome::Surrender(4)));
    assert_eq!(p.progress(1).unwrap().next_index, 1);
    assert_eq!(p.handle_ack(9, 3, &ok(3, 1), 1), Err(Error::PeerNotFound(9)));
}

#[test]
fn batch_starts_at_the_next_index() {
    let log = log_with(200, 1);
    let last = log.get_log_last_index();
    assert_eq!(last, 202);
    assert_eq!(REPLICATION_BATCH, 64);
    let mut p = Peers::new(0);
    p.set_membership(&members(&[0, 1]), last);
    assert!(matches!(p.plan_replication(7, &log, 1), Err(Error::PeerNotFound(7))));
    // a fresh follower is probed with an empty batch that names the last entry
    match p.plan_replication(1, &log, 1).unwrap() {
        ReplicationPlan::Append(req) => {
            assert!(req.entries.is_empty());
            assert_eq!(req.prev_clock, Clock { term: 1, index: 202 });
            assert_eq!(req.term, 1);
            assert_eq!(req.leader_commit, 1);
        }
        _ => panic!("no probe"),
    }
    p.handle_ack(1, 1, &fail(1, 9), 202).unwrap();
    assert_eq!(p.progress(1).unwrap().next_index, 10);
    match p.plan_replication(1, &log, 1).unwrap() {
        ReplicationPlan::Append(req) => {
            assert_eq!(req.entries.len(), 64);
            assert_eq!(req.prev_clock, Clock { term: 1, index: 9 });
            assert_eq!(req.entries[0].this_clock.index, 10);
            assert_eq!(req.entries[63].this_clock.index, 73);
            assert!(stream_is_chained(&req.entries, req.prev_clock));
        }
        _ => panic!("no batch"),
    }
    p.handle_ack(1, 1, &ok(1, 199), 199).unwrap();
    match p.plan_replication(1, &log, 1).unwrap() {
        ReplicationPlan::Append(req) => {
            assert_eq!(req.entries.len(), 3);
            assert_eq!(req.entries[2].this_clock.index, 202);
        }
        _ => panic!("no batch"),
    }
    p.handle_ack(1, 1, &ok(1, 202), 202).unwrap();
    assert!(matches!(p.plan_replication(1, &log, 1).unwrap(), ReplicationPlan::UpToDate));
}

#[test]
fn follower_behind_the_snapshot_gets_the_snapshot() {
    let mut log = log_with(10, 1);
    log.advance_commit_pointer(12);
    log.advance_last_applied();
    log.advance_snapshot_index(8).unwrap();
    let mut p = Peers::new(0);
    p.set_membership(&members(&[0, 1]), 12);
    p.handle_ack(1, 1, &fail(1, 0), 12).unwrap();
    assert!(matches!(p.plan_replication(1, &log, 1).unwrap(), ReplicationPlan::Snapshot(8)));
    p.handle_ack(1, 1, &ok(1, 8), 8).unwrap();
    match p.plan_replication(1, &log, 1).unwrap() {
        ReplicationPlan::Append(req) => {
            assert_eq!(req.prev_clock.index, 8);
            assert_eq!(req.entries.len(), 4);
        }
        _ => panic!("no batch"),
    }
}

#[test]
fn commit_needs_a_majority_and_the_leaders_term() {
    let mut log = log_with(3, 1);
    // indexes 3..5 are of term 1; now the leader of term 2 adds 6 and 7
    log.append_new_entry(&Command::Noop, 2).unwrap();
    log.append_new_entry(&Command::User { bytes: vec![1] }, 2).unwrap();
    let mut p = Peers::new(0);
    p.set_membership(&members(&[0, 1, 2]), 7);
    // nobody else holds anything
    assert_eq!(p.find_new_commit(&log, 2), 1);
    // one follower holds up to 5: a majority, but of an older term
    p.handle_ack(1, 2, &ok(2, 5), 5).unwrap();
    assert_eq!(p.find_new_commit(&log, 2), 1);
    // up to 6: the leader's own entry commits, and all before it with it
    p.handle_ack(1, 2, &ok(2, 6), 6).unwrap();
    assert_eq!(p.find_new_commit(&log, 2), 6);
    // a leader of another term commits nothing of this
    assert_eq!(p.find_new_commit(&log, 3), 1);
    p.handle_ack(2, 2, &ok(2, 7), 7).unwrap();
    assert_eq!(p.find_new_commit(&log, 2), 7);
    log.advance_commit_pointer(7);
    assert_eq!(p.find_new_commit(&log, 2), 7);
}

#[test]
fn removed_leader_does_not_count_itself() {
    let mut log = log_with(0, 1);
    log.append_new_entry(&Command::Noop, 1).unwrap();
    let mut p = Peers::new(0);
    p.set_membership(&members(&[1, 2]), 3);
    assert!(!p.self_is_member());
    p.handle_ack(1, 1, &ok(1, 3), 3).unwrap();
    // one of two voters is no majority
    assert_eq!(p.find_new_commit(&log, 1), 1);
    p.handle_ack(2, 1, &ok(1, 3), 3).unwrap();
    assert_eq!(p.find_new_commit(&log, 1), 3);
    // a cluster of one commits by itself
    let mut alone = Peers::new(0);
    alone.set_membership(&members(&[0]), 3);
    assert_eq!(alone.find_new_commit(&log, 1), 3);
}

#[test]
fn leadership_goes_to_a_follower_that_holds_everything() {
    let mut p = Peers::new(0);
    p.set_membership(&members(&[0, 1, 2, 3]), 9);
    assert_eq!(p.transfer_target(9), None);
    p.handle_ack(3, 1, &ok(1, 9), 9).unwrap();
    p.handle_ack(2, 1, &ok(1, 8), 8).unwrap();
    assert_eq!(p.transfer_target(9), Some(3));
    p.handle_ack(2, 1, &ok(1, 9), 9).unwrap();
    assert_eq!(p.transfer_target(9), Some(2));
    assert_eq!(p.transfer_target(10), None);
}

#[test]
fn snapshot_travels_in_numbered_chunks() {
    let clock = Clock { term: 3, index: 40 };
    let data: Vec<u8> = (0..10).collect();
    let chunks = split_chunks(clock, &data, 4);
    assert_eq!(chunks.len(), 3);
    assert_eq!(chunks[0].data, vec![0, 1, 2, 3]);
    assert_eq!(chunks[1].data, vec![4, 5, 6, 7]);
    assert_eq!(chunks[2].data, vec![8, 9]);
    for (k, c) in chunks.iter().enumerate() {
        assert_eq!(c.seq, k as u64);
        assert_eq!(c.snapshot_clock, clock);
        assert_eq!(c.last, k == 2);
    }
    let mut r = SnapshotReceiver::new();
    let mut out = None;
    for c in chunks {
        out = r.accept(c).unwrap();
    }
    assert_eq!(out, Some(data));

    assert_eq!(split_chunks(clock, &vec![1, 2, 3, 4], 2).len(), 2);
    assert_eq!(split_chunks(clock, &vec![1, 2, 3, 4], 4).len(), 1);
    assert_eq!(split_chunks(clock, &vec![1, 2, 3, 4], 100).len(), 1);
    assert_eq!(split_chunks(clock, &vec![1, 2, 3], 0).len(), 3);
    let empty = split_chunks(clock, &vec![], 4);
    assert_eq!(empty.len(), 1);
    assert!(empty[0].last && empty[0].data.is_empty() && empty[0].seq == 0);
}

#[test]
fn chunks_are_put_together_again() {
    let clock = Clock { term: 3, index: 40 };
    for len in [0usize, 1, 7, 8, 9, 64] {
        for size in [1usize, 2, 8, 100] {
            let data: Vec<u8> = (0..len).map(|i| (i * 7) as u8).collect();
            assert_eq!(reassemble(split_chunks(clock, &data, size)), Ok(data));
        }
    }
    let a = Clock { term: 1, index: 5 };
    let b = Clock { term: 1, index: 6 };
    assert_eq!(reassemble(vec![]), Err(Error::BadSnapshotChunk));
    // the last chunk is missing
    assert_eq!(reassemble(vec![chunk(a, 0, false, &[1])]), Err(Error::BadSnapshotChunk));
    // chunks after the last
    assert_eq!(
        reassemble(vec![chunk(a, 0, true, &[1]), chunk(a, 1, true, &[2])]),
        Err(Error::BadSnapshotChunk)
    );
    // a chunk that starts over
    assert_eq!(
        reassemble(vec![chunk(a, 0, false, &[1]), chunk(a, 0, true, &[2])]),
        Err(Error::BadSnapshotChunk)
    );
    // a chunk of another snapshot
    assert_eq!(
        reassemble(vec![chunk(a, 0, false, &[1]), chunk(b, 1, true, &[2])]),
        Err(Error::BadSnapshotChunk)
    );
    assert_eq!(
        reassemble(vec![chunk(a, 0, false, &[1]), chunk(a, 1, false, &[]), chunk(a, 2, true, &[2])]),
        Ok(vec![1, 2])
    );
}

fn chunk(clock: Clock, seq: u64, last: bool, data: &[u8]) -> InstallSnapshotChunk {
    InstallSnapshotChunk { snapshot_clock: clock, seq, last, data: data.to_vec() }
}

#[test]
fn chunk_out_of_order_is_refused() {
    let a = Clock { term: 1, index: 5 };
    let b = Clock { term: 1, index: 6 };
    let mut r = SnapshotReceiver::new();
    // a transfer starts with chunk 0
    assert_eq!(r.accept(chunk(a, 1, false, &[1])), Err(Error::BadSnapshotChunk));
    assert_eq!(r.accept(chunk(a, 0, false, &[1])), Ok(None));
    // a chunk is skipped
    assert_eq!(r.accept(chunk(a, 2, false, &[3])), Err(Error::BadSnapshotChunk));
    // the transfer is over: chunk 1 is not expected any more
    assert_eq!(r.accept(chunk(a, 1, false, &[2])), Err(Error::BadSnapshotChunk));
    // start over from chunk 0
    assert_eq!(r.accept(chunk(a, 0, false, &[1])), Ok(None));
    assert_eq!(r.accept(chunk(a, 1, false, &[2])), Ok(None));
    // a chunk of another snapshot
    assert_eq!(r.accept(chunk(b, 2, true, &[3])), Err(Error::BadSnapshotChunk));
    // a repeated chunk
    assert_eq!(r.accept(chunk(a, 0, false, &[1])), Ok(None));
    assert_eq!(r.accept(chunk(a, 0, false, &[7])), Ok(None));
    assert_eq!(r.accept(chunk(a, 1, true, &[8])), Ok(Some(vec![7, 8])));
    assert_eq!(r.accept(chunk(a, 2, true, &[9])), Err(Error::BadSnapshotChunk));
}

#[test]
fn later_heartbeat_of_a_lane_supersedes() {
    assert_eq!(HEARTBEAT_INTERVAL_MS, 300);
    let mut b = HeartbeatBuffer::new();
    assert_eq!(b.len(), 0);
    b.push(1, Heartbeat { leader_term: 1, leader_commit_index: 10 });
    b.push(2, Heartbeat { leader_term: 5, leader_commit_index: 7 });
    b.push(1, Heartbeat { leader_term: 1, leader_commit_index: 12 });
    assert_eq!(b.len(), 2);
    let out = b.drain();
    assert_eq!(out.len(), 2);
    assert_eq!(out[&1], Heartbeat { leader_term: 1, leader_commit_index: 12 });
    assert_eq!(out[&2], Heartbeat { leader_term: 5, leader_commit_index: 7 });
    assert_eq!(b.len(), 0);
    assert!(b.drain().is_empty());
}

#[test]
fn heartbeat_dominates_by_term_and_commit() {
    let h = |t, c| Heartbeat { leader_term: t, leader_commit_index: c };
    assert!(h(2, 5).dominates(&h(2, 5)));
    assert!(h(2, 6).dominates(&h(2, 5)));
    assert!(h(3, 5).dominates(&h(2, 5)));
    assert!(!h(3, 4).dominates(&h(2, 5)));
    assert!(!h(1, 9).dominates(&h(2, 5)));
}

fn leader_of_one(id: u64) -> RaftProcess {
    let mut p = RaftProcess::new(id, BallotStore::new(), 0, 300);
    assert_eq!(p.add_server(id, 0, 300), Ok(Submitted::Accepted(2)));
    assert!(p.is_leader());
    p
}

#[test]
fn driver_finds_the_lane() {
    let mut d = RaftDriver::new(4);
    assert_eq!(d.self_node_id(), 4);
    assert_eq!(d.lane_count(), 0);
    let hb = Heartbeat { leader_term: 2, leader_commit_index: 0 };
    assert_eq!(d.receive_heartbeat(1, 7, &hb, 0, 0), Err(Error::ProcessNotFound(7)));
    assert!(matches!(d.remove_process(7), Err(Error::ProcessNotFound(7))));
    assert!(d.insert_process(7, RaftProcess::new(4, BallotStore::new(), 0, 0)).is_none());
    assert!(d.insert_process(3, leader_of_one(4)).is_none());
    assert!(d.insert_process(9, leader_of_one(4)).is_none());
    assert!(d.hosts(7) && d.hosts(3) && d.hosts(9) && !d.hosts(8));
    assert_eq!(d.lane_count(), 3);
    assert_eq!(d.receive_heartbeat(1, 7, &hb, 50, 400), Ok(true));
    assert_eq!(d.receive_heartbeat(1, 7, &Heartbeat { leader_term: 1, leader_commit_index: 0 }, 0, 0), Ok(false));
    assert_eq!(d.receive_heartbeat(1, 8, &hb, 0, 0), Err(Error::ProcessNotFound(8)));
    let p = d.remove_process(7).unwrap();
    assert_eq!(p.current_term(), 2);
    assert_eq!(p.voter().leader_id(), Some(1));
    assert!(!d.hosts(7));
    assert_eq!(d.lane_count(), 2);
    // replacing hands the old process back
    let old = d.insert_process(3, RaftProcess::new(4, BallotStore::new(), 0, 0)).unwrap();
    assert!(old.is_leader());
    assert_eq!(d.lane_count(), 2);
}

#[test]
fn driver_gathers_the_heartbeats_of_lanes_it_leads() {
    let mut d = RaftDriver::new(4);
    d.insert_process(1, leader_of_one(4));
    d.insert_process(2, RaftProcess::new(4, BallotStore::new(), 0, 0));
    let mut busy = leader_of_one(4);
    assert!(busy.advance_commit());
    d.insert_process(3, busy);
    let mut buffer = HeartbeatBuffer::new();
    buffer.push(2, Heartbeat { leader_term: 9, leader_commit_index: 9 });
    buffer.push(3, Heartbeat { leader_term: 0, leader_commit_index: 0 });
    d.collect_heartbeats(&mut buffer);
    let out = buffer.drain();
    assert_eq!(out.len(), 3);
    assert_eq!(out[&1], Heartbeat { leader_term: 1, leader_commit_index: 1 });
    assert_eq!(out[&2], Heartbeat { leader_term: 9, leader_commit_index: 9 });
    assert_eq!(out[&3], Heartbeat { leader_term: 1, leader_commit_index: 3 });
}

#[test]
fn single_node_operations() {
    let mut p = leader_of_one(0);
    assert_eq!(p.membership().to_vec(), vec![0]);
    assert_eq!(p.command_log().get_log_last_index(), 3);
    assert_eq!(p.write(&vec![1, 2]), Ok(Submitted::Accepted(4)));
    assert_eq!(p.kernel(&vec![9]), Ok(Submitted::Accepted(5)));
    assert_eq!(p.read(true), Ok(ReadPlan::Execute));
    assert_eq!(p.read(false), Ok(ReadPlan::AfterApplied(1)));
    // a cluster of one confirms itself
    assert!(p.leadership_confirmed(77));
    assert!(p.read_ready(1, 77));
    assert!(!p.read_ready(5, 77));
    assert!(p.advance_commit());
    assert!(!p.advance_commit());
    assert_eq!(p.command_log().commit_pointer(), 5);
    let (work, applied) = p.advance_applied();
    assert!(work);
    assert_eq!(applied.len(), 4);
    assert!(matches!(&applied[2].command, Command::User { bytes } if bytes == &vec![1, 2]));
    assert!(matches!(&applied[3].command, Command::Kernel { bytes } if bytes == &vec![9]));
    assert!(p.read_ready(5, 77));
    let (work, applied) = p.advance_applied();
    assert!(!work && applied.is_empty());
    assert_eq!(
        p.heartbeat(),
        Some(Heartbeat { leader_term: 1, leader_commit_index: 5 })
    );
}

#[test]
fn follower_redirects_to_the_leader_it_knows() {
    let mut p = RaftProcess::new(1, BallotStore::new(), 0, 300);
    assert_eq!(p.write(&vec![1]), Err(Error::LeaderUnknown));
    assert_eq!(p.read(false), Err(Error::LeaderUnknown));
    assert_eq!(p.read(true), Ok(ReadPlan::Execute));
    assert_eq!(p.heartbeat(), None);
    assert!(matches!(p.plan_replication(2), Err(Error::LeaderUnknown)));
    assert_eq!(p.send_timeout_now(), Err(Error::LeaderUnknown));
    assert_eq!(p.receive_append_response(2, &ok(0, 0), 0), Err(Error::LeaderUnknown));
    assert_eq!(p.add_server(2, 0, 300), Err(Error::LeaderUnknown));
    assert!(p.receive_heartbeat(7, &Heartbeat { leader_term: 1, leader_commit_index: 9 }, 1, 300));
    assert_eq!(p.write(&vec![1]), Ok(Submitted::Redirect(7)));
    assert_eq!(p.kernel(&vec![1]), Ok(Submitted::Redirect(7)));
    assert_eq!(p.read(false), Ok(ReadPlan::Redirect(7)));
    assert_eq!(p.remove_server(2), Ok(Submitted::Redirect(7)));
    assert_eq!(p.current_term(), 1);
    // the commit pointer follows the leader only as far as the log reaches
    assert_eq!(p.command_log().commit_pointer(), 0);
}

fn entry(prev: (u64, u64), this: (u64, u64), command: &Command) -> Entry {
    Entry {
        prev_clock: Clock { term: prev.0, index: prev.1 },
        this_clock: Clock { term: this.0, index: this.1 },
        command: command.encode(),
    }
}

fn follower_of(leader: &RaftProcess, id: u64) -> RaftProcess {
    let mut f = RaftProcess::new(id, BallotStore::new(), 0, 300);
    let snap = leader.command_log().get_entry(1).unwrap();
    assert_eq!(f.receive_snapshot(leader.self_id(), 1, snap, 0, 300), Ok(true));
    f
}

#[test]
fn follower_takes_a_batch() {
    let leader = leader_of_one(0);
    let mut f = follower_of(&leader, 1);
    assert_eq!(f.command_log().commit_pointer(), 1);
    let batch = AppendEntries {
        term: 1,
        prev_clock: Clock { term: 0, index: 1 },
        entries: vec![
            leader.command_log().get_entry(2).unwrap(),
            leader.command_log().get_entry(3).unwrap(),
        ],
        leader_commit: 2,
    };
    let r = f.receive_append_entries(0, batch, 10, 300).unwrap();
    assert_eq!(r, AppendEntriesResponse { success: true, hint_index: 3, term: 1 });
    assert_eq!(f.command_log().get_log_last_index(), 3);
    assert_eq!(f.command_log().commit_pointer(), 2);
    assert_eq!(f.voter().leader_id(), Some(0));
    assert_eq!(f.membership().to_vec(), vec![0]);
    // an empty batch that names what the follower holds
    let probe = AppendEntries {
        term: 1,
        prev_clock: Clock { term: 1, index: 3 },
        entries: vec![],
        leader_commit: 3,
    };
    let r = f.receive_append_entries(0, probe, 20, 300).unwrap();
    assert_eq!(r, AppendEntriesResponse { success: true, hint_index: 3, term: 1 });
    assert_eq!(f.command_log().commit_pointer(), 3);
    // an empty batch that names what the follower does not hold
    let probe = AppendEntries {
        term: 1,
        prev_clock: Clock { term: 1, index: 9 },
        entries: vec![],
        leader_commit: 9,
    };
    let r = f.receive_append_entries(0, probe, 30, 300).unwrap();
    assert_eq!(r, AppendEntriesResponse { success: false, hint_index: 3, term: 1 });
    assert_eq!(f.command_log().commit_pointer(), 3);
    // a batch of an older term
    f.observe_term(5);
    let stale = AppendEntries {
        term: 1,
        prev_clock: Clock { term: 1, index: 3 },
        entries: vec![],
        leader_commit: 3,
    };
    let r = f.receive_append_entries(0, stale, 40, 300).unwrap();
    assert_eq!(r, AppendEntriesResponse { success: false, hint_index: 3, term: 5 });
}

#[test]
fn snapshot_is_taken_from_an_accepted_leader_only() {
    let mut leader = leader_of_one(0);
    let snap = || {
        Entry {
            prev_clock: Clock { term: 1, index: 9 },
            this_clock: Clock { term: 1, index: 10 },
            command: Command::Snapshot { membership: members(&[0, 1]) }.encode(),
        }
    };
    // a leader takes no snapshot from another node of its own term
    assert_eq!(leader.receive_snapshot(1, 1, snap(), 0, 300), Ok(false));
    assert_eq!(leader.command_log().get_log_last_index(), 3);
    assert!(leader.is_leader());
    // nor does anybody from an older term
    assert_eq!(leader.receive_snapshot(1, 0, snap(), 0, 300), Ok(false));
    // a newer term makes the leader a follower, which takes the snapshot
    assert_eq!(leader.receive_snapshot(1, 2, snap(), 0, 300), Ok(true));
    assert!(!leader.is_leader());
    assert_eq!(leader.current_term(), 2);
    assert_eq!(leader.command_log().get_log_head_index(), 10);
    assert_eq!(leader.membership().to_vec(), vec![0, 1]);
    // what is no snapshot entry is refused
    let e = entry((1, 10), (1, 11), &Command::Noop);
    assert_eq!(leader.receive_snapshot(1, 2, e, 0, 300), Err(Error::BadLogState));
}

#[test]
fn heartbeat_commits_only_what_was_checked() {
    let leader = leader_of_one(0);
    let mut f = follower_of(&leader, 1);
    assert_eq!(f.verified(), Clock { term: 1, index: 1 });
    let hb = |t, c| Heartbeat { leader_term: t, leader_commit_index: c };
    let batch = AppendEntries {
        term: 1,
        prev_clock: Clock { term: 0, index: 1 },
        entries: vec![leader.command_log().get_entry(2).unwrap()],
        leader_commit: 1,
    };
    f.receive_append_entries(0, batch, 10, 300).unwrap();
    assert_eq!(f.verified(), Clock { term: 1, index: 2 });
    assert_eq!(f.command_log().commit_pointer(), 1);
    let batch = AppendEntries {
        term: 1,
        prev_clock: Clock { term: 0, index: 2 },
        entries: vec![leader.command_log().get_entry(3).unwrap()],
        leader_commit: 1,
    };
    f.receive_append_entries(0, batch, 10, 300).unwrap();
    assert_eq!(f.verified(), Clock { term: 1, index: 3 });
    // a leader of the next term has checked the log up to index 2 only: the
    // log reaches further than it was checked
    let batch = AppendEntries {
        term: 2,
        prev_clock: Clock { term: 0, index: 1 },
        entries: vec![leader.command_log().get_entry(2).unwrap()],
        leader_commit: 1,
    };
    f.receive_append_entries(5, batch, 15, 300).unwrap();
    assert_eq!(f.verified(), Clock { term: 2, index: 2 });
    assert_eq!(f.command_log().get_log_last_index(), 3);
    assert!(f.receive_heartbeat(5, &hb(2, 3), 20, 300));
    assert_eq!(f.command_log().commit_pointer(), 2);
    // the heartbeat of a leader of another term commits nothing
    let mut g = follower_of(&leader, 2);
    let batch = AppendEntries {
        term: 1,
        prev_clock: Clock { term: 0, index: 1 },
        entries: vec![leader.command_log().get_entry(2).unwrap()],
        leader_commit: 1,
    };
    g.receive_append_entries(0, batch, 10, 300).unwrap();
    assert!(g.receive_heartbeat(5, &hb(2, 2), 20, 300));
    assert_eq!(g.command_log().commit_pointer(), 1);
    assert_eq!(g.verified(), Clock { term: 1, index: 2 });
    // nor does a heartbeat that is not accepted
    assert!(!g.receive_heartbeat(0, &hb(1, 2), 30, 300));
    assert_eq!(g.command_log().commit_pointer(), 1);
}

#[test]
fn broken_stream_is_refused() {
    let leader = leader_of_one(0);
    let mut f = follower_of(&leader, 1);
    let e2 = leader.command_log().get_entry(2).unwrap();
    // entry 4 follows entry 2: entry 3 is missing from the stream
    let e4 = entry((1, 3), (1, 4), &Command::Noop);
    assert!(!stream_is_chained(&vec![e2.duplicate(), e4.duplicate()], Clock { term: 0, index: 1 }));
    let batch = AppendEntries {
        term: 1,
        prev_clock: Clock { term: 0, index: 1 },
        entries: vec![e2, e4],
        leader_commit: 4,
    };
    assert_eq!(f.receive_append_entries(0, batch, 10, 300), Err(Error::BadReplicationStream));
    assert_eq!(f.command_log().get_log_last_index(), 1);
    assert_eq!(f.command_log().commit_pointer(), 1);
    // the sender is taken as leader all the same
    assert_eq!(f.voter().leader_id(), Some(0));
    assert!(stream_is_chained(&vec![], Clock::zero()));
}

#[test]
fn batch_that_would_cut_committed_entries_is_fatal() {
    let leader = leader_of_one(0);
    let mut f = follower_of(&leader, 1);
    let batch = AppendEntries {
        term: 1,
        prev_clock: Clock { term: 0, index: 1 },
        entries: vec![
            leader.command_log().get_entry(2).unwrap(),
            leader.command_log().get_entry(3).unwrap(),
        ],
        leader_commit: 3,
    };
    f.receive_append_entries(0, batch, 10, 300).unwrap();
    assert_eq!(f.command_log().commit_pointer(), 3);
    let other = entry((0, 2), (2, 3), &Command::Noop);
    let batch = AppendEntries {
        term: 2,
        prev_clock: Clock { term: 0, index: 2 },
        entries: vec![other],
        leader_commit: 3,
    };
    assert_eq!(f.receive_append_entries(5, batch, 20, 300), Err(Error::BadLogState));
    assert!(Error::BadLogState.fatal());
    assert_eq!(f.command_log().get_entry(3).unwrap().this_clock, Clock { term: 1, index: 3 });
}

#[test]
fn leader_yields_to_a_newer_term_in_an_answer() {
    let mut p = leader_of_one(0);
    assert_eq!(p.add_server(1, 0, 300), Ok(Submitted::ConfigurationPending));
    assert!(p.advance_commit());
    assert_eq!(p.add_server(1, 0, 300), Ok(Submitted::Accepted(4)));
    assert_eq!(p.membership().to_vec(), vec![0, 1]);
    assert_eq!(p.receive_append_response(9, &ok(1, 4), 4), Err(Error::PeerNotFound(9)));
    assert_eq!(p.receive_append_response(1, &fail(1, 0), 4), Ok(AckOutcome::Retreated));
    assert!(matches!(p.plan_replication(1), Ok(ReplicationPlan::Snapshot(1))));
    assert_eq!(p.receive_append_response(1, &ok(1, 4), 4), Ok(AckOutcome::Advanced));
    assert_eq!(p.send_timeout_now(), Ok(1));
    assert_eq!(p.receive_append_response(1, &ok(7, 4), 4), Ok(AckOutcome::Surrender(7)));
    assert_eq!(p.voter().read_election_state(), ElectionState::Follower);
    assert_eq!(p.current_term(), 7);
    assert_eq!(p.write(&vec![1]), Err(Error::LeaderUnknown));
}

#[test]
fn restart_restores_log_and_ballot() {
    let mut p = leader_of_one(0);
    p.write(&vec![1]).unwrap();
    p.write(&vec![2]).unwrap();
    while p.advance_commit() {}
    p.advance_applied();
    assert_eq!(p.advance_snapshot(4), Ok(true));
    let ballot = p.voter().persist_ballot();
    let mut records = Vec::new();
    for i in p.command_log().get_log_head_index()..=p.command_log().get_log_last_index() {
        let e = p.command_log().get_entry(i).unwrap();
        let r = lolraft::storage::entry_record(i, &e);
        records.push(lolraft::storage::parse_entry_record(&r.key, &r.value).unwrap());
    }
    let back = RaftProcess::restore(0, BallotStore::recover(&ballot).unwrap(), &records, 0, 300)
        .unwrap();
    assert!(!back.is_leader());
    assert_eq!(back.current_term(), 1);
    assert_eq!(back.voter().read_ballot().voted_for, Some(0));
    assert_eq!(back.command_log().get_log_last_index(), 5);
    assert_eq!(back.command_log().snapshot_pointer(), 4);
    assert_eq!(back.command_log().commit_pointer(), 4);
    assert_eq!(back.membership().to_vec(), vec![0]);
    assert!(matches!(
        RaftProcess::restore(0, BallotStore::new(), &records[1..2].to_vec_dup(), 0, 300),
        Err(Error::BadLogState)
    ));
}

trait DupVec {
    fn to_vec_dup(&self) -> Vec<(u64, Entry)>;
}

impl DupVec for [(u64, Entry)] {
    fn to_vec_dup(&self) -> Vec<(u64, Entry)> {
        self.iter().map(|(i, e)| (*i, e.duplicate())).collect()
    }
}

/// Ships what the leader holds to the follower until nothing is left to send.
fn sync(leader: &mut RaftProcess, follower: &mut RaftProcess) {
    for _ in 0..20 {
        match leader.plan_replication(follower.self_id()).unwrap() {
            ReplicationPlan::Append(req) => {
                let sent_upto = req.prev_clock.index + req.entries.len() as u64;
                let resp = follower.receive_append_entries(leader.self_id(), req, 0, 300).unwrap();
                leader.receive_append_response(follower.self_id(), &resp, sent_upto).unwrap();
            }
            ReplicationPlan::Snapshot(i) => {
                let entry = leader.command_log().get_entry(i).unwrap();
                let term = leader.current_term();
                follower.receive_snapshot(leader.self_id(), term, entry, 0, 300).unwrap();
                let resp = AppendEntriesResponse { success: true, hint_index: i, term };
                leader.receive_append_response(follower.self_id(), &resp, i).unwrap();
            }
            ReplicationPlan::UpToDate => return,
        }
    }
    panic!("the follower does not catch up");
}

#[test]
fn leader_hands_over_before_it_steps_down() {
    let mut leader = leader_of_one(0);
    assert!(leader.advance_commit());
    let mut f = RaftProcess::new(1, BallotStore::new(), 0, 300);
    assert_eq!(leader.plan_stepdown(), Err(Stepdown::StillMember));
    assert_eq!(leader.add_server(1, 0, 300), Ok(Submitted::Accepted(4)));
    assert_eq!(leader.plan_stepdown(), Err(Stepdown::MembershipNotCommitted));
    assert_eq!(leader.try_stepdown(), Err(Stepdown::MembershipNotCommitted));
    sync(&mut leader, &mut f);
    assert!(leader.advance_commit());
    assert_eq!(leader.remove_server(0), Ok(Submitted::Accepted(5)));
    // the follower is behind: there is nobody to hand over to yet
    assert_eq!(leader.command_log().commit_pointer(), 4);
    sync(&mut leader, &mut f);
    assert!(leader.advance_commit());
    assert_eq!(leader.command_log().commit_pointer(), 5);
    assert_eq!(leader.membership().to_vec(), vec![1]);

    // first the hand-over is named, and the node still leads
    assert_eq!(leader.plan_stepdown(), Ok(Some(1)));
    assert!(leader.is_leader());
    assert_eq!(f.plan_stepdown(), Err(Stepdown::NotLeader));
    assert_eq!(f.try_stepdown(), Err(Stepdown::NotLeader));
    // then it steps down
    assert_eq!(leader.try_stepdown(), Ok(()));
    assert!(!leader.is_leader());
    assert_eq!(leader.current_term(), 1);
    assert_eq!(leader.plan_stepdown(), Err(Stepdown::NotLeader));
    assert_eq!(leader.try_stepdown(), Err(Stepdown::NotLeader));
}

#[test]
fn persist_plan_lists_what_to_write_and_what_to_delete() {
    let leader = leader_of_one(0);
    assert_eq!(leader.command_log().get_log_last_index(), 3);
    let ballot = leader.voter().read_ballot();
    let entry = |i: u64| leader.command_log().get_entry(i).unwrap();

    let (records, dropped) = leader.persist_plan(2, 5);
    assert_eq!(records.len(), 3);
    assert_eq!(records[0].namespace, Namespace::Ctrl);
    assert_eq!(records[0].key, b"ballot".to_vec());
    assert_eq!(records[0].value, ballot.encode());
    for (k, i) in [(1usize, 2u64), (2, 3)] {
        assert_eq!(records[k].namespace, Namespace::Entries);
        assert_eq!(records[k].key, index_key(i));
        assert_eq!(records[k].value, entry(i).encode());
    }
    assert_eq!(dropped, vec![4, 5]);

    // from the head of the log when asked for more
    let (records, dropped) = leader.persist_plan(0, 3);
    assert_eq!(records.len(), 4);
    assert_eq!(records[1].key, index_key(1));
    assert_eq!(records[3].key, index_key(3));
    assert!(dropped.is_empty());

    // nothing but the ballot when the log ends before `from`
    let (records, dropped) = leader.persist_plan(9, 0);
    assert_eq!(records.len(), 1);
    assert!(dropped.is_empty());

    let fresh = RaftProcess::new(4, BallotStore::new(), 0, 300);
    let (records, dropped) = fresh.persist_plan(0, 2);
    assert_eq!(records.len(), 1);
    assert_eq!(dropped, vec![1, 2]);
}

#[test]
fn leadership_is_confirmed_by_a_majority_of_acknowledgements() {
    let mut p = Peers::new(0);
    p.set_membership(&members(&[0, 1, 2]), 9);
    assert!(p.leadership_confirmed(0));
    assert!(!p.leadership_confirmed(5));
    p.record_heartbeat_ack(1, 7).unwrap();
    // one follower and the node itself are two of three
    assert!(p.leadership_confirmed(5));
    assert!(p.leadership_confirmed(7));
    assert!(!p.leadership_confirmed(8));

    // a leader that is no member does not count itself
    let mut q = Peers::new(0);
    q.set_membership(&members(&[1, 2, 3]), 9);
    q.record_heartbeat_ack(1, 7).unwrap();
    assert!(!q.leadership_confirmed(5));
    q.record_heartbeat_ack(3, 6).unwrap();
    assert!(q.leadership_confirmed(5));
    assert!(!q.leadership_confirmed(7));

    // four members: three must confirm
    let mut r = Peers::new(0);
    r.set_membership(&members(&[0, 1, 2, 3]), 9);
    r.record_heartbeat_ack(2, 7).unwrap();
    assert!(!r.leadership_confirmed(5));
    r.record_heartbeat_ack(3, 5).unwrap();
    assert!(r.leadership_confirmed(5));

    // a follower confirms nothing, and a read waits for the confirmation
    let mut leader = leader_of_one(0);
    assert!(leader.advance_commit());
    let mut f = RaftProcess::new(1, BallotStore::new(), 0, 300);
    assert!(!f.leadership_confirmed(0));
    assert_eq!(leader.add_server(1, 0, 300), Ok(Submitted::Accepted(4)));
    sync(&mut leader, &mut f);
    assert!(leader.advance_commit());
    leader.advance_applied();
    assert!(!leader.read_ready(4, 50));
    leader.record_heartbeat_ack(1, 49).unwrap();
    assert!(!leader.read_ready(4, 50));
    leader.record_heartbeat_ack(1, 50).unwrap();
    assert!(leader.read_ready(4, 50));
    assert!(!leader.read_ready(5, 50));
}
