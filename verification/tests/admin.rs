use lolraft::ballot::BallotStore;
use lolraft::cluster::{
    cluster_info, ensure_membership, env_new, get_node_id, make_cluster, serve_admin, sorted_ids,
    Admin, AdminOp, AdminReply, AdminRequest, ClusterInfo, ClusterStep,
};
use lolraft::command::Command;
use lolraft::command_log::{AppendOutcome, Applied};
use lolraft::error::Error;
use lolraft::event::{CommitEvent, KernEvent, QueueEvent, ReplicationEvent};
use lolraft::process::{RaftProcess, ReadPlan, Submitted};
use lolraft::thread::{advance_snapshot, commit, execution, gc, stepdown, ThreadKind, Wakeup};
use lolraft::voter::{ElectionStep, Stepdown};

fn info(leader_id: Option<u64>, membership: &[u64]) -> ClusterInfo {
    ClusterInfo { leader_id, membership: membership.to_vec() }
}

#[test]
fn admin_requests_name_their_target() {
    let a = Admin::to(3);
    assert_eq!(a.add_server(5), AdminRequest { to: 3, op: AdminOp::AddServer(5) });
    assert_eq!(a.remove_server(0), AdminRequest { to: 3, op: AdminOp::RemoveServer(0) });
    assert_eq!(a.cluster_info(), AdminRequest { to: 3, op: AdminOp::ClusterInfo });
    assert_eq!(a.timeout_now(), AdminRequest { to: 3, op: AdminOp::TimeoutNow });
    assert_eq!(get_node_id(255), 255);
}

#[test]
fn cluster_info_compares_leader_and_members() {
    assert!(info(Some(1), &[1, 2]).eq(&info(Some(1), &[1, 2])));
    assert!(!info(Some(1), &[1, 2]).eq(&info(Some(2), &[1, 2])));
    assert!(!info(Some(1), &[1, 2]).eq(&info(None, &[1, 2])));
    assert!(!info(Some(1), &[1, 2]).eq(&info(Some(1), &[1, 2, 3])));
    assert!(!info(Some(1), &[1, 2]).eq(&info(Some(1), &[2, 1])));
    assert!(info(None, &[]).eq(&info(None, &[])));
}

#[test]
fn plan_for_a_cluster() {
    assert_eq!(env_new(4), vec![ClusterStep::Start(4), ClusterStep::AddServer { via: 4, id: 4 }]);
    let single = vec![ClusterStep::Start(0), ClusterStep::AddServer { via: 0, id: 0 }];
    assert_eq!(make_cluster(0), single);
    assert_eq!(make_cluster(1), single);
    assert_eq!(
        make_cluster(3),
        vec![
            ClusterStep::Start(0),
            ClusterStep::AddServer { via: 0, id: 0 },
            ClusterStep::Start(1),
            ClusterStep::AddServer { via: 0, id: 1 },
            ClusterStep::EnsureMembership { upto: 1 },
            ClusterStep::Start(2),
            ClusterStep::AddServer { via: 0, id: 2 },
            ClusterStep::EnsureMembership { upto: 2 },
        ]
    );
    assert_eq!(make_cluster(255).len(), 2 + 3 * 254);
}

#[test]
fn membership_is_settled_when_all_live_nodes_agree() {
    let agreed = || Some(info(Some(1), &[0, 1, 2]));
    assert!(ensure_membership(&vec![0, 1, 2], &vec![0, 1, 2], &vec![agreed(), agreed(), agreed()]));
    // the order in which the members are asked for does not matter
    assert!(ensure_membership(&vec![2, 1], &vec![2, 0, 1], &vec![agreed(), agreed()]));
    // a node did not answer
    assert!(!ensure_membership(&vec![0, 1, 2], &vec![0, 1, 2], &vec![agreed(), None, agreed()]));
    // a node sees another leader
    assert!(!ensure_membership(
        &vec![0, 1, 2],
        &vec![0, 1, 2],
        &vec![agreed(), Some(info(Some(2), &[0, 1, 2])), agreed()]
    ));
    // a node sees another membership
    assert!(!ensure_membership(
        &vec![0, 1, 2],
        &vec![0, 1, 2],
        &vec![agreed(), agreed(), Some(info(Some(1), &[0, 1]))]
    ));
    // the members are others than expected
    assert!(!ensure_membership(&vec![0, 1, 2], &vec![0, 1], &vec![agreed(), agreed(), agreed()]));
    assert!(!ensure_membership(&vec![0, 1, 2], &vec![0, 1, 3], &vec![agreed(), agreed(), agreed()]));
    // the leader is not among the live nodes
    assert!(!ensure_membership(&vec![0, 2], &vec![0, 1, 2], &vec![agreed(), agreed()]));
    // no leader is known
    let headless = || Some(info(None, &[0, 1, 2]));
    assert!(!ensure_membership(&vec![0, 1], &vec![0, 1, 2], &vec![headless(), headless()]));
    // fewer answers than live nodes, and no live nodes at all
    assert!(!ensure_membership(&vec![0, 1], &vec![0, 1, 2], &vec![agreed()]));
    assert!(!ensure_membership(&vec![], &vec![], &vec![]));
    // the report is held against the sorted list of the members asked for
    let twice = || Some(info(Some(1), &[1, 1]));
    assert!(ensure_membership(&vec![1], &vec![1, 1], &vec![twice()]));
    assert!(!ensure_membership(&vec![1], &vec![1], &vec![twice()]));
    assert_eq!(sorted_ids(&vec![3, 1, 2, 1]), vec![1, 1, 2, 3]);
    let unsorted = || Some(info(Some(1), &[1, 0]));
    assert!(!ensure_membership(&vec![1], &vec![0, 1], &vec![unsorted()]));
}

#[test]
fn admin_requests_are_served() {
    let mut p = RaftProcess::new(0, BallotStore::new(), 0, 300);
    let i = cluster_info(&p);
    assert!(i.eq(&info(None, &[])));
    // nothing to add another server to
    assert!(matches!(serve_admin(&mut p, AdminOp::AddServer(1), 0, 300), Err(Error::LeaderUnknown)));
    assert!(matches!(
        serve_admin(&mut p, AdminOp::TimeoutNow, 0, 300),
        Ok(AdminReply::Election(ElectionStep::Idle))
    ));
    assert!(matches!(
        serve_admin(&mut p, AdminOp::AddServer(0), 0, 300),
        Ok(AdminReply::Submitted(Submitted::Accepted(2)))
    ));
    assert!(p.is_leader());
    match serve_admin(&mut p, AdminOp::ClusterInfo, 0, 300).unwrap() {
        AdminReply::Info(i) => assert!(i.eq(&info(Some(0), &[0]))),
        _ => panic!("no report"),
    }
    assert!(matches!(
        serve_admin(&mut p, AdminOp::RemoveServer(0), 0, 300),
        Ok(AdminReply::Submitted(Submitted::ConfigurationPending))
    ));
    assert!(p.advance_commit());
    assert!(matches!(
        serve_admin(&mut p, AdminOp::AddServer(1), 0, 300),
        Ok(AdminReply::Submitted(Submitted::Accepted(4)))
    ));
    assert!(cluster_info(&p).eq(&info(Some(0), &[0, 1])));
    // a leader does not call an election
    assert!(matches!(
        serve_admin(&mut p, AdminOp::TimeoutNow, 0, 300),
        Ok(AdminReply::Election(ElectionStep::Idle))
    ));
}

#[test]
fn loops_wake_as_the_table_says() {
    let table = [
        (ThreadKind::AdvanceCommit, Some(100), Some(Wakeup::Commit)),
        (ThreadKind::AdvanceUser, Some(100), Some(Wakeup::Commit)),
        (ThreadKind::AdvanceKern, Some(100), Some(Wakeup::Kern)),
        (ThreadKind::AdvanceSnapshot, Some(1000), None),
        (ThreadKind::Election, Some(300), None),
        (ThreadKind::Heartbeat, Some(300), None),
        (ThreadKind::LogCompaction, Some(1000), None),
        (ThreadKind::QueryExecution, None, Some(Wakeup::Queue)),
        (ThreadKind::Replication, None, Some(Wakeup::Replication)),
        (ThreadKind::SnapshotDeleter, Some(1000), None),
        (ThreadKind::Stepdown, Some(100), None),
    ];
    for (kind, interval, wakeup) in table {
        assert_eq!(kind.interval_ms(), interval);
        assert_eq!(kind.wakeup(), wakeup);
    }
    assert_eq!(commit::Thread::new().interval_ms, 100);
    assert_eq!(execution::Thread::new().interval_ms, 100);
    assert_eq!(gc::Thread::new().interval_ms, 1000);
    assert_eq!(advance_snapshot::Thread::new().interval_ms, 1000);
    assert_eq!(stepdown::Thread::new().interval_ms, 100);
    assert_eq!(QueueEvent, QueueEvent);
    assert_eq!(ReplicationEvent, ReplicationEvent);
    assert_eq!(CommitEvent, CommitEvent);
    assert_eq!(KernEvent, KernEvent);
}

#[test]
fn outcomes_name_the_loop_to_wake() {
    assert_eq!(Submitted::Accepted(7).signal(), Some(ReplicationEvent));
    assert_eq!(Submitted::Redirect(1).signal(), None);
    assert_eq!(Submitted::ConfigurationPending.signal(), None);
    assert_eq!(AppendOutcome::Appended(7).signal(), Some(ReplicationEvent));
    assert_eq!(AppendOutcome::ConfigurationPending.signal(), None);
    assert_eq!(ReadPlan::AfterApplied(3).signal(), Some(QueueEvent));
    assert_eq!(ReadPlan::Execute.signal(), None);
    assert_eq!(ReadPlan::Redirect(2).signal(), None);
    let kernel = Applied { index: 4, command: Command::Kernel { bytes: vec![1] } };
    assert_eq!(kernel.signal(), Some(KernEvent));
    let user = Applied { index: 5, command: Command::User { bytes: vec![1] } };
    assert_eq!(user.signal(), None);

    let mut p = RaftProcess::new(0, BallotStore::new(), 0, 300);
    p.add_server(0, 0, 300).unwrap();
    assert_eq!(p.write(&vec![1]).unwrap().signal(), Some(ReplicationEvent));
    assert_eq!(p.read(false).unwrap().signal(), Some(QueueEvent));
    assert_eq!(p.read(true).unwrap().signal(), None);
    let follower = RaftProcess::new(1, BallotStore::new(), 0, 300);
    assert!(follower.read(false).is_err());
}

#[test]
fn loops_do_their_rounds() {
    let mut p = RaftProcess::new(0, BallotStore::new(), 0, 300);
    p.add_server(0, 0, 300).unwrap();
    for n in 0..5u8 {
        p.write(&vec![n]).unwrap();
    }
    // a follower's commit loop does nothing
    let mut idle = RaftProcess::new(1, BallotStore::new(), 0, 300);
    assert_eq!(commit::Thread::new().run(&mut idle), 0);
    assert!(!commit::Thread::new().run_once(&mut idle));

    assert_eq!(commit::Thread::new().run(&mut p), 1);
    assert_eq!(p.command_log().commit_pointer(), 8);
    assert_eq!(commit::Thread::new().run(&mut p), 0);

    let (work, applied) = execution::Thread::new().run_once(&mut p);
    assert!(work);
    assert_eq!(applied.len(), 7);
    let (work, applied) = execution::Thread::new().run_once(&mut p);
    assert!(!work && applied.is_empty());

    let snapshot = advance_snapshot::Thread::new();
    assert_eq!(snapshot.run_once(&mut p, 6), Ok(true));
    assert_eq!(snapshot.run_once(&mut p, 6), Ok(false));
    assert_eq!(snapshot.run_once(&mut p, 9), Err(Error::EntryNotFound(9)));

    assert_eq!(gc::Thread::new().run_once(&mut p), 6);
    assert_eq!(p.command_log().get_log_head_index(), 6);

    assert_eq!(stepdown::Thread::new().run_once(&p), Err(Stepdown::StillMember));
    assert_eq!(stepdown::Thread::new().transfer_sent(&mut p), Err(Stepdown::StillMember));
    assert!(p.is_leader());
    assert_eq!(p.remove_server(0), Ok(Submitted::Accepted(9)));
    assert_eq!(stepdown::Thread::new().run_once(&p), Err(Stepdown::MembershipNotCommitted));
    assert_eq!(
        stepdown::Thread::new().transfer_sent(&mut p),
        Err(Stepdown::MembershipNotCommitted)
    );
    assert!(p.is_leader());
    // nobody is left to vote: the removal of the last member never commits
    assert_eq!(commit::Thread::new().run(&mut p), 0);
    assert_eq!(stepdown::Thread::new().run_once(&idle), Err(Stepdown::NotLeader));
    assert_eq!(stepdown::Thread::new().transfer_sent(&mut idle), Err(Stepdown::NotLeader));
}
