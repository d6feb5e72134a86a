use lolraft::ballot::{BallotStore, Vote};
use lolraft::clock::Clock;
use lolraft::command::Command;
use lolraft::command_log::CommandLog;
use lolraft::membership::Membership;
use lolraft::quorum_join::{quorum_join, QuorumJoin};
use lolraft::voter::{
    clamp_timeout, ElectionState, ElectionStep, Stepdown, VoteRequest, VoteResponse, Voter,
    ELECTION_TIMEOUT_MAX_MS, ELECTION_TIMEOUT_MIN_MS,
};

fn voter_with(id: u64, ballot: Vote) -> Voter {
    let mut store = BallotStore::new();
    store.save_ballot(ballot);
    Voter::new(id, store, 0, 300)
}

fn request(candidate_id: u64, term: u64, last: (u64, u64), prevote: bool) -> VoteRequest {
    VoteRequest { candidate_id, term, last_clock: Clock { term: last.0, index: last.1 }, prevote }
}

fn members(ids: &[u64]) -> Membership {
    Membership::from_ids(&ids.to_vec())
}

fn yes(term: u64) -> VoteResponse {
    VoteResponse { vote_granted: true, term }
}

fn no(term: u64) -> VoteResponse {
    VoteResponse { vote_granted: false, term }
}

// An awaited answer, and the number of seconds after which it arrives.
fn f(b: bool, exec_sec: u64) -> (bool, u64) {
    (b, exec_sec * 1000)
}

#[test]
fn test_quorum_join_ok() {
    let futs = vec![f(true, 0), f(true, 0), f(false, 0)];
    let ok = quorum_join(1000, 2, &futs);
    assert!(ok);
}

#[test]
fn test_quorum_join_ng() {
    let futs = vec![f(true, 0), f(false, 0), f(false, 0)];
    let ok = quorum_join(1000, 2, &futs);
    assert!(!ok);
}

#[test]
fn test_quorum_join_wait_ok() {
    let futs = vec![f(true, 2), f(true, 2), f(true, 4)];
    let ok = quorum_join(3000, 2, &futs);
    assert!(ok);
}

#[test]
fn test_quorum_join_timeout_ng() {
    let futs = vec![f(true, 0), f(true, 2), f(true, 2)];
    let ok = quorum_join(1000, 2, &futs);
    assert!(!ok);
}

#[test]
fn quorum_join_edge_cases() {
    assert!(quorum_join(0, 0, &vec![]));
    assert!(!quorum_join(1000, 1, &vec![]));
    assert!(quorum_join(1000, 0, &vec![f(false, 0)]));
    // nobody needs to agree, but the first answer is waited for
    assert!(!quorum_join(1000, 0, &vec![f(true, 2)]));
    assert!(quorum_join(1000, 0, &vec![f(true, 2), f(false, 1)]));
    assert!(!quorum_join(1000, 3, &vec![f(true, 0), f(true, 0)]));
    assert!(quorum_join(1000, 1, &vec![f(true, 1)]));
    assert!(!quorum_join(999, 1, &vec![f(true, 1)]));
}

#[test]
fn tally_decides_as_soon_as_it_can() {
    let mut q = QuorumJoin::new(2, 3);
    assert_eq!(q.verdict(), None);
    assert_eq!(q.on_reply(false), None);
    assert_eq!(q.on_reply(true), None);
    assert_eq!(q.on_reply(true), Some(true));
    assert_eq!((q.ack, q.ok), (3, 2));
    // nothing is counted after the verdict
    assert_eq!(q.on_reply(true), Some(true));
    assert_eq!((q.ack, q.ok), (3, 2));

    let mut q = QuorumJoin::new(2, 3);
    assert_eq!(q.on_reply(true), None);
    assert_eq!(q.on_reply(true), Some(true));
    assert_eq!(q.ack, 2);

    let mut q = QuorumJoin::new(2, 3);
    assert_eq!(q.on_reply(false), None);
    assert_eq!(q.on_reply(false), None);
    assert_eq!(q.on_reply(true), Some(false));

    assert_eq!(QuorumJoin::new(3, 2).verdict(), Some(false));
    assert_eq!(QuorumJoin::new(0, 0).verdict(), Some(true));
    assert_eq!(QuorumJoin::new(1, 0).verdict(), Some(false));
    // nobody needs to agree, but the first answer is waited for
    let mut q = QuorumJoin::new(0, 5);
    assert_eq!(q.verdict(), None);
    assert_eq!(q.on_reply(false), Some(true));
    assert_eq!((q.ack, q.ok), (1, 0));
}

#[test]
fn election_timeout_stays_within_bounds() {
    assert_eq!(ELECTION_TIMEOUT_MIN_MS, 300);
    assert_eq!(ELECTION_TIMEOUT_MAX_MS, 600);
    assert_eq!(clamp_timeout(0), 300);
    assert_eq!(clamp_timeout(299), 300);
    assert_eq!(clamp_timeout(300), 300);
    assert_eq!(clamp_timeout(450), 450);
    assert_eq!(clamp_timeout(600), 600);
    assert_eq!(clamp_timeout(601), 600);
    assert_eq!(clamp_timeout(u64::MAX), 600);
}

#[test]
fn timer_fires_after_the_timeout() {
    let v = Voter::new(1, BallotStore::new(), 1000, 450);
    assert!(!v.election_timed_out(1000));
    assert!(!v.election_timed_out(1449));
    assert!(v.election_timed_out(1450));
    assert!(v.election_timed_out(9000));
    // a clock that went back does not fire the timer
    assert!(!v.election_timed_out(10));
}

#[test]
fn vote_is_granted_to_a_newer_term() {
    let mut v = voter_with(1, Vote { cur_term: 3, voted_for: Some(7) });
    let r = v.receive_vote_request(&request(9, 4, (0, 0), false), Clock::zero());
    assert_eq!(r, VoteResponse { vote_granted: true, term: 4 });
    assert_eq!(v.read_ballot(), Vote { cur_term: 4, voted_for: Some(9) });
    assert_eq!(v.read_election_state(), ElectionState::Follower);
}

#[test]
fn vote_is_given_once_per_term() {
    let mut v = voter_with(1, Vote { cur_term: 3, voted_for: None });
    let r = v.receive_vote_request(&request(9, 3, (0, 0), false), Clock::zero());
    assert!(r.vote_granted);
    assert_eq!(v.read_ballot(), Vote { cur_term: 3, voted_for: Some(9) });
    // the same candidate asks again
    let r = v.receive_vote_request(&request(9, 3, (0, 0), false), Clock::zero());
    assert!(r.vote_granted);
    // another candidate of the same term
    let r = v.receive_vote_request(&request(8, 3, (5, 5), false), Clock::zero());
    assert_eq!(r, VoteResponse { vote_granted: false, term: 3 });
    assert_eq!(v.read_ballot(), Vote { cur_term: 3, voted_for: Some(9) });
}

#[test]
fn vote_is_refused_to_an_older_term() {
    let mut v = voter_with(1, Vote { cur_term: 3, voted_for: None });
    let r = v.receive_vote_request(&request(9, 2, (9, 9), false), Clock::zero());
    assert_eq!(r, VoteResponse { vote_granted: false, term: 3 });
    assert_eq!(v.read_ballot(), Vote { cur_term: 3, voted_for: None });
}

#[test]
fn vote_is_refused_to_a_stale_log() {
    let mut v = voter_with(1, Vote { cur_term: 3, voted_for: None });
    let local = Clock { term: 2, index: 10 };
    // an older last term loses, however long the log
    let r = v.receive_vote_request(&request(9, 4, (1, 99), false), local);
    assert_eq!(r, VoteResponse { vote_granted: false, term: 4 });
    // the newer term is taken over all the same, without a vote
    assert_eq!(v.read_ballot(), Vote { cur_term: 4, voted_for: None });
    // the same last term with a shorter log loses
    let r = v.receive_vote_request(&request(9, 4, (2, 9), false), local);
    assert!(!r.vote_granted);
    // the same last term with an equal log wins
    let r = v.receive_vote_request(&request(9, 4, (2, 10), false), local);
    assert!(r.vote_granted);
    assert_eq!(v.read_ballot(), Vote { cur_term: 4, voted_for: Some(9) });
    // a newer last term wins, however short the log
    let mut v = voter_with(1, Vote { cur_term: 3, voted_for: None });
    let r = v.receive_vote_request(&request(9, 4, (3, 1), false), local);
    assert!(r.vote_granted);
}

#[test]
fn straw_vote_changes_nothing() {
    let mut v = voter_with(1, Vote { cur_term: 3, voted_for: None });
    let r = v.receive_vote_request(&request(9, 4, (0, 0), true), Clock::zero());
    assert_eq!(r, VoteResponse { vote_granted: true, term: 3 });
    assert_eq!(v.read_ballot(), Vote { cur_term: 3, voted_for: None });
    let r = v.receive_vote_request(&request(9, 2, (0, 0), true), Clock::zero());
    assert!(!r.vote_granted);
    assert_eq!(v.read_ballot(), Vote { cur_term: 3, voted_for: None });
}

#[test]
fn single_member_leads_at_once() {
    let mut v = voter_with(1, Vote { cur_term: 3, voted_for: None });
    let step = v.start_election(members(&[1]), Clock::zero(), 500, 400);
    assert_eq!(step, ElectionStep::Elected);
    assert_eq!(v.read_election_state(), ElectionState::Leader);
    assert_eq!(v.read_ballot(), Vote { cur_term: 4, voted_for: Some(1) });
    assert_eq!(v.leader_id(), Some(1));
    // a leader starts no election
    assert_eq!(v.start_election(members(&[1]), Clock::zero(), 900, 400), ElectionStep::Idle);
    assert_eq!(v.read_ballot().cur_term, 4);
}

#[test]
fn outsider_and_exhausted_node_do_not_campaign() {
    let mut v = voter_with(1, Vote { cur_term: 3, voted_for: None });
    assert_eq!(v.start_election(members(&[2, 3]), Clock::zero(), 0, 0), ElectionStep::Idle);
    assert_eq!(v.start_election(members(&[]), Clock::zero(), 0, 0), ElectionStep::Idle);
    assert_eq!(v.read_election_state(), ElectionState::Follower);
    let mut v = voter_with(1, Vote { cur_term: u64::MAX, voted_for: None });
    assert_eq!(v.start_election(members(&[1]), Clock::zero(), 0, 0), ElectionStep::Idle);
    assert_eq!(v.receive_timeout_now(members(&[1]), Clock::zero(), 0, 0), ElectionStep::Idle);
}

#[test]
fn straw_poll_comes_before_the_vote() {
    let last = Clock { term: 2, index: 8 };
    let mut v = voter_with(1, Vote { cur_term: 3, voted_for: None });
    let step = v.start_election(members(&[1, 2, 3]), last, 0, 0);
    let poll = request(1, 4, (2, 8), true);
    assert_eq!(step, ElectionStep::Poll(poll));
    assert_eq!(v.read_election_state(), ElectionState::Candidate);
    // the ballot is untouched while the poll runs
    assert_eq!(v.read_ballot(), Vote { cur_term: 3, voted_for: None });
    // an answer to another poll does not count
    assert_eq!(v.receive_vote_response(2, 5, true, &yes(3), last), ElectionStep::Idle);
    assert_eq!(v.receive_vote_response(2, 4, false, &yes(3), last), ElectionStep::Idle);
    // nor does the answer of an outsider, nor a refusal
    assert_eq!(v.receive_vote_response(9, 4, true, &yes(3), last), ElectionStep::Idle);
    assert_eq!(v.receive_vote_response(2, 4, true, &no(3), last), ElectionStep::Idle);
    assert_eq!(v.read_election_state(), ElectionState::Candidate);
    // a majority of the straw poll starts the election proper
    let step = v.receive_vote_response(2, 4, true, &yes(3), last);
    assert_eq!(step, ElectionStep::Poll(request(1, 4, (2, 8), false)));
    assert_eq!(v.read_ballot(), Vote { cur_term: 4, voted_for: Some(1) });
    assert_eq!(v.read_election_state(), ElectionState::Candidate);
    // answers to the straw poll are stale now
    assert_eq!(v.receive_vote_response(3, 4, true, &yes(3), last), ElectionStep::Idle);
    assert_eq!(v.read_election_state(), ElectionState::Candidate);
    // a majority of votes makes the leader
    assert_eq!(v.receive_vote_response(3, 4, false, &yes(4), last), ElectionStep::Elected);
    assert_eq!(v.read_election_state(), ElectionState::Leader);
    assert_eq!(v.leader_id(), Some(1));
    assert_eq!(v.read_ballot(), Vote { cur_term: 4, voted_for: Some(1) });
}

#[test]
fn one_voter_is_counted_once() {
    let last = Clock::zero();
    let mut v = voter_with(1, Vote { cur_term: 0, voted_for: None });
    v.receive_timeout_now(members(&[1, 2, 3, 4, 5]), last, 0, 0);
    assert_eq!(v.read_election_state(), ElectionState::Candidate);
    assert_eq!(v.receive_vote_response(2, 1, false, &yes(1), last), ElectionStep::Idle);
    assert_eq!(v.receive_vote_response(2, 1, false, &yes(1), last), ElectionStep::Idle);
    assert_eq!(v.receive_vote_response(2, 1, false, &yes(1), last), ElectionStep::Idle);
    assert_eq!(v.read_election_state(), ElectionState::Candidate);
    assert_eq!(v.receive_vote_response(3, 1, false, &yes(1), last), ElectionStep::Elected);
}

#[test]
fn candidate_yields_to_a_newer_term() {
    let last = Clock::zero();
    let mut v = voter_with(1, Vote { cur_term: 3, voted_for: None });
    let step = v.receive_timeout_now(members(&[1, 2, 3]), last, 0, 0);
    assert_eq!(step, ElectionStep::Poll(request(1, 4, (0, 0), false)));
    assert_eq!(v.receive_vote_response(2, 4, false, &no(9), last), ElectionStep::Idle);
    assert_eq!(v.read_election_state(), ElectionState::Follower);
    assert_eq!(v.read_ballot(), Vote { cur_term: 9, voted_for: None });
    assert_eq!(v.receive_vote_response(3, 4, false, &yes(4), last), ElectionStep::Idle);
    assert_eq!(v.read_election_state(), ElectionState::Follower);
}

#[test]
fn candidate_gives_up_on_timeout() {
    let mut v = voter_with(1, Vote { cur_term: 3, voted_for: None });
    assert!(!v.abandon_election());
    v.start_election(members(&[1, 2, 3]), Clock::zero(), 0, 0);
    assert!(v.abandon_election());
    assert_eq!(v.read_election_state(), ElectionState::Follower);
    assert_eq!(v.read_ballot(), Vote { cur_term: 3, voted_for: None });
}

#[test]
fn heartbeat_makes_a_follower() {
    let mut v = voter_with(1, Vote { cur_term: 3, voted_for: Some(1) });
    // an older term is ignored
    assert!(!v.receive_heartbeat(2, 2, 100, 400));
    assert_eq!(v.leader_id(), None);
    // the same term is accepted and keeps the vote
    assert!(v.receive_heartbeat(2, 3, 100, 400));
    assert_eq!(v.leader_id(), Some(2));
    assert_eq!(v.read_ballot(), Vote { cur_term: 3, voted_for: Some(1) });
    assert!(!v.election_timed_out(499));
    assert!(v.election_timed_out(500));
    // a newer term frees the vote
    assert!(v.receive_heartbeat(5, 8, 200, 1000));
    assert_eq!(v.leader_id(), Some(5));
    assert_eq!(v.read_ballot(), Vote { cur_term: 8, voted_for: None });
    assert!(!v.election_timed_out(799));
    assert!(v.election_timed_out(800));
    // a candidate of the same term yields
    let mut c = voter_with(1, Vote { cur_term: 3, voted_for: None });
    c.receive_timeout_now(members(&[1, 2, 3]), Clock::zero(), 0, 0);
    assert_eq!(c.read_election_state(), ElectionState::Candidate);
    assert!(c.receive_heartbeat(2, 4, 0, 0));
    assert_eq!(c.read_election_state(), ElectionState::Follower);
    // a leader ignores a heartbeat of its own term, but yields to a newer one
    let mut l = voter_with(1, Vote { cur_term: 3, voted_for: None });
    l.start_election(members(&[1]), Clock::zero(), 0, 0);
    assert!(!l.receive_heartbeat(2, 4, 0, 0));
    assert_eq!(l.read_election_state(), ElectionState::Leader);
    assert!(l.receive_heartbeat(2, 5, 0, 0));
    assert_eq!(l.read_election_state(), ElectionState::Follower);
}

#[test]
fn newer_term_ends_leadership() {
    let mut l = voter_with(1, Vote { cur_term: 3, voted_for: None });
    l.start_election(members(&[1]), Clock::zero(), 0, 0);
    assert!(!l.observe_term(4));
    assert!(!l.observe_term(1));
    assert_eq!(l.read_election_state(), ElectionState::Leader);
    assert!(l.observe_term(5));
    assert_eq!(l.read_election_state(), ElectionState::Follower);
    assert_eq!(l.read_ballot(), Vote { cur_term: 5, voted_for: None });
    assert_eq!(l.leader_id(), None);
}

#[test]
fn ballot_is_persisted_as_it_stands() {
    let mut v = voter_with(1, Vote { cur_term: 3, voted_for: None });
    v.receive_vote_request(&request(9, 4, (0, 0), false), Clock::zero());
    let disk = v.persist_ballot();
    assert_eq!(Vote::decode(&disk), Ok(Vote { cur_term: 4, voted_for: Some(9) }));
    let back = Voter::new(1, BallotStore::recover(&disk).unwrap(), 0, 0);
    assert_eq!(back.read_ballot(), Vote { cur_term: 4, voted_for: Some(9) });
    assert_eq!(back.self_id(), 1);
}

#[test]
fn stepdown_outcomes() {
    let config = |ids: &[u64]| Command::ClusterConfiguration { membership: members(ids) };

    let mut log = CommandLog::new();
    log.init_cluster(1).unwrap();

    let mut v = voter_with(1, Vote { cur_term: 0, voted_for: None });
    assert_eq!(v.try_stepdown(&log), Err(Stepdown::NotLeader));
    assert_eq!(v.read_election_state(), ElectionState::Follower);

    v.start_election(members(&[1]), log.last_clock(), 0, 0);
    assert_eq!(v.read_election_state(), ElectionState::Leader);
    // the configuration at index 2 is not committed
    assert_eq!(v.try_stepdown(&log), Err(Stepdown::MembershipNotCommitted));
    assert_eq!(v.read_election_state(), ElectionState::Leader);
    log.advance_commit_pointer(2);
    assert_eq!(v.try_stepdown(&log), Err(Stepdown::StillMember));
    assert_eq!(v.read_election_state(), ElectionState::Leader);

    log.append_new_entry(&config(&[2, 3]), 1).unwrap();
    assert_eq!(v.try_stepdown(&log), Err(Stepdown::MembershipNotCommitted));
    log.advance_commit_pointer(3);
    // the check alone changes nothing
    assert_eq!(v.check_stepdown(&log), Ok(()));
    assert_eq!(v.read_election_state(), ElectionState::Leader);
    assert_eq!(v.try_stepdown(&log), Ok(()));
    assert_eq!(v.read_election_state(), ElectionState::Follower);
    assert_eq!(v.read_ballot().cur_term, 1);
    assert_eq!(v.try_stepdown(&log), Err(Stepdown::NotLeader));

    // a leader over an empty log finds no membership to read
    let empty = CommandLog::new();
    let mut l = voter_with(1, Vote { cur_term: 0, voted_for: None });
    l.start_election(members(&[1]), Clock::zero(), 0, 0);
    assert_eq!(l.try_stepdown(&empty), Err(Stepdown::MembershipUnknown));
    assert_eq!(l.read_election_state(), ElectionState::Leader);
}
