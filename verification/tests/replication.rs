//! Quorum arithmetic, the replication driver's bookkeeping, and the random
//! election timeout.

use raft_core::driver::{DriverState, DriverVerdict};
use raft_core::peer::find_peer;
use raft_core::quorum::{count_votes, has_quorum, max_quorum_supported};
use raft_core::rng::{election_timeout_ms, random_in_range};
use raft_core::types::{AppendEntriesReply, LogEntry, PeerId};
use raft_core::RaftWorker;

fn peer(name: &str) -> PeerId {
    PeerId { bytes: name.as_bytes().to_vec() }
}

#[test]
fn process_group_name_is_stable() {
    assert_eq!(RaftWorker::pg_name(), "raft_worker");
}

#[test]
fn vote_counting_and_quorum() {
    assert_eq!(count_votes(&vec![true, false, true]), 2);
    assert!(has_quorum(&vec![true, false, true], 3));
    assert!(!has_quorum(&vec![true, false, false], 3));
    assert!(has_quorum(&vec![false], 1), "a cluster of one needs nobody else");
    assert!(!has_quorum(&vec![true, true, false, false], 4));
    assert!(has_quorum(&vec![true, true, true, false], 4));
    assert!(has_quorum(&vec![true, true, true, false, false], 5));
}

#[test]
fn median_high_of_match_slots() {
    assert_eq!(max_quorum_supported(&vec![5, 5, 0], 2), 5);
    assert_eq!(max_quorum_supported(&vec![3, 1, 2], 2), 2);
    assert_eq!(max_quorum_supported(&vec![0, 0, 0], 2), 0);
    assert_eq!(max_quorum_supported(&vec![7], 1), 7);
    assert_eq!(max_quorum_supported(&vec![9, 4, 6, 2, 8], 3), 6);
}

#[test]
fn peer_identity_equality_and_lookup() {
    let a = peer("A");
    assert!(a.eq_id(&peer("A")));
    assert!(!a.eq_id(&peer("AB")));
    assert!(!a.eq_id(&peer("B")));
    let copy = a.duplicate();
    assert_eq!(copy.bytes, a.bytes);

    let servers = vec![peer("A"), peer("B"), peer("C")];
    assert_eq!(find_peer(&servers, &peer("B")), Some(1));
    assert_eq!(find_peer(&servers, &peer("Z")), None);
}

#[test]
fn driver_ships_a_bounded_batch() {
    let log = vec![
        LogEntry { term: 1, payload: b"a".to_vec() },
        LogEntry { term: 1, payload: b"b".to_vec() },
        LogEntry { term: 1, payload: b"c".to_vec() },
    ];
    let d = DriverState { next_index: 1, match_index: 0 };
    let ask = d.build_ask(&log, 1, 0, &peer("A"), 2);
    assert_eq!(ask.prev_log_index, 0);
    assert_eq!(ask.prev_log_term, 0);
    assert_eq!(ask.entries.len(), 2, "the batch bound caps what one ask ships");
    assert_eq!(ask.entries[0].payload, b"a".to_vec());
    assert_eq!(ask.entries[1].payload, b"b".to_vec());
}

#[test]
fn driver_heartbeat_when_caught_up() {
    let log = vec![LogEntry { term: 2, payload: b"a".to_vec() }];
    let d = DriverState::new(1);
    let ask = d.build_ask(&log, 2, 1, &peer("A"), 10);
    assert!(ask.entries.is_empty());
    assert_eq!(ask.prev_log_index, 1);
    assert_eq!(ask.prev_log_term, 2);
    assert_eq!(ask.leader_commit, 1);
}

#[test]
fn driver_success_advances_and_reports() {
    let mut d = DriverState { next_index: 3, match_index: 0 };
    let rep = AppendEntriesReply { term: 1, success: true };
    let v = d.on_reply(2, 4, &rep, 1);
    assert_eq!(v, DriverVerdict::Report { match_index: 6 });
    assert_eq!(d.match_index, 6);
    assert_eq!(d.next_index, 7);
}

#[test]
fn driver_refusal_backs_off_to_at_least_one() {
    let mut d = DriverState { next_index: 2, match_index: 0 };
    let rep = AppendEntriesReply { term: 1, success: false };
    assert_eq!(d.on_reply(1, 0, &rep, 1), DriverVerdict::Retry);
    assert_eq!(d.next_index, 1);
    assert_eq!(d.on_reply(0, 0, &rep, 1), DriverVerdict::Retry);
    assert_eq!(d.next_index, 1, "next_index never drops below the first entry");
}

#[test]
fn driver_hands_up_a_higher_term() {
    let mut d = DriverState { next_index: 5, match_index: 4 };
    let rep = AppendEntriesReply { term: 9, success: false };
    assert_eq!(d.on_reply(4, 0, &rep, 1), DriverVerdict::StepDown(9));
    assert_eq!(d.next_index, 5, "a step-down leaves the bookkeeping alone");
    assert_eq!(d.match_index, 4);
}

#[test]
fn election_timeout_stays_in_range() {
    for _ in 0..200 {
        let t = election_timeout_ms(150, 300);
        assert!((150..=300).contains(&t));
    }
}

#[test]
fn degenerate_range_is_deterministic() {
    assert_eq!(random_in_range(5, 5), 5);
}
