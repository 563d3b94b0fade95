//! End-to-end scenarios driven against the peer core: bootstrap, elections,
//! catch-up, divergent-tail truncation, the cross-term commit restriction,
//! and recovery from the durable records after a crash.

use raft_core::codec::{decode_saved, encode_saved};
use raft_core::driver::{DriverState, DriverVerdict};
use raft_core::peer::{ClusterConfig, PeerState};
use raft_core::types::{
    Action, AppendEntriesAsk, LogEntry, PeerId, RaftSaved, RequestVoteReply, Role,
};

fn peer(name: &str) -> PeerId {
    PeerId { bytes: name.as_bytes().to_vec() }
}

fn cfg1() -> ClusterConfig {
    ClusterConfig {
        servers: vec![peer("n1")],
        min_election_ms: 150,
        max_election_ms: 300,
        heartbeat_ms: 50,
        batch_max: 10,
        crash_gate: false,
    }
}

fn cfg3() -> ClusterConfig {
    ClusterConfig {
        servers: vec![peer("A"), peer("B"), peer("C")],
        min_election_ms: 150,
        max_election_ms: 300,
        heartbeat_ms: 50,
        batch_max: 10,
        crash_gate: false,
    }
}

fn delivered(acts: &[Action]) -> Vec<(u64, Vec<u8>)> {
    acts.iter()
        .filter_map(|a| match a {
            Action::Deliver { index, payload } => Some((*index, payload.clone())),
            _ => None,
        })
        .collect()
}

fn vote_ask_to(acts: Vec<Action>, name: &str) -> raft_core::types::RequestVoteAsk {
    for a in acts {
        if let Action::SendRequestVote { to, ask } = a {
            if to.bytes == name.as_bytes() {
                return ask;
            }
        }
    }
    panic!("no vote ask addressed to {name}");
}

fn vote_reply(acts: Vec<Action>) -> RequestVoteReply {
    for a in acts {
        if let Action::SendVoteReply { reply, .. } = a {
            return reply;
        }
    }
    panic!("no vote reply in actions");
}

fn clone_log(log: &[LogEntry]) -> Vec<LogEntry> {
    log.iter().map(|e| LogEntry { term: e.term, payload: e.payload.clone() }).collect()
}

/// Brings a fresh three-peer state at position `me` to Leader of term 1 by
/// a timed-out election and one granted vote.
fn elected_leader(me: usize) -> PeerState {
    let mut p = PeerState::new(cfg3(), me, false);
    let _ = p.start_new_election();
    let granter = if me == 0 { "B" } else { "A" };
    let _ = p.received_vote(RequestVoteReply {
        term: p.current_term,
        vote_granted: true,
        vote_from: peer(granter),
    });
    assert_eq!(p.role, Role::Leader);
    p
}

#[test]
fn singleton_bootstrap_commits_first_entry() {
    let mut a = PeerState::new(cfg1(), 0, true);
    assert_eq!(a.role, Role::Leader);
    assert_eq!(a.current_term, 0);
    let (res, acts) = a.submit(b"x".to_vec());
    assert_eq!(res.ok(), Some(1));
    assert!(acts.iter().any(|x| matches!(
        x,
        Action::WriteLog { from: 1, .. }
    )));
    let acts = a.try_advance_commit_index(None, 0);
    assert_eq!(a.commit_index, 1);
    assert_eq!(a.last_applied, 1);
    assert_eq!(delivered(&acts), vec![(1, b"x".to_vec())]);
    assert!(acts.iter().any(|x| matches!(
        x,
        Action::NotifyDrivers { commit_index: 1, .. }
    )));
}

#[test]
fn three_peer_election_after_leader_loss() {
    // A led and is gone. B and C time out together and split the vote in
    // term 1; B times out again and wins term 2.
    let mut b = PeerState::new(cfg3(), 1, false);
    let mut c = PeerState::new(cfg3(), 2, false);
    let acts_b = b.start_new_election();
    let _ = c.start_new_election();
    assert_eq!(b.current_term, 1);
    assert_eq!(c.current_term, 1);
    let ask = vote_ask_to(acts_b, "C");
    let reply = vote_reply(c.handle_request_vote(ask));
    assert!(!reply.vote_granted, "a candidate has already voted for itself");
    let _ = b.received_vote(reply);
    assert_eq!(b.role, Role::Candidate);

    let acts_b2 = b.start_new_election();
    assert_eq!(b.current_term, 2);
    let ask2 = vote_ask_to(acts_b2, "C");
    let reply2 = vote_reply(c.handle_request_vote(ask2));
    assert!(reply2.vote_granted);
    let _ = b.received_vote(reply2);
    assert_eq!(b.role, Role::Leader);
    assert!(b.current_term >= 2);
    assert_ne!(c.role, Role::Leader);

    // One heartbeat converges the follower on the new leader.
    let d = DriverState::new(b.log.len() as u64);
    let hb = d.build_ask(&b.log, b.current_term, b.commit_index, &peer("B"), 10);
    assert!(hb.entries.is_empty());
    let (rep, _) = c.handle_append_entries(hb);
    assert!(rep.success);
    assert_eq!(c.leader_id.as_ref().unwrap().bytes, b"B".to_vec());
    assert_eq!(c.current_term, b.current_term);
}

#[test]
fn log_catch_up_after_partition() {
    let mut a = elected_leader(0);
    for i in 1u64..=5 {
        let (r, _) = a.submit(vec![b'0' + i as u8]);
        assert_eq!(r.ok(), Some(i));
    }
    // B keeps pace, so the leader commits 1..=5 while C is cut off.
    let _ = a.try_advance_commit_index(Some(&peer("B")), 5);
    assert_eq!(a.commit_index, 5);

    // C reconnects; the driver walks next_index back, then ships the log.
    let mut c = PeerState::new(cfg3(), 2, false);
    let mut d = DriverState::new(5);
    let mut rounds = 0;
    loop {
        let ask = d.build_ask(&a.log, a.current_term, a.commit_index, &peer("A"), 10);
        let sent_prev = ask.prev_log_index;
        let sent_count = ask.entries.len();
        let (rep, _) = c.handle_append_entries(ask);
        match d.on_reply(sent_prev, sent_count, &rep, a.current_term) {
            DriverVerdict::Report { match_index } => {
                assert_eq!(match_index, 5);
                break;
            },
            DriverVerdict::Retry => {},
            DriverVerdict::StepDown(_) => panic!("follower must not outrank the leader"),
        }
        rounds += 1;
        assert!(rounds < 20, "driver failed to converge");
    }
    assert_eq!(c.log.len(), 5);
    for i in 0..5 {
        assert_eq!(c.log[i].term, a.log[i].term);
        assert_eq!(c.log[i].payload, a.log[i].payload);
    }
}

#[test]
fn divergent_tail_is_truncated() {
    // A crashed as leader of term 1 with an unreplicated second entry.
    let old_log = vec![
        LogEntry { term: 1, payload: b"a".to_vec() },
        LogEntry { term: 1, payload: b"b".to_vec() },
    ];
    let saved = RaftSaved { current_term: 1, voted_for: Some(peer("A")) };
    let mut a = PeerState::recover(cfg3(), 0, saved, old_log);
    assert_eq!(a.role, Role::Follower);

    // B won term 2 and committed its own second entry.
    let ask = AppendEntriesAsk {
        term: 2,
        leader_id: peer("B"),
        prev_log_index: 1,
        prev_log_term: 1,
        entries: vec![LogEntry { term: 2, payload: b"c".to_vec() }],
        leader_commit: 2,
    };
    let (rep, acts) = a.handle_append_entries(ask);
    assert!(rep.success);
    assert_eq!(a.log.len(), 2);
    assert_eq!(a.log[0].payload, b"a".to_vec());
    assert_eq!(a.log[1].term, 2);
    assert_eq!(a.log[1].payload, b"c".to_vec());
    assert_eq!(a.commit_index, 2);
    assert_eq!(delivered(&acts), vec![(1, b"a".to_vec()), (2, b"c".to_vec())]);
}

#[test]
fn commit_restriction_across_terms() {
    // B holds the term-1 entry a crashed leader had replicated to it, and
    // wins term 2 without writing anything new.
    let saved = RaftSaved { current_term: 1, voted_for: None };
    let log = vec![LogEntry { term: 1, payload: b"a".to_vec() }];
    let mut b = PeerState::recover(cfg3(), 1, saved, log);
    let _ = b.start_new_election();
    assert_eq!(b.current_term, 2);
    let _ = b.received_vote(RequestVoteReply {
        term: 2,
        vote_granted: true,
        vote_from: peer("C"),
    });
    assert_eq!(b.role, Role::Leader);

    // A quorum of match_index >= 1 alone must not commit the old entry.
    let _ = b.try_advance_commit_index(Some(&peer("C")), 1);
    assert_eq!(b.commit_index, 0, "an entry of a prior term is never committed by counting");

    // Only after B's own term-2 entry reaches a quorum does the commit
    // index move, and it covers the old entry too.
    let (r, _) = b.submit(b"d".to_vec());
    assert_eq!(r.ok(), Some(2));
    let acts = b.try_advance_commit_index(Some(&peer("C")), 2);
    assert_eq!(b.commit_index, 2);
    assert_eq!(delivered(&acts), vec![(1, b"a".to_vec()), (2, b"d".to_vec())]);
}

#[test]
fn crash_and_recovery_preserves_committed_prefix() {
    let mut a = elected_leader(0);
    for i in 1u64..=3 {
        let (r, _) = a.submit(vec![b'0' + i as u8]);
        assert_eq!(r.ok(), Some(i));
    }
    let _ = a.try_advance_commit_index(Some(&peer("B")), 3);
    assert_eq!(a.commit_index, 3);
    let term_before = a.current_term;
    let voted_before = a.voted_for.as_ref().map(|p| p.bytes.clone());

    // The process dies. All that survives is the restore record and the
    // log partition, both written through the returned actions.
    let durable = encode_saved(&a.saved_record());
    let disk_log = clone_log(&a.log);

    let saved = decode_saved(&durable).expect("durable record decodes");
    let mut a2 = PeerState::recover(cfg3(), 0, saved, disk_log);
    assert_eq!(a2.current_term, term_before);
    assert_eq!(a2.voted_for.as_ref().map(|p| p.bytes.clone()), voted_before);
    assert_eq!(a2.role, Role::Follower);
    assert_eq!(a2.log.len(), 3);

    // The next leader replays the same prefix: nothing is lost, nothing
    // reordered, and delivery resumes in order from the start.
    let ask = AppendEntriesAsk {
        term: term_before + 1,
        leader_id: peer("B"),
        prev_log_index: 0,
        prev_log_term: 0,
        entries: clone_log(&a.log),
        leader_commit: 3,
    };
    let (rep, acts) = a2.handle_append_entries(ask);
    assert!(rep.success);
    assert_eq!(a2.log.len(), 3);
    for i in 0..3 {
        assert_eq!(a2.log[i].payload, a.log[i].payload);
    }
    assert_eq!(a2.commit_index, 3);
    assert_eq!(a2.last_applied, 3);
    assert_eq!(
        delivered(&acts),
        vec![
            (1, b"1".to_vec()),
            (2, b"2".to_vec()),
            (3, b"3".to_vec()),
        ]
    );
}

#[test]
fn reapplying_the_same_suffix_is_a_no_op() {
    let mut f = PeerState::new(cfg3(), 2, false);
    let mk = || AppendEntriesAsk {
        term: 1,
        leader_id: peer("A"),
        prev_log_index: 0,
        prev_log_term: 0,
        entries: vec![
            LogEntry { term: 1, payload: b"a".to_vec() },
            LogEntry { term: 1, payload: b"b".to_vec() },
        ],
        leader_commit: 1,
    };
    let (rep1, _) = f.handle_append_entries(mk());
    assert!(rep1.success);
    let snapshot: Vec<(u32, Vec<u8>)> =
        f.log.iter().map(|e| (e.term, e.payload.clone())).collect();
    let (rep2, acts2) = f.handle_append_entries(mk());
    assert!(rep2.success);
    let after: Vec<(u32, Vec<u8>)> = f.log.iter().map(|e| (e.term, e.payload.clone())).collect();
    assert_eq!(snapshot, after);
    assert!(delivered(&acts2).is_empty(), "nothing newly committed on the retry");
}

#[test]
fn vote_granted_once_per_term() {
    let mut a = PeerState::new(cfg3(), 0, false);
    let ask_b = raft_core::types::RequestVoteAsk {
        term: 1,
        candidate_name: peer("B"),
        last_log_index: 0,
        last_log_term: 0,
    };
    let reply = vote_reply(a.handle_request_vote(ask_b));
    assert!(reply.vote_granted);
    assert_eq!(reply.term, 1);

    let ask_c = raft_core::types::RequestVoteAsk {
        term: 1,
        candidate_name: peer("C"),
        last_log_index: 0,
        last_log_term: 0,
    };
    let reply = vote_reply(a.handle_request_vote(ask_c));
    assert!(!reply.vote_granted, "the vote of term 1 is already spent");
    assert_eq!(reply.term, 1);
}

#[test]
fn vote_requires_up_to_date_log() {
    let saved = RaftSaved { current_term: 1, voted_for: None };
    let log = vec![LogEntry { term: 1, payload: b"a".to_vec() }];
    let mut a = PeerState::recover(cfg3(), 0, saved, log);

    let behind = raft_core::types::RequestVoteAsk {
        term: 2,
        candidate_name: peer("B"),
        last_log_index: 0,
        last_log_term: 0,
    };
    let reply = vote_reply(a.handle_request_vote(behind));
    assert!(!reply.vote_granted, "a candidate with the shorter log is refused");
    assert_eq!(a.current_term, 2);

    let current = raft_core::types::RequestVoteAsk {
        term: 2,
        candidate_name: peer("C"),
        last_log_index: 1,
        last_log_term: 1,
    };
    let reply = vote_reply(a.handle_request_vote(current));
    assert!(reply.vote_granted);
}

#[test]
fn stale_term_messages_are_refused() {
    let saved = RaftSaved { current_term: 5, voted_for: None };
    let mut a = PeerState::recover(cfg3(), 0, saved, vec![]);

    let ask = raft_core::types::RequestVoteAsk {
        term: 3,
        candidate_name: peer("B"),
        last_log_index: 9,
        last_log_term: 3,
    };
    let reply = vote_reply(a.handle_request_vote(ask));
    assert!(!reply.vote_granted);
    assert_eq!(reply.term, 5, "the answer carries the own, newer term");

    let append = AppendEntriesAsk {
        term: 3,
        leader_id: peer("B"),
        prev_log_index: 0,
        prev_log_term: 0,
        entries: vec![],
        leader_commit: 0,
    };
    let (rep, acts) = a.handle_append_entries(append);
    assert!(!rep.success);
    assert_eq!(rep.term, 5);
    assert!(acts.is_empty());
    assert_eq!(a.current_term, 5);
}

#[test]
fn inconsistent_suffix_is_refused_for_backoff() {
    let mut f = PeerState::new(cfg3(), 2, false);
    let ask = AppendEntriesAsk {
        term: 1,
        leader_id: peer("A"),
        prev_log_index: 4,
        prev_log_term: 1,
        entries: vec![LogEntry { term: 1, payload: b"e".to_vec() }],
        leader_commit: 5,
    };
    let (rep, _) = f.handle_append_entries(ask);
    assert!(!rep.success, "a gap before the suffix fails the consistency check");
    assert_eq!(f.log.len(), 0);
    assert_eq!(f.commit_index, 0);
}

#[test]
fn submit_to_non_leader_redirects() {
    let mut f = PeerState::new(cfg3(), 2, false);
    let (r, acts) = f.submit(b"x".to_vec());
    let err = r.err().expect("a follower refuses client commands");
    assert!(err.leader_hint.is_none());
    assert!(acts.is_empty());

    // After a heartbeat the follower knows where to redirect.
    let hb = AppendEntriesAsk {
        term: 1,
        leader_id: peer("A"),
        prev_log_index: 0,
        prev_log_term: 0,
        entries: vec![],
        leader_commit: 0,
    };
    let _ = f.handle_append_entries(hb);
    let (r, _) = f.submit(b"x".to_vec());
    let err = r.err().unwrap();
    assert_eq!(err.leader_hint.unwrap().bytes, b"A".to_vec());
}

#[test]
fn heartbeat_commit_is_capped_by_log_length() {
    let mut f = PeerState::new(cfg3(), 2, false);
    let hb = AppendEntriesAsk {
        term: 1,
        leader_id: peer("A"),
        prev_log_index: 0,
        prev_log_term: 0,
        entries: vec![],
        leader_commit: 7,
    };
    let (rep, acts) = f.handle_append_entries(hb);
    assert!(rep.success);
    assert_eq!(f.commit_index, 0, "nothing held locally can be committed yet");
    assert!(delivered(&acts).is_empty());
}
