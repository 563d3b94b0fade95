//! The stable binary format of the inter-peer messages: round trips and
//! rejection of malformed or truncated bytes.

use raft_core::types::{
    AppendEntriesAsk, AppendEntriesReply, LogEntry, PeerId, RequestVoteAsk, RequestVoteReply,
};
use raft_core::wire::{
    decode_append_ask, decode_append_reply, decode_vote_ask, decode_vote_reply,
    encode_append_ask, encode_append_reply, encode_vote_ask, encode_vote_reply,
};

fn peer(name: &str) -> PeerId {
    PeerId { bytes: name.as_bytes().to_vec() }
}

#[test]
fn vote_ask_round_trip() {
    let ask = RequestVoteAsk {
        term: 3,
        candidate_name: peer("candidate_a"),
        last_log_index: 17,
        last_log_term: 2,
    };
    let bytes = encode_vote_ask(&ask);
    let back = decode_vote_ask(&bytes).expect("valid encoding");
    assert_eq!(back.term, 3);
    assert_eq!(back.candidate_name.bytes, b"candidate_a".to_vec());
    assert_eq!(back.last_log_index, 17);
    assert_eq!(back.last_log_term, 2);
}

#[test]
fn vote_ask_rejects_truncation() {
    let ask = RequestVoteAsk {
        term: 3,
        candidate_name: peer("x"),
        last_log_index: 1,
        last_log_term: 1,
    };
    let bytes = encode_vote_ask(&ask);
    assert!(decode_vote_ask(&bytes[..12].to_vec()).is_none());
}

#[test]
fn vote_reply_round_trip() {
    let reply = RequestVoteReply { term: 9, vote_granted: true, vote_from: peer("B") };
    let bytes = encode_vote_reply(&reply);
    let back = decode_vote_reply(&bytes).expect("valid encoding");
    assert_eq!(back.term, 9);
    assert!(back.vote_granted);
    assert_eq!(back.vote_from.bytes, b"B".to_vec());
}

#[test]
fn vote_reply_rejects_bad_flag() {
    let reply = RequestVoteReply { term: 9, vote_granted: false, vote_from: peer("B") };
    let mut bytes = encode_vote_reply(&reply);
    bytes[4] = 7;
    assert!(decode_vote_reply(&bytes).is_none());
}

#[test]
fn append_reply_round_trip_and_exact_length() {
    let reply = AppendEntriesReply { term: 4, success: true };
    let bytes = encode_append_reply(&reply);
    assert_eq!(bytes, vec![0u8, 0, 0, 4, 1]);
    let back = decode_append_reply(&bytes).expect("valid encoding");
    assert_eq!(back.term, 4);
    assert!(back.success);

    let mut trailing = bytes.clone();
    trailing.push(0);
    assert!(decode_append_reply(&trailing).is_none(), "nothing may trail the answer");
}

#[test]
fn append_ask_round_trip_with_entries() {
    let ask = AppendEntriesAsk {
        term: 2,
        leader_id: peer("leader_b"),
        prev_log_index: 7,
        prev_log_term: 1,
        entries: vec![
            LogEntry { term: 2, payload: b"alpha".to_vec() },
            LogEntry { term: 2, payload: vec![] },
            LogEntry { term: 2, payload: b"g".to_vec() },
        ],
        leader_commit: 6,
    };
    let bytes = encode_append_ask(&ask);
    let back = decode_append_ask(&bytes).expect("valid encoding");
    assert_eq!(back.term, 2);
    assert_eq!(back.leader_id.bytes, b"leader_b".to_vec());
    assert_eq!(back.prev_log_index, 7);
    assert_eq!(back.prev_log_term, 1);
    assert_eq!(back.leader_commit, 6);
    assert_eq!(back.entries.len(), 3);
    assert_eq!(back.entries[0].payload, b"alpha".to_vec());
    assert!(back.entries[1].payload.is_empty());
    assert_eq!(back.entries[2].payload, b"g".to_vec());
    assert!(back.entries.iter().all(|e| e.term == 2));
}

#[test]
fn append_ask_heartbeat_round_trip() {
    let ask = AppendEntriesAsk {
        term: 5,
        leader_id: peer("L"),
        prev_log_index: 12,
        prev_log_term: 4,
        entries: vec![],
        leader_commit: 12,
    };
    let bytes = encode_append_ask(&ask);
    let back = decode_append_ask(&bytes).expect("valid encoding");
    assert!(back.entries.is_empty());
    assert_eq!(back.prev_log_index, 12);
}

#[test]
fn append_ask_rejects_truncation_and_trailing_bytes() {
    let ask = AppendEntriesAsk {
        term: 2,
        leader_id: peer("L"),
        prev_log_index: 0,
        prev_log_term: 0,
        entries: vec![LogEntry { term: 2, payload: b"abc".to_vec() }],
        leader_commit: 0,
    };
    let bytes = encode_append_ask(&ask);
    assert!(decode_append_ask(&bytes[..bytes.len() - 1].to_vec()).is_none());
    let mut trailing = bytes.clone();
    trailing.push(0);
    assert!(decode_append_ask(&trailing).is_none());
    assert!(decode_append_ask(&bytes[..20].to_vec()).is_none());
}
