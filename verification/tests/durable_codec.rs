//! The binary codec of the durable partitions: exact byte layouts, round
//! trips, and rejection of malformed records.

use raft_core::codec::{
    decode_record, decode_saved, encode_record, encode_saved, u32_to_be, u64_from_be_at,
    u64_to_be,
};
use raft_core::types::{PeerId, RaftSaved};

fn peer(name: &str) -> PeerId {
    PeerId { bytes: name.as_bytes().to_vec() }
}

#[test]
fn saved_without_vote_has_exact_bytes() {
    let s = RaftSaved { current_term: 7, voted_for: None };
    let bytes = encode_saved(&s);
    assert_eq!(bytes, vec![0u8, 0, 0, 7, 0]);
}

#[test]
fn saved_with_vote_has_exact_bytes() {
    let s = RaftSaved { current_term: 258, voted_for: Some(peer("A")) };
    let bytes = encode_saved(&s);
    assert_eq!(bytes, vec![0u8, 0, 1, 2, 1, 65]);
}

#[test]
fn saved_round_trip_without_vote() {
    let s = RaftSaved { current_term: 12, voted_for: None };
    let bytes = encode_saved(&s);
    let back = decode_saved(&bytes).expect("valid record");
    assert_eq!(back.current_term, 12);
    assert!(back.voted_for.is_none());
}

#[test]
fn saved_round_trip_with_vote() {
    let s = RaftSaved { current_term: 4, voted_for: Some(peer("peer_b")) };
    let bytes = encode_saved(&s);
    let back = decode_saved(&bytes).expect("valid record");
    assert_eq!(back.current_term, 4);
    assert_eq!(back.voted_for.unwrap().bytes, b"peer_b".to_vec());
}

#[test]
fn saved_decode_rejects_short_input() {
    assert!(decode_saved(&vec![1u8, 2, 3]).is_none());
    assert!(decode_saved(&vec![]).is_none());
}

#[test]
fn saved_decode_rejects_bad_tag() {
    assert!(decode_saved(&vec![0u8, 0, 0, 1, 2]).is_none());
}

#[test]
fn saved_decode_rejects_trailing_bytes_after_empty_vote() {
    assert!(decode_saved(&vec![0u8, 0, 0, 1, 0, 9]).is_none());
}

#[test]
fn record_has_exact_bytes() {
    let bytes = encode_record(3, &b"xyz".to_vec());
    assert_eq!(bytes, vec![0u8, 0, 0, 3, 120, 121, 122]);
}

#[test]
fn record_round_trip() {
    let bytes = encode_record(9, &b"payload".to_vec());
    let (term, payload) = decode_record(&bytes).expect("valid record");
    assert_eq!(term, 9);
    assert_eq!(payload, b"payload".to_vec());
}

#[test]
fn record_with_empty_payload_round_trips() {
    let bytes = encode_record(1, &vec![]);
    assert_eq!(bytes, vec![0u8, 0, 0, 1]);
    let (term, payload) = decode_record(&bytes).expect("valid record");
    assert_eq!(term, 1);
    assert!(payload.is_empty());
}

#[test]
fn record_decode_rejects_short_input() {
    assert!(decode_record(&vec![1u8, 2, 3]).is_none());
}

#[test]
fn u32_big_endian_layout() {
    assert_eq!(u32_to_be(0x0102_0304), vec![1u8, 2, 3, 4]);
}

#[test]
fn u64_key_round_trip() {
    let bytes = u64_to_be(0x0102_0304_0506_0708);
    assert_eq!(bytes, vec![1u8, 2, 3, 4, 5, 6, 7, 8]);
    assert_eq!(u64_from_be_at(&bytes, 0), 0x0102_0304_0506_0708);
}

#[test]
fn u64_keys_sort_as_indices() {
    let mut keys: Vec<Vec<u8>> = vec![
        u64_to_be(300),
        u64_to_be(2),
        u64_to_be(256),
        u64_to_be(1),
    ];
    keys.sort();
    assert_eq!(keys, vec![u64_to_be(1), u64_to_be(2), u64_to_be(256), u64_to_be(300)]);
}
