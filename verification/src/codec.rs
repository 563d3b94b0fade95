//! Binary codec for the durable partitions.
//!
//! The restore partition holds one record, the election record
//! `(current_term, voted_for)`; the log partition maps an 8-byte big-endian
//! index key to a `(term, payload)` record. Encoding and decoding are exact
//! inverses, so persisting then reloading peer state is the identity.

use vstd::prelude::*;

use crate::types::{opt_peer, RaftSaved};

verus! {

/// The four big-endian bytes of a 32-bit value.
pub open spec fn spec_u32_be(x: u32) -> Seq<u8> {
    seq![(x >> 24) as u8, (x >> 16) as u8, (x >> 8) as u8, x as u8]
}

/// The 32-bit value read from four big-endian bytes.
pub open spec fn spec_u32_from_be(b: Seq<u8>) -> u32
    recommends
        b.len() == 4,
{
    (((b[0] as u32) << 24) | ((b[1] as u32) << 16) | ((b[2] as u32) << 8) | (b[3] as u32)) as u32
}

pub proof fn lemma_u32_be_round(x: u32)
    ensures
        spec_u32_from_be(spec_u32_be(x)) == x,
{
    assert(((((x >> 24) as u8) as u32) << 24 | (((x >> 16) as u8) as u32) << 16 | (((x >> 8)
        as u8) as u32) << 8 | ((x as u8) as u32)) == x) by (bit_vector);
}

pub proof fn lemma_u32_be_inverse(b0: u8, b1: u8, b2: u8, b3: u8)
    ensures
        spec_u32_be(spec_u32_from_be(seq![b0, b1, b2, b3])) =~= seq![b0, b1, b2, b3],
{
    let x = spec_u32_from_be(seq![b0, b1, b2, b3]);
    assert(x == (((b0 as u32) << 24) | ((b1 as u32) << 16) | ((b2 as u32) << 8) | (b3 as u32))
        as u32);
    assert({
        let y = (((b0 as u32) << 24) | ((b1 as u32) << 16) | ((b2 as u32) << 8) | (b3 as u32))
            as u32;
        (y >> 24) as u8 == b0 && (y >> 16) as u8 == b1 && (y >> 8) as u8 == b2 && y as u8 == b3
    }) by (bit_vector);
}

/// The eight big-endian bytes of a 64-bit value (the durable log key).
pub open spec fn spec_u64_be(x: u64) -> Seq<u8> {
    seq![
        (x >> 56) as u8,
        (x >> 48) as u8,
        (x >> 40) as u8,
        (x >> 32) as u8,
        (x >> 24) as u8,
        (x >> 16) as u8,
        (x >> 8) as u8,
        x as u8,
    ]
}

/// The 64-bit value read from eight big-endian bytes.
pub open spec fn spec_u64_from_be(b: Seq<u8>) -> u64
    recommends
        b.len() == 8,
{
    (((b[0] as u64) << 56) | ((b[1] as u64) << 48) | ((b[2] as u64) << 40) | ((b[3] as u64) << 32)
        | ((b[4] as u64) << 24) | ((b[5] as u64) << 16) | ((b[6] as u64) << 8) | (b[7]
        as u64)) as u64
}

pub proof fn lemma_u64_be_round(x: u64)
    ensures
        spec_u64_from_be(spec_u64_be(x)) == x,
{
    assert(((((x >> 56) as u8) as u64) << 56 | (((x >> 48) as u8) as u64) << 48 | (((x >> 40)
        as u8) as u64) << 40 | (((x >> 32) as u8) as u64) << 32 | (((x >> 24) as u8) as u64) << 24
        | (((x >> 16) as u8) as u64) << 16 | (((x >> 8) as u8) as u64) << 8 | ((x as u8)
        as u64)) == x) by (bit_vector);
}

/// Big-endian keys order the log partition by index: the byte strings of two
/// indices compare (lexicographically) as the indices do. Stated here through
/// the most significant differing byte.
pub proof fn lemma_u64_be_key_order(x: u64, y: u64)
    requires
        x < y,
    ensures
        exists|k: int|
            0 <= k < 8 && spec_u64_be(x)[k] < spec_u64_be(y)[k] && (forall|j: int|
                0 <= j < k ==> spec_u64_be(x)[j] == spec_u64_be(y)[j]),
{
    let a = spec_u64_be(x);
    let b = spec_u64_be(y);
    if a[0] != b[0] {
        assert(x < y ==> (x >> 56) as u8 <= (y >> 56) as u8) by (bit_vector);
        assert(a[0] < b[0]);
        assert(forall|j: int| 0 <= j < 0 ==> a[j] == b[j]);
    } else if a[1] != b[1] {
        assert(x < y && (x >> 56) as u8 == (y >> 56) as u8 ==> (x >> 48) as u8 <= (y >> 48)
            as u8) by (bit_vector);
        assert(a[1] < b[1]);
    } else if a[2] != b[2] {
        assert(x < y && (x >> 56) as u8 == (y >> 56) as u8 && (x >> 48) as u8 == (y >> 48) as u8
            ==> (x >> 40) as u8 <= (y >> 40) as u8) by (bit_vector);
        assert(a[2] < b[2]);
    } else if a[3] != b[3] {
        assert(x < y && (x >> 56) as u8 == (y >> 56) as u8 && (x >> 48) as u8 == (y >> 48) as u8
            && (x >> 40) as u8 == (y >> 40) as u8 ==> (x >> 32) as u8 <= (y >> 32)
            as u8) by (bit_vector);
        assert(a[3] < b[3]);
    } else if a[4] != b[4] {
        assert(x < y && (x >> 56) as u8 == (y >> 56) as u8 && (x >> 48) as u8 == (y >> 48) as u8
            && (x >> 40) as u8 == (y >> 40) as u8 && (x >> 32) as u8 == (y >> 32) as u8 ==> (x
            >> 24) as u8 <= (y >> 24) as u8) by (bit_vector);
        assert(a[4] < b[4]);
    } else if a[5] != b[5] {
        assert(x < y && (x >> 56) as u8 == (y >> 56) as u8 && (x >> 48) as u8 == (y >> 48) as u8
            && (x >> 40) as u8 == (y >> 40) as u8 && (x >> 32) as u8 == (y >> 32) as u8 && (x
            >> 24) as u8 == (y >> 24) as u8 ==> (x >> 16) as u8 <= (y >> 16) as u8) by (bit_vector);
        assert(a[5] < b[5]);
    } else if a[6] != b[6] {
        assert(x < y && (x >> 56) as u8 == (y >> 56) as u8 && (x >> 48) as u8 == (y >> 48) as u8
            && (x >> 40) as u8 == (y >> 40) as u8 && (x >> 32) as u8 == (y >> 32) as u8 && (x
            >> 24) as u8 == (y >> 24) as u8 && (x >> 16) as u8 == (y >> 16) as u8 ==> (x >> 8)
            as u8 <= (y >> 8) as u8) by (bit_vector);
        assert(a[6] < b[6]);
    } else {
        assert(x < y && (x >> 56) as u8 == (y >> 56) as u8 && (x >> 48) as u8 == (y >> 48) as u8
            && (x >> 40) as u8 == (y >> 40) as u8 && (x >> 32) as u8 == (y >> 32) as u8 && (x
            >> 24) as u8 == (y >> 24) as u8 && (x >> 16) as u8 == (y >> 16) as u8 && (x >> 8)
            as u8 == (y >> 8) as u8 ==> (x as u8) < (y as u8)) by (bit_vector);
        assert(a[7] < b[7]);
    }
}

pub fn u32_to_be(x: u32) -> (r: Vec<u8>)
    ensures
        r@ == spec_u32_be(x),
{
    let mut v: Vec<u8> = Vec::new();
    v.push((x >> 24) as u8);
    v.push((x >> 16) as u8);
    v.push((x >> 8) as u8);
    v.push(x as u8);
    proof {
        assert(v@ =~= spec_u32_be(x));
    }
    v
}

pub fn u64_to_be(x: u64) -> (r: Vec<u8>)
    ensures
        r@ == spec_u64_be(x),
{
    let mut v: Vec<u8> = Vec::new();
    v.push((x >> 56) as u8);
    v.push((x >> 48) as u8);
    v.push((x >> 40) as u8);
    v.push((x >> 32) as u8);
    v.push((x >> 24) as u8);
    v.push((x >> 16) as u8);
    v.push((x >> 8) as u8);
    v.push(x as u8);
    proof {
        assert(v@ =~= spec_u64_be(x));
    }
    v
}

/// Reads the 32-bit big-endian value at `b[at .. at + 4]`.
pub fn u32_from_be_at(b: &Vec<u8>, at: usize) -> (x: u32)
    requires
        at + 4 <= b@.len(),
    ensures
        x == spec_u32_from_be(b@.subrange(at as int, at + 4)),
{
    let n = b.len();
    assert(at + 4 <= n);
    proof {
        let s = b@.subrange(at as int, at + 4);
        assert(s[0] == b@[at as int] && s[1] == b@[at + 1] && s[2] == b@[at + 2] && s[3] == b@[at
            + 3]);
    }
    ((b[at] as u32) << 24) | ((b[at + 1] as u32) << 16) | ((b[at + 2] as u32) << 8) | (b[at + 3]
        as u32)
}

/// Reads the 64-bit big-endian value at `b[at .. at + 8]`.
pub fn u64_from_be_at(b: &Vec<u8>, at: usize) -> (x: u64)
    requires
        at + 8 <= b@.len(),
    ensures
        x == spec_u64_from_be(b@.subrange(at as int, at + 8)),
{
    let n = b.len();
    assert(at + 8 <= n);
    proof {
        let s = b@.subrange(at as int, at + 8);
        assert(forall|k: int| 0 <= k < 8 ==> s[k] == b@[at + k]);
    }
    ((b[at] as u64) << 56) | ((b[at + 1] as u64) << 48) | ((b[at + 2] as u64) << 40) | ((b[at + 3]
        as u64) << 32) | ((b[at + 4] as u64) << 24) | ((b[at + 5] as u64) << 16) | ((b[at + 6]
        as u64) << 8) | (b[at + 7] as u64)
}

/// Tail of `src` from `start` on, as a fresh vector.
pub fn bytes_from(src: &Vec<u8>, start: usize) -> (r: Vec<u8>)
    requires
        start <= src@.len(),
    ensures
        r@ == src@.skip(start as int),
{
    let mut r: Vec<u8> = Vec::new();
    let n = src.len();
    let mut i: usize = start;
    while i < n
        invariant
            start <= i <= n,
            n == src@.len(),
            r@ == src@.subrange(start as int, i as int),
        decreases n - i,
    {
        r.push(src[i]);
        proof {
            assert(r@ =~= src@.subrange(start as int, i + 1));
        }
        i += 1;
    }
    proof {
        assert(src@.subrange(start as int, n as int) =~= src@.skip(start as int));
    }
    r
}

/// A fresh copy of a byte string.
pub fn clone_bytes(src: &Vec<u8>) -> (r: Vec<u8>)
    ensures
        r@ == src@,
{
    let r = bytes_from(src, 0);
    proof {
        assert(src@.skip(0) =~= src@);
    }
    r
}

/// Appends all of `src` to `dst`.
pub fn push_bytes(dst: &mut Vec<u8>, src: &Vec<u8>)
    ensures
        final (dst)@ == old(dst)@ + src@,
{
    let n = src.len();
    let mut i: usize = 0;
    while i < n
        invariant
            i <= n,
            n == src@.len(),
            dst@ == old(dst)@ + src@.take(i as int),
        decreases n - i,
    {
        dst.push(src[i]);
        proof {
            assert(dst@ =~= old(dst)@ + src@.take(i + 1));
        }
        i += 1;
    }
    proof {
        assert(old(dst)@ + src@.take(n as int) =~= old(dst)@ + src@);
    }
}

/// Bytes of the election record: the term, a presence tag, and the name of
/// the candidate voted for, if any.
pub open spec fn spec_saved_bytes(term: u32, voted: Option<Seq<u8>>) -> Seq<u8> {
    match voted {
        None => spec_u32_be(term) + seq![0u8],
        Some(name) => spec_u32_be(term) + seq![1u8] + name,
    }
}

/// The election record a byte string decodes to, if it is a valid encoding.
pub open spec fn spec_decode_saved(b: Seq<u8>) -> Option<(u32, Option<Seq<u8>>)> {
    if b.len() < 5 {
        None
    } else {
        let t = spec_u32_from_be(b.take(4));
        if b[4] == 0 {
            if b.len() == 5 {
                Some((t, None))
            } else {
                None
            }
        } else if b[4] == 1 {
            Some((t, Some(b.skip(5))))
        } else {
            None
        }
    }
}

/// Decoding inverts encoding: reloading a persisted election record gives
/// back exactly what was saved.
pub proof fn lemma_saved_round_trip(term: u32, voted: Option<Seq<u8>>)
    ensures
        spec_decode_saved(spec_saved_bytes(term, voted)) == Some((term, voted)),
{
    let b = spec_saved_bytes(term, voted);
    assert(b.take(4) =~= spec_u32_be(term));
    lemma_u32_be_round(term);
    match voted {
        None => {
            assert(b.len() == 5 && b[4] == 0);
        },
        Some(name) => {
            assert(b[4] == 1);
            assert(b.skip(5) =~= name);
        },
    }
}

/// Encoding inverts decoding: every byte string that decodes is the encoding
/// of what it decodes to, so each record has exactly one byte form.
pub proof fn lemma_saved_bytes_exact(b: Seq<u8>, term: u32, voted: Option<Seq<u8>>)
    requires
        spec_decode_saved(b) == Some((term, voted)),
    ensures
        b == spec_saved_bytes(term, voted),
{
    lemma_u32_be_inverse(b[0], b[1], b[2], b[3]);
    assert(b.take(4) =~= seq![b[0], b[1], b[2], b[3]]);
    match voted {
        None => {
            assert(b =~= spec_u32_be(term) + seq![0u8]);
        },
        Some(name) => {
            assert(b =~= spec_u32_be(term) + seq![1u8] + b.skip(5));
        },
    }
}

/// Encodes the election record for the restore partition.
pub fn encode_saved(s: &RaftSaved) -> (r: Vec<u8>)
    ensures
        r@ == spec_saved_bytes(s.current_term, opt_peer(s.voted_for)),
{
    let mut r = u32_to_be(s.current_term);
    match &s.voted_for {
        None => {
            r.push(0u8);
            proof {
                assert(r@ =~= spec_saved_bytes(s.current_term, opt_peer(s.voted_for)));
            }
        },
        Some(p) => {
            r.push(1u8);
            push_bytes(&mut r, &p.bytes);
            proof {
                assert(r@ =~= spec_saved_bytes(s.current_term, opt_peer(s.voted_for)));
            }
        },
    }
    r
}

/// Decodes an election record read from the restore partition. Returns the
/// record exactly when the bytes are a valid encoding.
pub fn decode_saved(b: &Vec<u8>) -> (r: Option<RaftSaved>)
    ensures
        match r {
            Some(s) => spec_decode_saved(b@) == Some(
                (s.current_term, opt_peer(s.voted_for)),
            ),
            None => spec_decode_saved(b@) is None,
        },
{
    if b.len() < 5 {
        return None;
    }
    let term = u32_from_be_at(b, 0);
    proof {
        assert(b@.subrange(0, 4) =~= b@.take(4));
    }
    let tag = b[4];
    if tag == 0 {
        if b.len() == 5 {
            Some(RaftSaved { current_term: term, voted_for: None })
        } else {
            None
        }
    } else if tag == 1 {
        let name = bytes_from(b, 5);
        Some(
            RaftSaved {
                current_term: term,
                voted_for: Some(crate::types::PeerId { bytes: name }),
            },
        )
    } else {
        None
    }
}

/// Bytes of one log record: the entry's term followed by its payload.
pub open spec fn spec_record_bytes(term: u32, payload: Seq<u8>) -> Seq<u8> {
    spec_u32_be(term) + payload
}

/// The `(term, payload)` a log record decodes to, if long enough to hold a
/// term at all.
pub open spec fn spec_decode_record(b: Seq<u8>) -> Option<(u32, Seq<u8>)> {
    if b.len() < 4 {
        None
    } else {
        Some((spec_u32_from_be(b.take(4)), b.skip(4)))
    }
}

/// Decoding inverts encoding for log records.
pub proof fn lemma_record_round_trip(term: u32, payload: Seq<u8>)
    ensures
        spec_decode_record(spec_record_bytes(term, payload)) == Some((term, payload)),
{
    let b = spec_record_bytes(term, payload);
    assert(b.take(4) =~= spec_u32_be(term));
    lemma_u32_be_round(term);
    assert(b.skip(4) =~= payload);
}

/// Encodes one log record for the log partition.
pub fn encode_record(term: u32, payload: &Vec<u8>) -> (r: Vec<u8>)
    ensures
        r@ == spec_record_bytes(term, payload@),
{
    let mut r = u32_to_be(term);
    push_bytes(&mut r, payload);
    r
}

/// Decodes one log record. Returns `(term, payload)` exactly when the bytes
/// hold at least a term.
pub fn decode_record(b: &Vec<u8>) -> (r: Option<(u32, Vec<u8>)>)
    ensures
        match r {
            Some((t, p)) => spec_decode_record(b@) == Some((t, p@)),
            None => spec_decode_record(b@) is None,
        },
{
    if b.len() < 4 {
        return None;
    }
    let term = u32_from_be_at(b, 0);
    proof {
        assert(b@.subrange(0, 4) =~= b@.take(4));
    }
    let payload = bytes_from(b, 4);
    Some((term, payload))
}

} // verus!
