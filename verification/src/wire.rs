//! The stable binary format of the inter-peer messages.
//!
//! Every message starts with its fixed-width fields, big-endian, followed by
//! variable-length byte strings. The log suffix of an `AppendEntries` ask is
//! a counted list of length-prefixed records. Decoding is the exact inverse
//! of encoding, and refuses anything else.

use vstd::prelude::*;

use crate::codec::{
    push_bytes, spec_u32_be, spec_u32_from_be, spec_u64_be, spec_u64_from_be, u32_from_be_at,
    u32_to_be, u64_from_be_at, u64_to_be,
};
use crate::types::{
    AppendEntriesAsk, AppendEntriesReply, LogEntry, PeerId, RequestVoteAsk, RequestVoteReply,
};

verus! {

/// The `(term, payload)` pairs a list of entries carries.
pub open spec fn entries_view(es: Seq<LogEntry>) -> Seq<(u32, Seq<u8>)> {
    es.map_values(|e: LogEntry| (e.term, e.payload@))
}

/// Bytes of one entry record: term, payload length, payload.
pub open spec fn spec_entry_block(term: u32, payload: Seq<u8>) -> Seq<u8> {
    spec_u32_be(term) + spec_u64_be(payload.len() as u64) + payload
}

/// Bytes of a list of entry records, in order.
pub open spec fn spec_entries_bytes(es: Seq<(u32, Seq<u8>)>) -> Seq<u8>
    decreases es.len(),
{
    if es.len() == 0 {
        Seq::empty()
    } else {
        spec_entry_block(es[0].0, es[0].1) + spec_entries_bytes(es.drop_first())
    }
}

/// The list of `k` entry records a byte string decodes to, if it is exactly
/// such a list.
pub open spec fn spec_decode_entries(b: Seq<u8>, k: nat) -> Option<Seq<(u32, Seq<u8>)>>
    decreases k,
{
    if k == 0 {
        if b.len() == 0 {
            Some(Seq::empty())
        } else {
            None
        }
    } else if b.len() < 12 {
        None
    } else {
        let term = spec_u32_from_be(b.take(4));
        let plen = spec_u64_from_be(b.subrange(4, 12)) as int;
        if b.len() - 12 < plen {
            None
        } else {
            let payload = b.subrange(12, 12 + plen);
            match spec_decode_entries(b.skip(12 + plen), (k - 1) as nat) {
                Some(rest) => Some(seq![(term, payload)] + rest),
                None => None,
            }
        }
    }
}

/// A list of entry records decodes back to itself.
pub proof fn lemma_entries_round_trip(es: Seq<(u32, Seq<u8>)>)
    requires
        forall|i: int| 0 <= i < es.len() ==> (#[trigger] es[i]).1.len() <= u64::MAX,
    ensures
        spec_decode_entries(spec_entries_bytes(es), es.len() as nat) == Some(es),
    decreases es.len(),
{
    if es.len() == 0 {
    } else {
        let e0 = es[0];
        let block = spec_entry_block(e0.0, e0.1);
        let rest = spec_entries_bytes(es.drop_first());
        let b = spec_entries_bytes(es);
        assert(b == block + rest);
        assert(block.len() == 12 + e0.1.len());
        assert(b.take(4) =~= spec_u32_be(e0.0));
        crate::codec::lemma_u32_be_round(e0.0);
        assert(b.subrange(4, 12) =~= spec_u64_be(e0.1.len() as u64));
        crate::codec::lemma_u64_be_round(e0.1.len() as u64);
        assert(b.subrange(12, 12 + e0.1.len() as int) =~= e0.1);
        assert(b.skip(12 + e0.1.len() as int) =~= rest);
        assert(forall|i: int|
            0 <= i < es.drop_first().len() ==> (#[trigger] es.drop_first()[i]).1.len()
                <= u64::MAX) by {
            assert(forall|i: int|
                0 <= i < es.len() - 1 ==> es.drop_first()[i] == #[trigger] es[i + 1]);
        }
        lemma_entries_round_trip(es.drop_first());
        assert(seq![(e0.0, e0.1)] + es.drop_first() =~= es);
    }
}

/// Appends one entry record to the buffer.
fn push_entry_block(buf: &mut Vec<u8>, e: &LogEntry)
    ensures
        final (buf)@ == old(buf)@ + spec_entry_block(e.term, e.payload@),
{
    let ghost start = buf@;
    let term_bytes = u32_to_be(e.term);
    push_bytes(buf, &term_bytes);
    let len_bytes = u64_to_be(e.payload.len() as u64);
    push_bytes(buf, &len_bytes);
    push_bytes(buf, &e.payload);
    proof {
        assert(buf@ =~= start + spec_entry_block(e.term, e.payload@));
    }
}

/// A list of entries and one more encodes as the list, then the one.
pub proof fn lemma_entries_bytes_snoc(es: Seq<(u32, Seq<u8>)>, e: (u32, Seq<u8>))
    ensures
        spec_entries_bytes(es.push(e)) == spec_entries_bytes(es) + spec_entry_block(e.0, e.1),
    decreases es.len(),
{
    if es.len() == 0 {
        assert(es.push(e)[0] == e);
        assert(es.push(e).drop_first() =~= Seq::<(u32, Seq<u8>)>::empty());
        assert(spec_entries_bytes(es.push(e)) == spec_entry_block(e.0, e.1) + spec_entries_bytes(
            es.push(e).drop_first(),
        ));
        assert(spec_entry_block(e.0, e.1) + Seq::<u8>::empty() =~= spec_entry_block(e.0, e.1));
        assert(spec_entries_bytes(es) + spec_entry_block(e.0, e.1) =~= spec_entry_block(
            e.0,
            e.1,
        ));
    } else {
        assert(es.push(e)[0] == es[0]);
        assert(es.push(e).drop_first() =~= es.drop_first().push(e));
        lemma_entries_bytes_snoc(es.drop_first(), e);
        assert(spec_entry_block(es[0].0, es[0].1) + (spec_entries_bytes(es.drop_first())
            + spec_entry_block(e.0, e.1)) =~= (spec_entry_block(es[0].0, es[0].1)
            + spec_entries_bytes(es.drop_first())) + spec_entry_block(e.0, e.1));
    }
}

/// Appends the whole entry list to the buffer.
fn push_entries(buf: &mut Vec<u8>, es: &Vec<LogEntry>)
    ensures
        final (buf)@ == old(buf)@ + spec_entries_bytes(entries_view(es@)),
{
    let ghost start = buf@;
    let n = es.len();
    let mut i: usize = 0;
    proof {
        assert(entries_view(es@).take(0) =~= Seq::<(u32, Seq<u8>)>::empty());
        assert(buf@ =~= start + spec_entries_bytes(entries_view(es@).take(0)));
    }
    while i < n
        invariant
            i <= n,
            n == es@.len(),
            buf@ == start + spec_entries_bytes(entries_view(es@).take(i as int)),
        decreases n - i,
    {
        push_entry_block(buf, &es[i]);
        proof {
            let v = entries_view(es@);
            assert(v.take(i + 1) =~= v.take(i as int).push(v[i as int]));
            lemma_entries_bytes_snoc(v.take(i as int), v[i as int]);
            assert(v[i as int] == (es@[i as int].term, es@[i as int].payload@));
            assert(buf@ =~= start + spec_entries_bytes(v.take(i + 1)));
        }
        i += 1;
    }
    proof {
        assert(entries_view(es@).take(n as int) =~= entries_view(es@));
    }
}

/// Bytes of a vote solicitation: term, last log index, last log term, then
/// the candidate's name.
pub open spec fn spec_vote_ask_bytes(term: u32, lli: u64, llt: u32, name: Seq<u8>) -> Seq<u8> {
    spec_u32_be(term) + spec_u64_be(lli) + spec_u32_be(llt) + name
}

pub open spec fn spec_decode_vote_ask(b: Seq<u8>) -> Option<(u32, u64, u32, Seq<u8>)> {
    if b.len() < 16 {
        None
    } else {
        Some(
            (
                spec_u32_from_be(b.take(4)),
                spec_u64_from_be(b.subrange(4, 12)),
                spec_u32_from_be(b.subrange(12, 16)),
                b.skip(16),
            ),
        )
    }
}

#[verifier::rlimit(60)]
pub proof fn lemma_vote_ask_round_trip(term: u32, lli: u64, llt: u32, name: Seq<u8>)
    ensures
        spec_decode_vote_ask(spec_vote_ask_bytes(term, lli, llt, name)) == Some(
            (term, lli, llt, name),
        ),
{
    let b = spec_vote_ask_bytes(term, lli, llt, name);
    assert(b.take(4) =~= spec_u32_be(term));
    assert(b.subrange(4, 12) =~= spec_u64_be(lli));
    assert(b.subrange(12, 16) =~= spec_u32_be(llt));
    assert(b.skip(16) =~= name);
    crate::codec::lemma_u32_be_round(term);
    crate::codec::lemma_u64_be_round(lli);
    crate::codec::lemma_u32_be_round(llt);
}

pub fn encode_vote_ask(ask: &RequestVoteAsk) -> (r: Vec<u8>)
    ensures
        r@ == spec_vote_ask_bytes(
            ask.term,
            ask.last_log_index,
            ask.last_log_term,
            ask.candidate_name@,
        ),
{
    let mut r = u32_to_be(ask.term);
    let lli = u64_to_be(ask.last_log_index);
    push_bytes(&mut r, &lli);
    let llt = u32_to_be(ask.last_log_term);
    push_bytes(&mut r, &llt);
    push_bytes(&mut r, &ask.candidate_name.bytes);
    proof {
        assert(r@ =~= spec_vote_ask_bytes(
            ask.term,
            ask.last_log_index,
            ask.last_log_term,
            ask.candidate_name@,
        ));
    }
    r
}

pub fn decode_vote_ask(b: &Vec<u8>) -> (r: Option<RequestVoteAsk>)
    ensures
        match r {
            Some(ask) => spec_decode_vote_ask(b@) == Some(
                (ask.term, ask.last_log_index, ask.last_log_term, ask.candidate_name@),
            ),
            None => spec_decode_vote_ask(b@) is None,
        },
{
    if b.len() < 16 {
        return None;
    }
    let term = u32_from_be_at(b, 0);
    let lli = u64_from_be_at(b, 4);
    let llt = u32_from_be_at(b, 12);
    let name = crate::codec::bytes_from(b, 16);
    proof {
        assert(b@.subrange(0, 4) =~= b@.take(4));
    }
    Some(
        RequestVoteAsk {
            term,
            candidate_name: PeerId { bytes: name },
            last_log_index: lli,
            last_log_term: llt,
        },
    )
}

/// Bytes of a vote answer: term, the grant flag, then the voter's name.
pub open spec fn spec_vote_reply_bytes(term: u32, granted: bool, from: Seq<u8>) -> Seq<u8> {
    spec_u32_be(term) + seq![if granted {
        1u8
    } else {
        0u8
    }] + from
}

pub open spec fn spec_decode_vote_reply(b: Seq<u8>) -> Option<(u32, bool, Seq<u8>)> {
    if b.len() < 5 {
        None
    } else if b[4] == 0 || b[4] == 1 {
        Some((spec_u32_from_be(b.take(4)), b[4] == 1, b.skip(5)))
    } else {
        None
    }
}

pub proof fn lemma_vote_reply_round_trip(term: u32, granted: bool, from: Seq<u8>)
    ensures
        spec_decode_vote_reply(spec_vote_reply_bytes(term, granted, from)) == Some(
            (term, granted, from),
        ),
{
    let b = spec_vote_reply_bytes(term, granted, from);
    assert(b.take(4) =~= spec_u32_be(term));
    assert(b.skip(5) =~= from);
    crate::codec::lemma_u32_be_round(term);
}

pub fn encode_vote_reply(reply: &RequestVoteReply) -> (r: Vec<u8>)
    ensures
        r@ == spec_vote_reply_bytes(reply.term, reply.vote_granted, reply.vote_from@),
{
    let mut r = u32_to_be(reply.term);
    r.push(if reply.vote_granted {
        1u8
    } else {
        0u8
    });
    push_bytes(&mut r, &reply.vote_from.bytes);
    proof {
        assert(r@ =~= spec_vote_reply_bytes(reply.term, reply.vote_granted, reply.vote_from@));
    }
    r
}

pub fn decode_vote_reply(b: &Vec<u8>) -> (r: Option<RequestVoteReply>)
    ensures
        match r {
            Some(reply) => spec_decode_vote_reply(b@) == Some(
                (reply.term, reply.vote_granted, reply.vote_from@),
            ),
            None => spec_decode_vote_reply(b@) is None,
        },
{
    if b.len() < 5 {
        return None;
    }
    let term = u32_from_be_at(b, 0);
    let tag = b[4];
    if tag != 0 && tag != 1 {
        return None;
    }
    let from = crate::codec::bytes_from(b, 5);
    proof {
        assert(b@.subrange(0, 4) =~= b@.take(4));
    }
    Some(RequestVoteReply { term, vote_granted: tag == 1, vote_from: PeerId { bytes: from } })
}

/// Bytes of an append answer: the term and the success flag, nothing else.
pub open spec fn spec_append_reply_bytes(term: u32, success: bool) -> Seq<u8> {
    spec_u32_be(term) + seq![if success {
        1u8
    } else {
        0u8
    }]
}

pub open spec fn spec_decode_append_reply(b: Seq<u8>) -> Option<(u32, bool)> {
    if b.len() != 5 {
        None
    } else if b[4] == 0 || b[4] == 1 {
        Some((spec_u32_from_be(b.take(4)), b[4] == 1))
    } else {
        None
    }
}

pub proof fn lemma_append_reply_round_trip(term: u32, success: bool)
    ensures
        spec_decode_append_reply(spec_append_reply_bytes(term, success)) == Some(
            (term, success),
        ),
{
    let b = spec_append_reply_bytes(term, success);
    assert(b.take(4) =~= spec_u32_be(term));
    crate::codec::lemma_u32_be_round(term);
}

pub fn encode_append_reply(reply: &AppendEntriesReply) -> (r: Vec<u8>)
    ensures
        r@ == spec_append_reply_bytes(reply.term, reply.success),
{
    let mut r = u32_to_be(reply.term);
    r.push(if reply.success {
        1u8
    } else {
        0u8
    });
    proof {
        assert(r@ =~= spec_append_reply_bytes(reply.term, reply.success));
    }
    r
}

pub fn decode_append_reply(b: &Vec<u8>) -> (r: Option<AppendEntriesReply>)
    ensures
        match r {
            Some(reply) => spec_decode_append_reply(b@) == Some((reply.term, reply.success)),
            None => spec_decode_append_reply(b@) is None,
        },
{
    if b.len() != 5 {
        return None;
    }
    let term = u32_from_be_at(b, 0);
    let tag = b[4];
    if tag != 0 && tag != 1 {
        return None;
    }
    proof {
        assert(b@.subrange(0, 4) =~= b@.take(4));
    }
    Some(AppendEntriesReply { term, success: tag == 1 })
}

/// Bytes of an append ask: the fixed fields, the leader's length-prefixed
/// name, the entry count, then the entry records.
pub open spec fn spec_append_ask_bytes(
    term: u32,
    prev_idx: u64,
    prev_term: u32,
    commit: u64,
    leader: Seq<u8>,
    es: Seq<(u32, Seq<u8>)>,
) -> Seq<u8> {
    spec_u32_be(term) + spec_u64_be(prev_idx) + spec_u32_be(prev_term) + spec_u64_be(commit)
        + spec_u64_be(leader.len() as u64) + leader + spec_u64_be(es.len() as u64)
        + spec_entries_bytes(es)
}

pub open spec fn spec_decode_append_ask(b: Seq<u8>) -> Option<
    (u32, u64, u32, u64, Seq<u8>, Seq<(u32, Seq<u8>)>),
> {
    if b.len() < 32 {
        None
    } else {
        let term = spec_u32_from_be(b.take(4));
        let prev_idx = spec_u64_from_be(b.subrange(4, 12));
        let prev_term = spec_u32_from_be(b.subrange(12, 16));
        let commit = spec_u64_from_be(b.subrange(16, 24));
        let name_len = spec_u64_from_be(b.subrange(24, 32)) as int;
        if b.len() - 32 < name_len + 8 {
            None
        } else {
            let leader = b.subrange(32, 32 + name_len);
            let count = spec_u64_from_be(b.subrange(32 + name_len, 40 + name_len));
            match spec_decode_entries(b.skip(40 + name_len), count as nat) {
                Some(es) => Some((term, prev_idx, prev_term, commit, leader, es)),
                None => None,
            }
        }
    }
}

/// An encoded append ask decodes back to its fields.
#[verifier::rlimit(60)]
pub proof fn lemma_append_ask_round_trip(
    term: u32,
    prev_idx: u64,
    prev_term: u32,
    commit: u64,
    leader: Seq<u8>,
    es: Seq<(u32, Seq<u8>)>,
)
    requires
        leader.len() <= u64::MAX,
        es.len() <= u64::MAX,
        forall|i: int| 0 <= i < es.len() ==> (#[trigger] es[i]).1.len() <= u64::MAX,
    ensures
        spec_decode_append_ask(
            spec_append_ask_bytes(term, prev_idx, prev_term, commit, leader, es),
        ) == Some((term, prev_idx, prev_term, commit, leader, es)),
{
    let b = spec_append_ask_bytes(term, prev_idx, prev_term, commit, leader, es);
    let nl = leader.len() as int;
    assert(b.take(4) =~= spec_u32_be(term));
    assert(b.subrange(4, 12) =~= spec_u64_be(prev_idx));
    assert(b.subrange(12, 16) =~= spec_u32_be(prev_term));
    assert(b.subrange(16, 24) =~= spec_u64_be(commit));
    assert(b.subrange(24, 32) =~= spec_u64_be(leader.len() as u64));
    crate::codec::lemma_u32_be_round(term);
    crate::codec::lemma_u64_be_round(prev_idx);
    crate::codec::lemma_u32_be_round(prev_term);
    crate::codec::lemma_u64_be_round(commit);
    crate::codec::lemma_u64_be_round(leader.len() as u64);
    assert(b.subrange(32, 32 + nl) =~= leader);
    assert(b.subrange(32 + nl, 40 + nl) =~= spec_u64_be(es.len() as u64));
    crate::codec::lemma_u64_be_round(es.len() as u64);
    assert(b.skip(40 + nl) =~= spec_entries_bytes(es));
    lemma_entries_round_trip(es);
}

#[verifier::rlimit(60)]
pub fn encode_append_ask(ask: &AppendEntriesAsk) -> (r: Vec<u8>)
    ensures
        r@ == spec_append_ask_bytes(
            ask.term,
            ask.prev_log_index,
            ask.prev_log_term,
            ask.leader_commit,
            ask.leader_id@,
            entries_view(ask.entries@),
        ),
{
    let mut r = u32_to_be(ask.term);
    let prev_idx = u64_to_be(ask.prev_log_index);
    push_bytes(&mut r, &prev_idx);
    let prev_term = u32_to_be(ask.prev_log_term);
    push_bytes(&mut r, &prev_term);
    let commit = u64_to_be(ask.leader_commit);
    push_bytes(&mut r, &commit);
    let name_len = u64_to_be(ask.leader_id.bytes.len() as u64);
    push_bytes(&mut r, &name_len);
    push_bytes(&mut r, &ask.leader_id.bytes);
    let count = u64_to_be(ask.entries.len() as u64);
    push_bytes(&mut r, &count);
    let ghost head = r@;
    push_entries(&mut r, &ask.entries);
    proof {
        assert(r@ =~= spec_append_ask_bytes(
            ask.term,
            ask.prev_log_index,
            ask.prev_log_term,
            ask.leader_commit,
            ask.leader_id@,
            entries_view(ask.entries@),
        ));
    }
    r
}

/// Decodes an append ask. Returns the message exactly when the bytes are a
/// valid encoding, with every entry record intact and nothing trailing.
#[verifier::rlimit(60)]
#[verifier::spinoff_prover]
pub fn decode_append_ask(b: &Vec<u8>) -> (r: Option<AppendEntriesAsk>)
    ensures
        match r {
            Some(ask) => spec_decode_append_ask(b@) == Some(
                (
                    ask.term,
                    ask.prev_log_index,
                    ask.prev_log_term,
                    ask.leader_commit,
                    ask.leader_id@,
                    entries_view(ask.entries@),
                ),
            ),
            None => spec_decode_append_ask(b@) is None,
        },
{
    let blen = b.len();
    if blen < 32 {
        return None;
    }
    let term = u32_from_be_at(b, 0);
    let prev_idx = u64_from_be_at(b, 4);
    let prev_term = u32_from_be_at(b, 12);
    let commit = u64_from_be_at(b, 16);
    let name_len64 = u64_from_be_at(b, 24);
    proof {
        assert(b@.subrange(0, 4) =~= b@.take(4));
    }
    if name_len64 > (blen - 32) as u64 || (blen - 32) as u64 - name_len64 < 8 {
        return None;
    }
    let name_len = name_len64 as usize;
    let leader = copy_range(b, 32, 32 + name_len);
    let count = u64_from_be_at(b, 32 + name_len);
    let mut off: usize = 40 + name_len;
    let mut entries: Vec<LogEntry> = Vec::new();
    let ghost region = b@.skip(off as int);
    proof {
        assert(entries_view(entries@) =~= Seq::<(u32, Seq<u8>)>::empty());
    }
    let mut i: u64 = 0;
    proof {
        match spec_decode_entries(region, count as nat) {
            Some(rest) => {
                assert(entries_view(entries@) + rest =~= rest);
            },
            None => {},
        }
        assert(b@.take(4) =~= b@.subrange(0, 4));
        assert(spec_decode_append_ask(b@) == (match spec_decode_entries(region, count as nat) {
            Some(es) => Some((term, prev_idx, prev_term, commit, leader@, es)),
            None => None::<(u32, u64, u32, u64, Seq<u8>, Seq<(u32, Seq<u8>)>)>,
        }));
    }
    while i < count
        invariant
            i <= count,
            40 + name_len <= off <= b@.len(),
            b@.len() == blen,
            entries@.len() == i,
            region == b@.skip(40 + name_len),
            spec_decode_append_ask(b@) == (match spec_decode_entries(region, count as nat) {
                Some(es) => Some((term, prev_idx, prev_term, commit, leader@, es)),
                None => None::<(u32, u64, u32, u64, Seq<u8>, Seq<(u32, Seq<u8>)>)>,
            }),
            spec_decode_entries(region, count as nat) == (match spec_decode_entries(
                b@.skip(off as int),
                (count - i) as nat,
            ) {
                Some(rest) => Some(entries_view(entries@) + rest),
                None => None::<Seq<(u32, Seq<u8>)>>,
            }),
        decreases count - i,
    {
        let remaining = blen - off;
        if remaining < 12 {
            proof {
                assert(b@.skip(off as int).len() < 12);
                assert(spec_decode_entries(b@.skip(off as int), (count - i) as nat) is None);
            }
            return None;
        }
        let e_term = u32_from_be_at(b, off);
        let p_len64 = u64_from_be_at(b, off + 4);
        proof {
            let tail = b@.skip(off as int);
            assert(tail.take(4) =~= b@.subrange(off as int, off + 4));
            assert(tail.subrange(4, 12) =~= b@.subrange(off + 4, off + 12));
        }
        if p_len64 > (remaining - 12) as u64 {
            proof {
                assert(spec_decode_entries(b@.skip(off as int), (count - i) as nat) is None);
            }
            return None;
        }
        let p_len = p_len64 as usize;
        let payload = copy_range(b, off + 12, off + 12 + p_len);
        let ghost v0 = entries_view(entries@);
        let ghost e = (e_term, payload@);
        let ghost tail = b@.skip(off as int);
        let ghost k = (count - i) as nat;
        proof {
            assert(tail.subrange(12, 12 + p_len as int) =~= b@.subrange(
                off + 12,
                off + 12 + p_len,
            ));
            assert(tail.skip(12 + p_len as int) =~= b@.skip(off + 12 + p_len));
            assert(spec_decode_entries(tail, k) == (match spec_decode_entries(
                tail.skip(12 + p_len as int),
                (k - 1) as nat,
            ) {
                Some(rest) => Some(seq![e] + rest),
                None => None::<Seq<(u32, Seq<u8>)>>,
            }));
        }
        entries.push(LogEntry { term: e_term, payload });
        off = off + 12 + p_len;
        i += 1;
        proof {
            assert(entries_view(entries@) =~= v0.push(e));
            match spec_decode_entries(b@.skip(off as int), (count - i) as nat) {
                Some(rest) => {
                    assert(v0 + (seq![e] + rest) =~= v0.push(e) + rest);
                    assert(spec_decode_entries(region, count as nat) == Some(
                        entries_view(entries@) + rest,
                    ));
                },
                None => {
                    assert(spec_decode_entries(tail, k) is None);
                },
            }
        }
    }
    if off != blen {
        proof {
            assert(b@.skip(off as int).len() != 0);
            assert(spec_decode_entries(b@.skip(off as int), 0) is None);
        }
        return None;
    }
    proof {
        assert(b@.skip(off as int).len() == 0);
        assert(b@.skip(off as int) =~= Seq::<u8>::empty());
        assert(spec_decode_entries(b@.skip(off as int), 0) == Some(Seq::<(u32, Seq<u8>)>::empty()));
        assert(entries_view(entries@) + Seq::<(u32, Seq<u8>)>::empty() =~= entries_view(
            entries@,
        ));
    }
    Some(
        AppendEntriesAsk {
            term,
            leader_id: PeerId { bytes: leader },
            prev_log_index: prev_idx,
            prev_log_term: prev_term,
            entries,
            leader_commit: commit,
        },
    )
}

/// Bytes `b[from .. to]` as a fresh vector.
fn copy_range(b: &Vec<u8>, from: usize, to: usize) -> (r: Vec<u8>)
    requires
        from <= to <= b@.len(),
    ensures
        r@ == b@.subrange(from as int, to as int),
{
    let mut r: Vec<u8> = Vec::new();
    let mut i: usize = from;
    while i < to
        invariant
            from <= i <= to <= b@.len(),
            r@ == b@.subrange(from as int, i as int),
        decreases to - i,
    {
        r.push(b[i]);
        proof {
            assert(r@ =~= b@.subrange(from as int, i + 1));
        }
        i += 1;
    }
    r
}

} // verus!
