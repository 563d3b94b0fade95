//! The replicated log and the follower-side append algorithm.
//!
//! A log is a dense sequence of entries; the entry at position `i` carries
//! index `i + 1`. A follower stores a shipped suffix by keeping entries whose
//! term already matches, truncating its log at the first conflict, and
//! appending from there on. Storing the same suffix twice is a no-op, and the
//! prefix before the suffix is never touched.

use vstd::prelude::*;

use crate::types::LogEntry;

verus! {

/// Term of the last entry; 0 for an empty log.
pub open spec fn spec_last_term(log: Seq<LogEntry>) -> u32 {
    if log.len() == 0 {
        0
    } else {
        log.last().term
    }
}

/// Last index of the log (= its length, since indices are dense from 1).
pub fn last_log_index(log: &Vec<LogEntry>) -> (r: u64)
    ensures
        r == log@.len(),
{
    log.len() as u64
}

pub fn last_log_term(log: &Vec<LogEntry>) -> (r: u32)
    ensures
        r == spec_last_term(log@),
{
    if log.len() == 0 {
        0
    } else {
        log[log.len() - 1].term
    }
}

/// A candidate whose last entry is `(c_last_term, c_last_index)` is at least
/// as up to date as this log: lexicographic comparison of (term, index).
pub open spec fn spec_up_to_date(c_last_term: u32, c_last_index: u64, log: Seq<LogEntry>) -> bool {
    c_last_term > spec_last_term(log) || (c_last_term == spec_last_term(log) && c_last_index
        >= log.len())
}

pub fn up_to_date(c_last_term: u32, c_last_index: u64, log: &Vec<LogEntry>) -> (r: bool)
    ensures
        r == spec_up_to_date(c_last_term, c_last_index, log@),
{
    let own_last_term = last_log_term(log);
    c_last_term > own_last_term || (c_last_term == own_last_term && c_last_index >= log.len()
        as u64)
}

/// The consistency check of an incoming suffix: the log holds an entry at
/// `prev_index` with term `prev_term` (vacuously, when `prev_index` is 0).
pub open spec fn spec_prev_ok(log: Seq<LogEntry>, prev_index: u64, prev_term: u32) -> bool {
    prev_index == 0 || (prev_index <= log.len() && log[prev_index - 1].term == prev_term)
}

pub fn prev_ok(log: &Vec<LogEntry>, prev_index: u64, prev_term: u32) -> (r: bool)
    ensures
        r == spec_prev_ok(log@, prev_index, prev_term),
{
    if prev_index == 0 {
        true
    } else if prev_index <= log.len() as u64 {
        log[(prev_index - 1) as usize].term == prev_term
    } else {
        false
    }
}

/// Stores one shipped entry at 0-based position `pos`: an entry already
/// there with the same term is kept; a conflicting entry truncates the log
/// from `pos` on; past the end, the entry is appended.
pub open spec fn spec_store(log: Seq<LogEntry>, pos: int, e: LogEntry) -> Seq<LogEntry>
    recommends
        0 <= pos <= log.len(),
{
    if pos < log.len() {
        if log[pos].term == e.term {
            log
        } else {
            log.take(pos).push(e)
        }
    } else {
        log.push(e)
    }
}

/// Stores a shipped suffix, entry by entry, starting at 0-based position
/// `prev` (the suffix follows the entry at 1-based index `prev`).
pub open spec fn spec_apply(log: Seq<LogEntry>, prev: int, entries: Seq<LogEntry>) -> Seq<
    LogEntry,
>
    decreases entries.len(),
{
    if entries.len() == 0 {
        log
    } else {
        spec_apply(spec_store(log, prev, entries[0]), prev + 1, entries.drop_first())
    }
}

/// Shape of a stored suffix: the result holds every shipped position, agrees
/// with the shipped terms there, and the prefix before `prev` is unchanged.
pub proof fn lemma_apply_shape(log: Seq<LogEntry>, prev: int, entries: Seq<LogEntry>)
    requires
        0 <= prev <= log.len(),
    ensures
        spec_apply(log, prev, entries).len() >= prev + entries.len(),
        forall|i: int|
            0 <= i < entries.len() ==> spec_apply(log, prev, entries)[prev + i].term
                == entries[i].term,
        spec_apply(log, prev, entries).take(prev) == log.take(prev),
        spec_apply(log, prev, entries).len() <= log.len() + entries.len(),
    decreases entries.len(),
{
    if entries.len() == 0 {
        assert(spec_apply(log, prev, entries).take(prev) =~= log.take(prev));
    } else {
        let e0 = entries[0];
        let l1 = spec_store(log, prev, e0);
        assert(l1.len() >= prev + 1);
        assert(l1.len() <= log.len() + 1);
        assert(l1[prev].term == e0.term);
        assert(l1.take(prev) =~= log.take(prev));
        lemma_apply_shape(l1, prev + 1, entries.drop_first());
        let res = spec_apply(log, prev, entries);
        assert(res == spec_apply(l1, prev + 1, entries.drop_first()));
        assert(res.take(prev + 1) == l1.take(prev + 1));
        assert(res[prev] == res.take(prev + 1)[prev]);
        assert(res[prev].term == e0.term);
        assert(res.take(prev) =~= res.take(prev + 1).take(prev));
        assert(res.take(prev + 1).take(prev) =~= l1.take(prev + 1).take(prev));
        assert(l1.take(prev + 1).take(prev) =~= l1.take(prev));
        assert(forall|i: int|
            0 <= i < entries.drop_first().len() ==> res[prev + 1 + i].term
                == entries.drop_first()[i].term);
        assert(forall|i: int| 1 <= i < entries.len() ==> entries.drop_first()[i - 1] == entries[i]);
        assert(forall|i: int|
            1 <= i < entries.len() ==> res[prev + i].term == entries[i].term) by {
            assert(forall|i: int|
                1 <= i < entries.len() ==> res[prev + i].term == #[trigger] entries.drop_first()[i
                    - 1].term);
        }
    }
}

/// Storing a suffix whose terms already stand in the log changes nothing.
pub proof fn lemma_apply_noop(log: Seq<LogEntry>, prev: int, entries: Seq<LogEntry>)
    requires
        0 <= prev,
        prev + entries.len() <= log.len(),
        forall|i: int| 0 <= i < entries.len() ==> log[prev + i].term == entries[i].term,
    ensures
        spec_apply(log, prev, entries) == log,
    decreases entries.len(),
{
    if entries.len() > 0 {
        assert(log[prev].term == entries[0].term);
        assert(spec_store(log, prev, entries[0]) == log);
        assert(forall|i: int|
            0 <= i < entries.drop_first().len() ==> log[prev + 1 + i].term
                == #[trigger] entries.drop_first()[i].term) by {
            assert(forall|i: int|
                0 <= i < entries.len() - 1 ==> entries.drop_first()[i] == entries[i + 1]);
        }
        lemma_apply_noop(log, prev + 1, entries.drop_first());
    }
}

/// Storing the same shipped suffix twice yields the same log as storing it
/// once: a retried or duplicated `AppendEntries` is harmless.
pub proof fn lemma_apply_idempotent(log: Seq<LogEntry>, prev: int, entries: Seq<LogEntry>)
    requires
        0 <= prev <= log.len(),
    ensures
        spec_apply(spec_apply(log, prev, entries), prev, entries) == spec_apply(
            log,
            prev,
            entries,
        ),
{
    let l1 = spec_apply(log, prev, entries);
    lemma_apply_shape(log, prev, entries);
    lemma_apply_noop(l1, prev, entries);
}

/// Storing a suffix and one more entry is storing the suffix, then the entry
/// at the position after it.
pub proof fn lemma_apply_snoc(log: Seq<LogEntry>, prev: int, entries: Seq<LogEntry>, e: LogEntry)
    ensures
        spec_apply(log, prev, entries.push(e)) == spec_store(
            spec_apply(log, prev, entries),
            prev + entries.len(),
            e,
        ),
    decreases entries.len(),
{
    let snoc = entries.push(e);
    assert(snoc.len() == entries.len() + 1);
    assert(spec_apply(log, prev, snoc) == spec_apply(
        spec_store(log, prev, snoc[0]),
        prev + 1,
        snoc.drop_first(),
    ));
    if entries.len() == 0 {
        assert(snoc[0] == e);
        assert(snoc.drop_first() =~= Seq::<LogEntry>::empty());
        assert(spec_apply(spec_store(log, prev, e), prev + 1, snoc.drop_first()) == spec_store(
            log,
            prev,
            e,
        ));
        assert(spec_apply(log, prev, entries) == log);
    } else {
        assert(snoc[0] == entries[0]);
        assert(snoc.drop_first() =~= entries.drop_first().push(e));
        let l1 = spec_store(log, prev, entries[0]);
        lemma_apply_snoc(l1, prev + 1, entries.drop_first(), e);
        assert(spec_apply(log, prev, snoc) == spec_store(
            spec_apply(l1, prev + 1, entries.drop_first()),
            prev + 1 + entries.drop_first().len(),
            e,
        ));
        assert(spec_apply(log, prev, entries) == spec_apply(l1, prev + 1, entries.drop_first()));
    }
}

/// The shipped suffix does not conflict with the committed prefix: every
/// shipped entry that lands at an index at or below `c` carries the term
/// already stored there. A suffix from the legitimate leader always
/// satisfies this; anything else is refused rather than applied.
pub open spec fn spec_commit_safe(
    log: Seq<LogEntry>,
    prev: int,
    entries: Seq<LogEntry>,
    c: int,
) -> bool {
    forall|i: int|
        0 <= i < entries.len() && prev + i < c ==> prev + i < log.len() && log[prev + i].term
            == entries[i].term
}

/// Checks `spec_commit_safe`: scans the part of the suffix that overlaps
/// the committed prefix for a term mismatch.
pub fn commit_safe(log: &Vec<LogEntry>, prev_index: u64, entries: &Vec<LogEntry>, c: u64) -> (r:
    bool)
    requires
        prev_index <= log@.len(),
        c <= log@.len(),
        prev_index + entries@.len() < u64::MAX,
    ensures
        r == spec_commit_safe(log@, prev_index as int, entries@, c as int),
{
    let loglen = log.len();
    let n = entries.len();
    let mut i: usize = 0;
    while i < n
        invariant
            i <= n,
            n == entries@.len(),
            loglen == log@.len(),
            prev_index <= loglen as u64,
            c <= loglen as u64,
            prev_index + n < u64::MAX,
            forall|k: int|
                0 <= k < i && prev_index + k < c ==> log@[prev_index + k].term
                    == entries@[k].term,
        decreases n - i,
    {
        let pos64 = prev_index + i as u64;
        if pos64 < c {
            let pos = pos64 as usize;
            if log[pos].term != entries[i].term {
                proof {
                    assert(prev_index + i < c && log@[prev_index + i].term != entries@[i
                        as int].term);
                }
                return false;
            }
        }
        i += 1;
    }
    true
}

/// Storing a commit-safe suffix never touches the committed prefix: the
/// first `c` entries survive unchanged and the log stays at least that long.
pub proof fn lemma_apply_preserves_commit(
    log: Seq<LogEntry>,
    prev: int,
    entries: Seq<LogEntry>,
    c: int,
)
    requires
        0 <= prev <= log.len(),
        0 <= c <= log.len(),
        spec_commit_safe(log, prev, entries, c),
    ensures
        spec_apply(log, prev, entries).len() >= c,
        spec_apply(log, prev, entries).take(c) == log.take(c),
    decreases entries.len(),
{
    if entries.len() == 0 {
        assert(spec_apply(log, prev, entries).take(c) =~= log.take(c));
    } else {
        let e0 = entries[0];
        let l1 = spec_store(log, prev, e0);
        if prev < c {
            assert(log[prev].term == e0.term);
            assert(l1 == log);
        } else {
            assert(l1.len() >= c);
            assert(l1.take(c) =~= log.take(c));
        }
        assert(forall|i: int|
            0 <= i < entries.drop_first().len() && prev + 1 + i < c ==> prev + 1 + i < l1.len()
                && l1[prev + 1 + i].term == #[trigger] entries.drop_first()[i].term) by {
            assert(forall|i: int|
                0 <= i < entries.len() - 1 ==> entries.drop_first()[i] == entries[i + 1]);
        }
        lemma_apply_preserves_commit(l1, prev + 1, entries.drop_first(), c);
        assert(spec_apply(log, prev, entries) == spec_apply(l1, prev + 1, entries.drop_first()));
    }
}

/// A copy of one entry, same term and payload.
pub fn dup_entry(e: &LogEntry) -> (r: LogEntry)
    ensures
        r.term == e.term,
        r.payload@ == e.payload@,
{
    LogEntry { term: e.term, payload: crate::codec::clone_bytes(&e.payload) }
}

/// A copy of the log's tail from 0-based position `from` on.
pub fn copy_log_suffix(log: &Vec<LogEntry>, from: usize) -> (r: Vec<LogEntry>)
    requires
        from <= log@.len(),
    ensures
        r@.len() == log@.len() - from,
        forall|k: int|
            0 <= k < r@.len() ==> (#[trigger] r@[k]).term == log@[from + k].term && r@[k].payload@
                == log@[from + k].payload@,
{
    let n = log.len();
    let mut r: Vec<LogEntry> = Vec::new();
    let mut i: usize = from;
    while i < n
        invariant
            from <= i <= n,
            n == log@.len(),
            r@.len() == i - from,
            forall|k: int|
                0 <= k < r@.len() ==> (#[trigger] r@[k]).term == log@[from + k].term
                    && r@[k].payload@ == log@[from + k].payload@,
        decreases n - i,
    {
        r.push(dup_entry(&log[i]));
        i += 1;
    }
    r
}

/// Stores the shipped suffix `entries` after 1-based index `prev` in `log`,
/// as `spec_apply` describes: matching entries are kept, the first conflict
/// truncates, the rest is appended.
pub fn apply_entries(log: &mut Vec<LogEntry>, prev: usize, entries: Vec<LogEntry>)
    requires
        prev <= old(log)@.len(),
        old(log)@.len() + entries@.len() < usize::MAX,
    ensures
        final (log)@ == spec_apply(old(log)@, prev as int, entries@),
{
    let ghost orig_log = log@;
    let ghost all = entries@;
    let mut entries = entries;
    let n = entries.len();
    let mut i: usize = 0;
    while i < n
        invariant
            i <= n,
            n == all.len(),
            prev + n < usize::MAX,
            prev <= orig_log.len(),
            entries@ == all.skip(i as int),
            log@ == spec_apply(orig_log, prev as int, all.take(i as int)),
            prev + i <= log@.len(),
        decreases n - i,
    {
        proof {
            assert(all.skip(i as int)[0] == all[i as int]);
        }
        let e = entries.remove(0);
        let pos = prev + i;
        let ghost before = log@;
        if pos < log.len() {
            if log[pos].term != e.term {
                log.truncate(pos);
                proof {
                    assert(log@ =~= before.take(pos as int));
                }
                log.push(e);
            }
        } else {
            log.push(e);
        }
        proof {
            assert(log@ == spec_store(before, pos as int, all[i as int]));
            lemma_apply_snoc(orig_log, prev as int, all.take(i as int), all[i as int]);
            assert(all.take(i as int).push(all[i as int]) =~= all.take(i + 1));
            assert(log@ == spec_apply(orig_log, prev as int, all.take(i + 1)));
            lemma_apply_shape(orig_log, prev as int, all.take(i + 1));
            assert(entries@ =~= all.skip(i + 1));
        }
        i += 1;
    }
    proof {
        assert(all.take(n as int) =~= all);
    }
}

} // verus!
