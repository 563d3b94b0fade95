//! Quorum arithmetic: vote counting, the majority threshold, and the highest
//! log index a majority of peers is known to hold.

use vstd::prelude::*;

verus! {

/// Majority of a static membership of `n`.
pub open spec fn spec_quorum(n: int) -> int {
    n / 2 + 1
}

/// Two majorities of the same membership always overlap.
pub proof fn lemma_quorum_overlap(n: int)
    requires
        n >= 1,
    ensures
        spec_quorum(n) + spec_quorum(n) > n,
{
}

/// How many slots of a vote tally are granted.
pub open spec fn count_true(s: Seq<bool>) -> int
    decreases s.len(),
{
    if s.len() == 0 {
        0
    } else {
        count_true(s.drop_last()) + if s.last() {
            1int
        } else {
            0int
        }
    }
}

pub proof fn lemma_count_true_bound(s: Seq<bool>)
    ensures
        0 <= count_true(s) <= s.len(),
    decreases s.len(),
{
    if s.len() > 0 {
        lemma_count_true_bound(s.drop_last());
    }
}

/// Two tallies over the same membership that each hold a majority grant at
/// least one slot in common: the seed of election safety, since a peer grants
/// at most one vote per term.
pub proof fn lemma_quorums_intersect(a: Seq<bool>, b: Seq<bool>)
    requires
        a.len() == b.len(),
        count_true(a) + count_true(b) > a.len(),
    ensures
        exists|i: int| 0 <= i < a.len() && a[i] && b[i],
    decreases a.len(),
{
    lemma_count_true_bound(a);
    lemma_count_true_bound(b);
    let i = a.len() - 1;
    if a[i] && b[i] {
    } else {
        assert(count_true(a.drop_last()) + count_true(b.drop_last()) > a.drop_last().len());
        lemma_quorums_intersect(a.drop_last(), b.drop_last());
        let j = choose|j: int| 0 <= j < a.drop_last().len() && a.drop_last()[j] && b.drop_last()[j];
        assert(a[j] && b[j]);
    }
}

/// Two tallies that each hold a majority of the same membership share a
/// granted slot. Leaders are made only from such tallies, and a peer grants
/// at most one vote per term, so this is what makes a second leader of the
/// same term impossible.
pub proof fn lemma_election_safety_core(a: Seq<bool>, b: Seq<bool>, n: int)
    requires
        n >= 1,
        a.len() == n,
        b.len() == n,
        count_true(a) >= spec_quorum(n),
        count_true(b) >= spec_quorum(n),
    ensures
        exists|i: int| 0 <= i < n && a[i] && b[i],
{
    lemma_quorum_overlap(n);
    lemma_quorums_intersect(a, b);
}

pub fn count_votes(v: &Vec<bool>) -> (r: usize)
    ensures
        r == count_true(v@),
{
    let n = v.len();
    let mut r: usize = 0;
    let mut i: usize = 0;
    while i < n
        invariant
            i <= n,
            n == v@.len(),
            r == count_true(v@.take(i as int)),
            r <= i,
        decreases n - i,
    {
        proof {
            assert(v@.take(i + 1).drop_last() =~= v@.take(i as int));
            assert(v@.take(i + 1).last() == v@[i as int]);
        }
        if v[i] {
            r += 1;
        }
        i += 1;
    }
    proof {
        assert(v@.take(n as int) =~= v@);
    }
    r
}

/// Whether a tally reaches the majority threshold; a cluster of one needs
/// nobody else.
pub open spec fn spec_has_quorum(votes: Seq<bool>, n: int) -> bool {
    n == 1 || count_true(votes) >= spec_quorum(n)
}

pub fn has_quorum(votes: &Vec<bool>, n: usize) -> (r: bool)
    ensures
        r == spec_has_quorum(votes@, n as int),
{
    if n == 1 {
        return true;
    }
    let c = count_votes(votes);
    c >= n / 2 + 1
}

/// How many slots hold a value at least `x`.
pub open spec fn count_geq(s: Seq<u64>, x: u64) -> int
    decreases s.len(),
{
    if s.len() == 0 {
        0
    } else {
        count_geq(s.drop_last(), x) + if s.last() >= x {
            1int
        } else {
            0int
        }
    }
}

/// Every slot counts toward the floor value.
pub proof fn lemma_count_geq_zero(s: Seq<u64>)
    ensures
        count_geq(s, 0) == s.len(),
    decreases s.len(),
{
    if s.len() > 0 {
        lemma_count_geq_zero(s.drop_last());
    }
}

/// Two thresholds that classify every slot alike count alike.
pub proof fn lemma_count_geq_congruent(s: Seq<u64>, a: u64, b: u64)
    requires
        forall|k: int| 0 <= k < s.len() ==> ((s[k] >= a) == (s[k] >= b)),
    ensures
        count_geq(s, a) == count_geq(s, b),
    decreases s.len(),
{
    if s.len() > 0 {
        assert(forall|k: int|
            0 <= k < s.drop_last().len() ==> ((s.drop_last()[k] >= a) == (s.drop_last()[k] >= b)));
        lemma_count_geq_congruent(s.drop_last(), a, b);
        assert(s.last() == s[s.len() - 1]);
    }
}

/// A positive count names a slot at or above the threshold; among those, one
/// is least.
pub proof fn lemma_count_geq_witness(s: Seq<u64>, x: u64)
    requires
        count_geq(s, x) >= 1,
    ensures
        exists|j: int|
            0 <= j < s.len() && s[j] >= x && (forall|k: int|
                0 <= k < s.len() && s[k] >= x ==> s[k] >= s[j]),
    decreases s.len(),
{
    let last = s.len() - 1;
    if count_geq(s.drop_last(), x) >= 1 {
        lemma_count_geq_witness(s.drop_last(), x);
        let j = choose|j: int|
            0 <= j < s.drop_last().len() && s.drop_last()[j] >= x && (forall|k: int|
                0 <= k < s.drop_last().len() && s.drop_last()[k] >= x ==> s.drop_last()[k]
                    >= s.drop_last()[j]);
        if s.last() >= x && s.last() < s[j] {
            assert forall|k: int| 0 <= k < s.len() && s[k] >= x implies s[k] >= s[last] by {
                if k < s.len() - 1 {
                    assert(s.drop_last()[k] == s[k]);
                    assert(s.drop_last()[k] >= s.drop_last()[j]);
                    assert(s[k] >= s[j] > s[last]);
                }
            }
            assert(s[last] >= x);
        } else {
            assert(forall|k: int| 0 <= k < s.len() - 1 ==> s.drop_last()[k] == s[k]);
            assert(s[j] >= x && (forall|k: int| 0 <= k < s.len() && s[k] >= x ==> s[k] >= s[j]));
        }
    } else {
        assert(s.last() >= x);
        assert(forall|k: int| 0 <= k < s.len() - 1 ==> s.drop_last()[k] == s[k]);
        assert forall|k: int| 0 <= k < s.len() && s[k] >= x implies s[k] >= s[last] by {
            if k < s.len() - 1 {
                assert(s.drop_last()[k] == s[k]);
                lemma_count_geq_pos(s.drop_last(), k, x);
            }
        }
        assert(s[last] >= x && (forall|k: int| 0 <= k < s.len() && s[k] >= x ==> s[k] >= s[last]));
    }
}

/// A slot at or above the threshold makes the count positive.
pub proof fn lemma_count_geq_pos(s: Seq<u64>, k: int, x: u64)
    requires
        0 <= k < s.len(),
        s[k] >= x,
    ensures
        count_geq(s, x) >= 1,
    decreases s.len(),
{
    lemma_count_geq_nonneg(s.drop_last(), x);
    if k < s.len() - 1 {
        assert(s.drop_last()[k] == s[k]);
        lemma_count_geq_pos(s.drop_last(), k, x);
    }
}

pub proof fn lemma_count_geq_nonneg(s: Seq<u64>, x: u64)
    ensures
        count_geq(s, x) >= 0,
    decreases s.len(),
{
    if s.len() > 0 {
        lemma_count_geq_nonneg(s.drop_last(), x);
    }
}

/// `n` is the largest index a quorum of slots reaches.
pub open spec fn is_max_supported(slots: Seq<u64>, q: int, n: u64) -> bool {
    &&& count_geq(slots, n) >= q
    &&& forall|m: u64| m > n ==> count_geq(slots, m) < q
}

/// No two distinct values are both largest.
pub proof fn lemma_max_supported_unique(slots: Seq<u64>, q: int, a: u64, b: u64)
    requires
        is_max_supported(slots, q, a),
        is_max_supported(slots, q, b),
    ensures
        a == b,
{
}

pub fn count_at_least(v: &Vec<u64>, x: u64) -> (r: usize)
    ensures
        r == count_geq(v@, x),
{
    let n = v.len();
    let mut r: usize = 0;
    let mut i: usize = 0;
    while i < n
        invariant
            i <= n,
            n == v@.len(),
            r == count_geq(v@.take(i as int), x),
            r <= i,
        decreases n - i,
    {
        proof {
            assert(v@.take(i + 1).drop_last() =~= v@.take(i as int));
            assert(v@.take(i + 1).last() == v@[i as int]);
        }
        if v[i] >= x {
            r += 1;
        }
        i += 1;
    }
    proof {
        assert(v@.take(n as int) =~= v@);
    }
    r
}

/// The largest log index that a majority of the slots reaches: the median-high
/// of the slot values. Every value above it lacks quorum support.
pub fn max_quorum_supported(v: &Vec<u64>, q: usize) -> (r: u64)
    requires
        1 <= q <= v@.len(),
    ensures
        is_max_supported(v@, q as int, r),
{
    let n = v.len();
    let mut best: u64 = 0;
    let mut i: usize = 0;
    proof {
        lemma_count_geq_zero(v@);
    }
    while i < n
        invariant
            i <= n,
            n == v@.len(),
            1 <= q <= n,
            count_geq(v@, best) >= q,
            forall|j: int| 0 <= j < i ==> (v@[j] <= best || count_geq(v@, v@[j]) < q),
        decreases n - i,
    {
        let x = v[i];
        if x > best {
            let c = count_at_least(v, x);
            if c >= q {
                best = x;
            }
        }
        i += 1;
    }
    proof {
        assert forall|m: u64| m > best implies count_geq(v@, m) < q by {
            lemma_count_geq_nonneg(v@, m);
            if count_geq(v@, m) >= q {
                lemma_count_geq_witness(v@, m);
                let j = choose|j: int|
                    0 <= j < v@.len() && v@[j] >= m && (forall|k: int|
                        0 <= k < v@.len() && v@[k] >= m ==> v@[k] >= v@[j]);
                assert(forall|k: int| 0 <= k < v@.len() ==> ((v@[k] >= m) == (v@[k] >= v@[j])));
                lemma_count_geq_congruent(v@, m, v@[j]);
                assert(count_geq(v@, v@[j]) >= q);
                assert(v@[j] <= best || count_geq(v@, v@[j]) < q);
            }
        }
    }
    best
}

} // verus!
