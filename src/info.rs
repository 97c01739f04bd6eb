use vstd::prelude::*;
use crate::outcomes::{MAX_ANSWERS, histogram, lemma_occurrences_le, occurrences};

verus! {

/// Largest entry of a table of `n * log2(n)` values (2^41).
pub const MAX_LOG_ENTRY: i64 = 2199023255552;

/// A bound below every information value: -(MAX_ANSWERS + 1) * MAX_LOG_ENTRY.
pub const INFO_FLOOR: i64 = -144115188075855872;

/// Sum of the counts of a histogram.
pub open spec fn total(h: Seq<u16>) -> nat
    decreases h.len(),
{
    if h.len() == 0 {
        0
    } else {
        total(h.drop_last()) + h.last() as nat
    }
}

/// Sum of `t[c]` over the non-zero counts `c` of the histogram.
pub open spec fn spread(t: Seq<i64>, h: Seq<u16>) -> int
    decreases h.len(),
{
    if h.len() == 0 {
        0
    } else {
        spread(t, h.drop_last()) + if h.last() > 0 {
            t[h.last() as int] as int
        } else {
            0
        }
    }
}

/// The information of a histogram of `N` answers, scaled by `N`: with
/// `t[n] = n * log2(n)` this is `N * H`, `H` the entropy in bits of the
/// partition whose bucket sizes the histogram counts.
pub open spec fn info_spec(t: Seq<i64>, h: Seq<u16>) -> int {
    t[total(h) as int] - spread(t, h)
}

/// The same with the bucket terms read from `f`, an approximate table.
pub open spec fn fast_info_spec(t: Seq<i64>, f: Seq<i64>, h: Seq<u16>) -> int {
    t[total(h) as int] - spread(f, h)
}

/// Every entry of `t` lies in `0..=MAX_LOG_ENTRY`.
pub open spec fn entries_ok(t: Seq<i64>) -> bool {
    forall|k: int| 0 <= k < t.len() ==> 0 <= #[trigger] t[k] <= MAX_LOG_ENTRY
}

/// `f` stays within `n * e` of `t` at every `n`.
pub open spec fn within(t: Seq<i64>, f: Seq<i64>, e: int) -> bool {
    forall|n: int| 0 <= n < t.len() ==> #[trigger] (f[n] - t[n]) <= n * e && t[n] - f[n] <= n * e
}

/// The fast information of a histogram is within `total(h) * e` of the
/// exact one, when the fast table is within `n * e` of the exact table at
/// every `n`.
pub proof fn lemma_fast_info_close(t: Seq<i64>, f: Seq<i64>, e: int, h: Seq<u16>)
    requires
        f.len() == t.len(),
        total(h) < t.len(),
        within(t, f, e),
        e >= 0,
    ensures
        fast_info_spec(t, f, h) - info_spec(t, h) <= total(h) * e,
        info_spec(t, h) - fast_info_spec(t, f, h) <= total(h) * e,
    decreases h.len(),
{
    lemma_spread_close(t, f, e, h);
}

proof fn lemma_spread_close(t: Seq<i64>, f: Seq<i64>, e: int, h: Seq<u16>)
    requires
        f.len() == t.len(),
        total(h) < t.len(),
        within(t, f, e),
        e >= 0,
    ensures
        spread(t, h) - spread(f, h) <= total(h) * e,
        spread(f, h) - spread(t, h) <= total(h) * e,
    decreases h.len(),
{
    if h.len() > 0 {
        let d = h.drop_last();
        let c = h.last() as int;
        lemma_spread_close(t, f, e, d);
        let a = total(d) as int;
        assert(a * e + c * e == (a + c) * e) by (nonlinear_arith);
        if c > 0 {
            assert(f[c] - t[c] <= c * e && t[c] - f[c] <= c * e);
        }
        assert(0 <= c * e) by (nonlinear_arith)
            requires
                0 <= c,
                0 <= e,
        ;
    }
}

/// The information of the histogram `buckets`, scaled by the number of
/// answers it counts, from the table `t` of `n * log2(n)` values.
pub fn info(t: &Vec<i64>, buckets: &Vec<u16>) -> (r: i64)
    requires
        entries_ok(t@),
        t@.len() <= MAX_ANSWERS + 1,
        total(buckets@) < t@.len(),
    ensures
        r == info_spec(t@, buckets@),
        INFO_FLOOR <= r <= MAX_LOG_ENTRY,
        convex(t@) && t@[0] == 0 ==> r >= 0,
{
    let (n, s) = weigh(t, buckets);
    proof {
        if convex(t@) && t@[0] == 0 {
            lemma_spread_le_top(t@, buckets@);
        }
        assert(n * MAX_LOG_ENTRY <= (MAX_ANSWERS + 1) * MAX_LOG_ENTRY) by (nonlinear_arith)
            requires
                n <= MAX_ANSWERS + 1,
        ;
    }
    t[n] - s
}

/// The information of the histogram `buckets` with the bucket terms read from
/// the approximate table `f`.
pub fn fast_info(t: &Vec<i64>, f: &Vec<i64>, buckets: &Vec<u16>) -> (r: i64)
    requires
        entries_ok(t@),
        entries_ok(f@),
        f@.len() == t@.len(),
        t@.len() <= MAX_ANSWERS + 1,
        total(buckets@) < t@.len(),
    ensures
        r == fast_info_spec(t@, f@, buckets@),
        INFO_FLOOR <= r <= MAX_LOG_ENTRY,
{
    let (n, s) = weigh(f, buckets);
    proof {
        assert(n * MAX_LOG_ENTRY <= (MAX_ANSWERS + 1) * MAX_LOG_ENTRY) by (nonlinear_arith)
            requires
                n <= MAX_ANSWERS + 1,
        ;
    }
    t[n] - s
}

/// The total count of a histogram and the sum of its bucket terms.
fn weigh(t: &Vec<i64>, buckets: &Vec<u16>) -> (r: (usize, i64))
    requires
        entries_ok(t@),
        t@.len() <= MAX_ANSWERS + 1,
        total(buckets@) < t@.len(),
    ensures
        r.0 == total(buckets@),
        r.1 == spread(t@, buckets@),
        0 <= r.1 <= total(buckets@) * MAX_LOG_ENTRY,
{
    let len = buckets.len();
    let tl = t.len();
    let ghost h = buckets@;
    let mut n: usize = 0;
    let mut s: i64 = 0;
    let mut k: usize = 0;
    while k < len
        invariant
            h == buckets@,
            tl == t@.len(),
            len == h.len(),
            t@.len() <= MAX_ANSWERS + 1,
            entries_ok(t@),
            total(h) < t@.len(),
            k <= len,
            n == total(h.take(k as int)),
            s == spread(t@, h.take(k as int)),
            0 <= s <= n * MAX_LOG_ENTRY,
            n <= total(h),
        decreases len - k,
    {
        let c = buckets[k];
        proof {
            assert(h.take(k + 1).drop_last() =~= h.take(k as int));
            lemma_total_prefix(h, k + 1);
            assert(total(h.take(k + 1)) == total(h.take(k as int)) + c);
            assert(spread(t@, h.take(k + 1)) == spread(t@, h.take(k as int)) + if c > 0 {
                t@[c as int] as int
            } else {
                0
            });
        }
        proof {
            assert(n * MAX_LOG_ENTRY + if c > 0 {
                MAX_LOG_ENTRY as int
            } else {
                0
            } <= (n + c) * MAX_LOG_ENTRY) by (nonlinear_arith)
                requires
                    0 <= n,
                    0 <= c,
            ;
        }
        n = n + c as usize;
        if c > 0 {
            s = s + t[c as usize];
        }
        k = k + 1;
    }
    assert(h.take(len as int) =~= h);
    (n, s)
}

/// A prefix of a histogram counts no more than the whole, and each count is
/// at most the total of the prefix that holds it.
proof fn lemma_total_prefix(h: Seq<u16>, k: int)
    requires
        0 < k <= h.len(),
    ensures
        total(h.take(k)) <= total(h),
        h[k - 1] <= total(h.take(k)),
    decreases h.len() - k,
{
    assert(h.take(k).drop_last() =~= h.take(k - 1));
    if k < h.len() {
        lemma_total_prefix(h, k + 1);
        assert(h.take(k + 1).drop_last() =~= h.take(k));
    } else {
        assert(h.take(k) =~= h);
    }
}


proof fn lemma_total_zeros(h: Seq<u16>)
    requires
        forall|k: int| 0 <= k < h.len() ==> #[trigger] h[k] == 0,
    ensures
        total(h) == 0,
    decreases h.len(),
{
    if h.len() > 0 {
        lemma_total_zeros(h.drop_last());
    }
}

proof fn lemma_total_bump(h: Seq<u16>, v: int)
    requires
        0 <= v < h.len(),
        h[v] < 65535,
    ensures
        total(h.update(v, (h[v] + 1) as u16)) == total(h) + 1,
    decreases h.len(),
{
    let u = h.update(v, (h[v] + 1) as u16);
    if v == h.len() - 1 {
        assert(u.drop_last() =~= h.drop_last());
    } else {
        lemma_total_bump(h.drop_last(), v);
        assert(u.drop_last() =~= h.drop_last().update(v, (h[v] + 1) as u16));
    }
}

/// A histogram of keys that all fall in its range counts every key once.
pub proof fn lemma_histogram_total(keys: Seq<usize>, size: nat)
    requires
        keys.len() <= 65535,
        forall|i: int| 0 <= i < keys.len() ==> #[trigger] keys[i] < size,
    ensures
        total(histogram(keys, size)) == keys.len(),
    decreases keys.len(),
{
    if keys.len() == 0 {
        lemma_total_zeros(histogram(keys, size));
    } else {
        let d = keys.drop_last();
        let v = keys.last() as int;
        lemma_histogram_total(d, size);
        lemma_occurrences_le(d, v);
        assert(histogram(keys, size) =~= histogram(d, size).update(v, (occurrences(d, v) + 1) as u16));
        lemma_total_bump(histogram(d, size), v);
    }
}


proof fn lemma_sums_remove(t: Seq<i64>, h: Seq<u16>, j: int)
    requires
        0 <= j < h.len(),
    ensures
        total(h) == total(h.remove(j)) + h[j],
        spread(t, h) == spread(t, h.remove(j)) + if h[j] > 0 {
            t[h[j] as int] as int
        } else {
            0
        },
    decreases h.len(),
{
    if j == h.len() - 1 {
        assert(h.remove(j) =~= h.drop_last());
    } else {
        lemma_sums_remove(t, h.drop_last(), j);
        assert(h.remove(j).drop_last() =~= h.drop_last().remove(j));
        assert(h.remove(j).last() == h.last());
    }
}

/// The information of a histogram depends only on the multiset of its
/// counts, not on which label holds which count.
pub proof fn lemma_info_ignores_labels(t: Seq<i64>, h1: Seq<u16>, h2: Seq<u16>)
    requires
        h1.to_multiset() == h2.to_multiset(),
    ensures
        total(h1) == total(h2),
        spread(t, h1) == spread(t, h2),
        info_spec(t, h1) == info_spec(t, h2),
    decreases h1.len(),
{
    broadcast use vstd::seq_lib::group_to_multiset_ensures;

    h1.to_multiset_ensures();
    h2.to_multiset_ensures();
    if h1.len() > 0 {
        let x = h1.last();
        let d1 = h1.drop_last();
        assert(h1 =~= d1.push(x));
        d1.to_multiset_ensures();
        assert(h2.to_multiset().count(x) > 0);
        assert(h2.contains(x));
        let j = choose|j: int| 0 <= j < h2.len() && h2[j] == x;
        let d2 = h2.remove(j);
        assert(d2.to_multiset() =~= d1.to_multiset());
        lemma_info_ignores_labels(t, d1, d2);
        lemma_sums_remove(t, h2, j);
    }
}


proof fn lemma_sums_single(t: Seq<i64>, h: Seq<u16>, p: int)
    requires
        forall|k: int| 0 <= k < h.len() && k != p ==> #[trigger] h[k] == 0,
    ensures
        total(h) == if 0 <= p < h.len() {
            h[p] as nat
        } else {
            0
        },
        spread(t, h) == if 0 <= p < h.len() && h[p] > 0 {
            t[h[p] as int] as int
        } else {
            0
        },
    decreases h.len(),
{
    if h.len() > 0 {
        lemma_sums_single(t, h.drop_last(), p);
    }
}

/// A histogram that counts no answers, or puts them all in one bucket (the
/// one at `p`), carries no information.
pub proof fn lemma_info_trivial(t: Seq<i64>, h: Seq<u16>, p: int)
    requires
        forall|k: int| 0 <= k < h.len() && k != p ==> #[trigger] h[k] == 0,
        total(h) < t.len(),
        t[0] == 0,
    ensures
        info_spec(t, h) == 0,
{
    lemma_sums_single(t, h, p);
}


/// The steps `t[n + 1] - t[n]` never decrease.
pub open spec fn convex(t: Seq<i64>) -> bool {
    forall|n: int| 0 <= n && n + 2 < t.len() ==> #[trigger] t[n + 2] - t[n + 1] >= t[n + 1] - t[n]
}

proof fn lemma_steps_grow(t: Seq<i64>, i: int, j: int)
    requires
        convex(t),
        0 <= i <= j,
        j + 1 < t.len(),
    ensures
        t[j + 1] - t[j] >= t[i + 1] - t[i],
    decreases j - i,
{
    if i < j {
        lemma_steps_grow(t, i, j - 1);
        assert(t[(j - 1) + 2] - t[(j - 1) + 1] >= t[(j - 1) + 1] - t[j - 1]);
    }
}

/// A convex table that starts at 0 is superadditive.
pub proof fn lemma_superadditive(t: Seq<i64>, a: int, b: int)
    requires
        convex(t),
        t[0] == 0,
        0 <= a,
        0 <= b,
        a + b < t.len(),
    ensures
        t[a + b] >= t[a] + t[b],
    decreases a,
{
    if a > 0 {
        lemma_superadditive(t, a - 1, b);
        lemma_steps_grow(t, a - 1, a - 1 + b);
    }
}

/// The bucket terms of a histogram add up to no more than the term of its
/// total, so its information is never negative.
pub proof fn lemma_spread_le_top(t: Seq<i64>, h: Seq<u16>)
    requires
        convex(t),
        t[0] == 0,
        total(h) < t.len(),
    ensures
        spread(t, h) <= t[total(h) as int],
        info_spec(t, h) >= 0,
    decreases h.len(),
{
    if h.len() > 0 {
        let d = h.drop_last();
        lemma_spread_le_top(t, d);
        lemma_superadditive(t, total(d) as int, h.last() as int);
    }
}

proof fn lemma_spread_bump(t: Seq<i64>, h: Seq<u16>, v: int)
    requires
        0 <= v < h.len(),
        h[v] < 65535,
        h[v] + 1 < t.len(),
        t[0] == 0,
    ensures
        spread(t, h.update(v, (h[v] + 1) as u16)) == spread(t, h) - t[h[v] as int] + t[h[v] + 1],
    decreases h.len(),
{
    let u = h.update(v, (h[v] + 1) as u16);
    if v == h.len() - 1 {
        assert(u.drop_last() =~= h.drop_last());
    } else {
        lemma_spread_bump(t, h.drop_last(), v);
        assert(u.drop_last() =~= h.drop_last().update(v, (h[v] + 1) as u16));
    }
}

/// Each key of `fine` decides the key of `coarse` at the same place.
pub open spec fn coarsens(fine: Seq<usize>, coarse: Seq<usize>) -> bool {
    &&& fine.len() == coarse.len()
    &&& forall|i: int, j: int|
        0 <= i < fine.len() && 0 <= j < fine.len() && #[trigger] fine[i] == #[trigger] fine[j] ==> coarse[i]
            == coarse[j]
}

proof fn lemma_occurrences_refine(fine: Seq<usize>, coarse: Seq<usize>, n: int, m: int)
    requires
        coarsens(fine, coarse),
        0 <= n < fine.len(),
        0 <= m <= n,
    ensures
        occurrences(fine.take(m), fine[n] as int) <= occurrences(coarse.take(m), coarse[n] as int),
    decreases m,
{
    if m > 0 {
        lemma_occurrences_refine(fine, coarse, n, m - 1);
        crate::outcomes::lemma_occurrences_step(fine, m - 1, fine[n] as int);
        crate::outcomes::lemma_occurrences_step(coarse, m - 1, coarse[n] as int);
    }
}

/// Splitting the answers more finely never lowers the information, for a
/// convex table: the histogram of `fine` has bucket terms that add up to no
/// more than those of `coarse`.
pub proof fn lemma_refine_spread(t: Seq<i64>, fine: Seq<usize>, sf: nat, coarse: Seq<usize>, sc: nat)
    requires
        convex(t),
        t[0] == 0,
        coarsens(fine, coarse),
        fine.len() < t.len(),
        fine.len() <= 65535,
        forall|i: int| 0 <= i < fine.len() ==> #[trigger] fine[i] < sf,
        forall|i: int| 0 <= i < coarse.len() ==> #[trigger] coarse[i] < sc,
    ensures
        spread(t, histogram(fine, sf)) <= spread(t, histogram(coarse, sc)),
        info_spec(t, histogram(fine, sf)) >= info_spec(t, histogram(coarse, sc)),
    decreases fine.len(),
{
    lemma_histogram_total(fine, sf);
    lemma_histogram_total(coarse, sc);
    if fine.len() == 0 {
        lemma_sums_single(t, histogram(fine, sf), -1);
        lemma_sums_single(t, histogram(coarse, sc), -1);
    } else {
        let n = fine.len() - 1;
        let df = fine.drop_last();
        let dc = coarse.drop_last();
        assert(coarsens(df, dc)) by {
            assert forall|i: int, j: int|
                0 <= i < df.len() && 0 <= j < df.len() && #[trigger] df[i] == #[trigger] df[j] implies dc[i] == dc[j] by {
                assert(fine[i] == fine[j]);
            }
        }
        lemma_refine_spread(t, df, sf, dc, sc);
        let vf = fine.last() as int;
        let vc = coarse.last() as int;
        lemma_occurrences_le(df, vf);
        lemma_occurrences_le(dc, vc);
        lemma_occurrences_refine(fine, coarse, n, n);
        assert(fine.take(n) =~= df);
        assert(coarse.take(n) =~= dc);
        assert(histogram(fine, sf) =~= histogram(df, sf).update(vf, (occurrences(df, vf) + 1) as u16));
        assert(histogram(coarse, sc) =~= histogram(dc, sc).update(vc, (occurrences(dc, vc) + 1) as u16));
        lemma_spread_bump(t, histogram(df, sf), vf);
        lemma_spread_bump(t, histogram(dc, sc), vc);
        lemma_steps_grow(t, occurrences(df, vf) as int, occurrences(dc, vc) as int);
    }
}

} // verus!
