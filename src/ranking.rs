use vstd::prelude::*;

verus! {

/// A sort key: a score and two indices.
pub type Key = (i64, usize, usize);

/// Lexicographic order on keys.
pub open spec fn key_le(a: Key, b: Key) -> bool {
    a.0 < b.0 || (a.0 == b.0 && (a.1 < b.1 || (a.1 == b.1 && a.2 <= b.2)))
}

pub open spec fn keys_sorted(s: Seq<Key>) -> bool {
    forall|i: int, j: int| 0 <= i < j < s.len() ==> key_le(#[trigger] s[i], #[trigger] s[j])
}

/// Relies on `slice::sort_unstable`: it reorders the keys into ascending
/// order; tuples of integers compare lexicographically.
#[verifier::external_body]
pub fn sort_keys(v: &mut Vec<Key>)
    ensures
        final(v)@.to_multiset() == old(v)@.to_multiset(),
        keys_sorted(final(v)@),
{
    v.sort_unstable();
}

/// Two sequences with the same multiset have the same length and the same
/// members.
pub proof fn lemma_same_members<A>(a: Seq<A>, b: Seq<A>)
    requires
        a.to_multiset() == b.to_multiset(),
    ensures
        a.len() == b.len(),
        forall|i: int| 0 <= i < b.len() ==> #[trigger] a.contains(b[i]),
        forall|j: int| 0 <= j < a.len() ==> #[trigger] b.contains(a[j]),
{
    broadcast use vstd::seq_lib::group_to_multiset_ensures;

    a.to_multiset_ensures();
    b.to_multiset_ensures();
    assert forall|i: int| 0 <= i < b.len() implies #[trigger] a.contains(b[i]) by {
        assert(b.contains(b[i]));
        assert(b.to_multiset().count(b[i]) > 0);
    }
    assert forall|j: int| 0 <= j < a.len() implies #[trigger] b.contains(a[j]) by {
        assert(a.contains(a[j]));
        assert(a.to_multiset().count(a[j]) > 0);
    }
}


/// Some entry of `order` is `i`.
pub open spec fn lists(order: Seq<usize>, i: int) -> bool {
    exists|k: int| 0 <= k < order.len() && order[k] as int == i
}

/// `order` lists every index of `scores` exactly once, from the highest
/// score to the lowest, equal scores in index order.
pub open spec fn ranks(order: Seq<usize>, scores: Seq<i64>) -> bool {
    &&& order.len() == scores.len()
    &&& forall|k: int| 0 <= k < order.len() ==> #[trigger] order[k] < scores.len()
    &&& forall|i: int| 0 <= i < scores.len() ==> #[trigger] lists(order, i)
    &&& forall|k1: int, k2: int|
        0 <= k1 <= k2 < order.len() ==> scores[#[trigger] order[k1] as int] >= scores[#[trigger] order[k2] as int]
    &&& forall|k1: int, k2: int|
        0 <= k1 < k2 < order.len() ==> #[trigger] order[k1] != #[trigger] order[k2]
    &&& forall|k1: int, k2: int|
        0 <= k1 < k2 < order.len() && scores[#[trigger] order[k1] as int] == scores[#[trigger] order[k2] as int]
            ==> order[k1] < order[k2]
}

/// The indices of `scores`, from the highest score to the lowest; equal
/// scores keep their index order.
pub fn rank(scores: &Vec<i64>) -> (order: Vec<usize>)
    requires
        forall|i: int| 0 <= i < scores@.len() ==> #[trigger] scores@[i] > i64::MIN,
    ensures
        ranks(order@, scores@),
{
    let n = scores.len();
    let mut keys: Vec<Key> = Vec::with_capacity(n);
    let mut i: usize = 0;
    while i < n
        invariant
            n == scores@.len(),
            forall|j: int| 0 <= j < n ==> #[trigger] scores@[j] > i64::MIN,
            i <= n,
            keys@.len() == i,
            forall|j: int| 0 <= j < i ==> #[trigger] keys@[j] == ((-scores@[j]) as i64, j as usize, 0usize),
        decreases n - i,
    {
        keys.push((-scores[i], i, 0));
        i = i + 1;
    }
    let ghost before = keys@;
    proof {
        assert forall|a: int, b: int| 0 <= a < before.len() && 0 <= b < before.len() && a != b implies before[a]
            != before[b] by {
            assert(before[a].1 == a as usize);
            assert(before[b].1 == b as usize);
        }
    }
    sort_keys(&mut keys);
    proof {
        lemma_same_members(before, keys@);
        lemma_keeps_distinct(before, keys@);
    }
    let mut order: Vec<usize> = Vec::with_capacity(n);
    let mut k: usize = 0;
    while k < n
        invariant
            n == scores@.len() == keys@.len() == before.len(),
            forall|j: int| 0 <= j < n ==> #[trigger] before[j] == ((-scores@[j]) as i64, j as usize, 0usize),
            forall|j: int| 0 <= j < n ==> #[trigger] before.contains(keys@[j]),
            k <= n,
            order@.len() == k,
            forall|j: int| 0 <= j < k ==> #[trigger] order@[j] == keys@[j].1,
        decreases n - k,
    {
        order.push(keys[k].1);
        k = k + 1;
    }
    proof {
        assert forall|j: int| 0 <= j < n implies #[trigger] keys@[j] == (
            (-scores@[keys@[j].1 as int]) as i64,
            keys@[j].1,
            0usize,
        ) && keys@[j].1 < n by {
            assert(before.contains(keys@[j]));
            let m = choose|m: int| 0 <= m < before.len() && before[m] == keys@[j];
        }
        assert forall|i: int| 0 <= i < n implies #[trigger] lists(order@, i) by {
            assert(keys@.contains(before[i]));
            let m = choose|m: int| 0 <= m < keys@.len() && keys@[m] == before[i];
            assert(order@[m] == i as usize);
        }
        assert forall|k1: int, k2: int| 0 <= k1 <= k2 < n implies scores@[#[trigger] order@[k1] as int]
            >= scores@[#[trigger] order@[k2] as int] by {
            if k1 < k2 {
                assert(key_le(keys@[k1], keys@[k2]));
            }
        }
        assert forall|k1: int, k2: int| 0 <= k1 < k2 < n implies #[trigger] order@[k1] != #[trigger] order@[k2]
            && (scores@[order@[k1] as int] == scores@[order@[k2] as int] ==> order@[k1] < order@[k2]) by {
            assert(key_le(keys@[k1], keys@[k2]));
            assert(keys@[k1] != keys@[k2]);
        }
    }
    order
}


/// Appending a new element keeps a sequence free of duplicates.
pub proof fn lemma_push_distinct<A>(s: Seq<A>, x: A)
    requires
        s.no_duplicates(),
        forall|i: int| 0 <= i < s.len() ==> #[trigger] s[i] != x,
    ensures
        s.push(x).no_duplicates(),
{
    let t = s.push(x);
    assert forall|i: int, j: int| 0 <= i < t.len() && 0 <= j < t.len() && i != j implies t[i] != t[j] by {
        if i < s.len() && j < s.len() {
            assert(t[i] == s[i] && t[j] == s[j]);
        } else if i < s.len() {
            assert(t[i] == s[i]);
        } else {
            assert(t[j] == s[j]);
        }
    }
}

/// Reordering keeps a sequence free of duplicates.
pub proof fn lemma_keeps_distinct<A>(before: Seq<A>, after: Seq<A>)
    requires
        before.to_multiset() == after.to_multiset(),
        before.no_duplicates(),
    ensures
        after.no_duplicates(),
{
    before.lemma_multiset_has_no_duplicates();
    after.lemma_multiset_has_no_duplicates_conv();
}

/// Some key of `s` holds the index pair `(k1, k2)`.
pub open spec fn has_pair(s: Seq<Key>, k1: int, k2: int) -> bool {
    exists|m: int| 0 <= m < s.len() && s[m].1 as int == k1 && s[m].2 as int == k2
}

pub proof fn lemma_push_keeps(s: Seq<Key>, x: Key)
    ensures
        forall|k1: int, k2: int| #[trigger] has_pair(s, k1, k2) ==> has_pair(s.push(x), k1, k2),
        has_pair(s.push(x), x.1 as int, x.2 as int),
{
    assert forall|k1: int, k2: int| #[trigger] has_pair(s, k1, k2) implies has_pair(s.push(x), k1, k2) by {
        let m = choose|m: int| 0 <= m < s.len() && s[m].1 as int == k1 && s[m].2 as int == k2;
        assert(s.push(x)[m] == s[m]);
    }
    assert(s.push(x)[s.len() as int] == x);
}

/// Sorting keeps the keys: each sorted key was a key before, and every index
/// pair held before is held after.
pub proof fn lemma_sorted_has(before: Seq<Key>, after: Seq<Key>)
    requires
        before.to_multiset() == after.to_multiset(),
    ensures
        before.len() == after.len(),
        forall|j: int| 0 <= j < after.len() ==> #[trigger] before.contains(after[j]),
        forall|k1: int, k2: int| #[trigger] has_pair(before, k1, k2) ==> has_pair(after, k1, k2),
{
    lemma_same_members(before, after);
    assert forall|k1: int, k2: int| #[trigger] has_pair(before, k1, k2) implies has_pair(after, k1, k2) by {
        let m = choose|m: int| 0 <= m < before.len() && before[m].1 as int == k1 && before[m].2 as int == k2;
        assert(after.contains(before[m]));
        let j = choose|j: int| 0 <= j < after.len() && after[j] == before[m];
    }
}

} // verus!
