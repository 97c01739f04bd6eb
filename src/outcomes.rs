use vstd::prelude::*;
use crate::table::{AnswersTable, table_code, table_code_prefix, table_digit, table_shape};
use crate::word::{ALPHABET, WORD_LEN, count_of, is_word, lemma_count_le_len, lemma_counts_step, max_code};

verus! {

/// Number of distinct hints over five positions (3^5).
pub const BUCKETS_SIZE: usize = 243;

/// Largest number of distinct joint hints of two guesses (243 * 243).
pub const MAX_JOINT: usize = 59049;

/// Largest number of answers a histogram can count.
pub const MAX_ANSWERS: usize = 65535;

/// Position `i` holds the first occurrence of its value in `s`.
pub open spec fn first_at(s: Seq<usize>, i: int) -> bool {
    forall|j: int| 0 <= j < i ==> s[j] != s[i]
}

/// Number of distinct values among the first `n` of `s`.
pub open spec fn n_new(s: Seq<usize>, n: nat) -> nat
    decreases n,
{
    if n == 0 {
        0
    } else {
        n_new(s, (n - 1) as nat) + if first_at(s, n - 1) {
            1nat
        } else {
            0nat
        }
    }
}

/// `out` relabels `raw` densely in order of first appearance: equal values get
/// equal labels, a value seen first gets the next unused label, and `max`
/// labels are used in all.
pub open spec fn compressed_from(raw: Seq<usize>, out: Seq<usize>, max: nat) -> bool {
    &&& out.len() == raw.len()
    &&& max == n_new(raw, raw.len())
    &&& forall|i: int, j: int|
        0 <= i < raw.len() && 0 <= j < raw.len() ==> (#[trigger] out[i] == #[trigger] out[j]
            <==> raw[i] == raw[j])
    &&& forall|i: int| 0 <= i < raw.len() && first_at(raw, i) ==> #[trigger] out[i] == n_new(raw, i as nat)
    &&& forall|i: int| 0 <= i < raw.len() ==> #[trigger] out[i] < max
}

/// The dense relabelling of `raw` and its number of labels.
pub open spec fn canon(raw: Seq<usize>) -> (Seq<usize>, nat) {
    choose|p: (Seq<usize>, nat)| compressed_from(raw, p.0, p.1)
}

proof fn lemma_compressed_agree(raw: Seq<usize>, o1: Seq<usize>, m1: nat, o2: Seq<usize>, m2: nat, i: int)
    requires
        compressed_from(raw, o1, m1),
        compressed_from(raw, o2, m2),
        0 <= i < raw.len(),
    ensures
        o1[i] == o2[i],
    decreases i,
{
    if !first_at(raw, i) {
        let j = choose|j: int| 0 <= j < i && raw[j] == raw[i];
        lemma_compressed_agree(raw, o1, m1, o2, m2, j);
        assert(o1[i] == o1[j]);
        assert(o2[i] == o2[j]);
    }
}

/// The relabelling is a function of the raw codes: any relabelling that
/// meets `compressed_from` is `canon(raw)`.
pub proof fn lemma_canon(raw: Seq<usize>, out: Seq<usize>, m: nat)
    requires
        compressed_from(raw, out, m),
    ensures
        canon(raw) == (out, m),
{
    let w = (out, m);
    assert(compressed_from(raw, w.0, w.1));
    let p = canon(raw);
    assert(compressed_from(raw, p.0, p.1));
    assert forall|i: int| 0 <= i < raw.len() implies p.0[i] == out[i] by {
        lemma_compressed_agree(raw, p.0, p.1, out, m, i);
    }
    assert(p.0 =~= out);
}

pub open spec fn widen8(s: Seq<u8>) -> Seq<usize> {
    Seq::new(s.len(), |i: int| s[i] as usize)
}

pub open spec fn widen16(s: Seq<u16>) -> Seq<usize> {
    Seq::new(s.len(), |i: int| s[i] as usize)
}

/// Number of entries of `x` among the first `k` that differ from `s`.
spec fn filled(x: Seq<usize>, s: usize, k: nat) -> nat
    decreases k,
{
    if k == 0 {
        0
    } else {
        filled(x, s, (k - 1) as nat) + if x[k - 1] != s {
            1nat
        } else {
            0nat
        }
    }
}

proof fn lemma_filled_le(x: Seq<usize>, s: usize, k: nat)
    ensures
        filled(x, s, k) <= k,
    decreases k,
{
    if k > 0 {
        lemma_filled_le(x, s, (k - 1) as nat);
    }
}

proof fn lemma_filled_lt(x: Seq<usize>, s: usize, v: int, k: nat)
    requires
        0 <= v < k <= x.len(),
        x[v] == s,
    ensures
        filled(x, s, k) < k,
    decreases k,
{
    lemma_filled_le(x, s, (k - 1) as nat);
    if v < k - 1 {
        lemma_filled_lt(x, s, v, (k - 1) as nat);
    }
}

proof fn lemma_filled_none(x: Seq<usize>, s: usize, k: nat)
    requires
        k <= x.len(),
        forall|u: int| 0 <= u < x.len() ==> #[trigger] x[u] == s,
    ensures
        filled(x, s, k) == 0,
    decreases k,
{
    if k > 0 {
        lemma_filled_none(x, s, (k - 1) as nat);
    }
}

proof fn lemma_filled_update(x: Seq<usize>, s: usize, v: int, nv: usize, k: nat)
    requires
        0 <= v < x.len(),
        k <= x.len(),
        x[v] == s,
        nv != s,
    ensures
        filled(x.update(v, nv), s, k) == filled(x, s, k) + if v < k {
            1nat
        } else {
            0nat
        },
    decreases k,
{
    if k > 0 {
        lemma_filled_update(x, s, v, nv, (k - 1) as nat);
    }
}

/// Relabels `keys` (each below `bound`) densely in order of first appearance.
pub fn compress(keys: &Vec<usize>, bound: usize) -> (r: (Vec<usize>, usize))
    requires
        bound <= MAX_JOINT,
        forall|i: int| 0 <= i < keys@.len() ==> #[trigger] keys@[i] < bound,
    ensures
        compressed_from(keys@, r.0@, r.1 as nat),
        r.1 <= bound,
{
    let mut xlate: Vec<usize> = Vec::with_capacity(bound);
    let mut v: usize = 0;
    while v < bound
        invariant
            v <= bound,
            xlate@.len() == v,
            forall|u: int| 0 <= u < v ==> #[trigger] xlate@[u] == bound,
        decreases bound - v,
    {
        xlate.push(bound);
        v = v + 1;
    }
    proof {
        lemma_filled_none(xlate@, bound, bound as nat);
    }
    let n = keys.len();
    let mut out: Vec<usize> = Vec::with_capacity(n);
    let mut max: usize = 0;
    let mut i: usize = 0;
    while i < n
        invariant
            n == keys@.len(),
            bound <= MAX_JOINT,
            forall|j: int| 0 <= j < n ==> #[trigger] keys@[j] < bound,
            i <= n,
            xlate@.len() == bound,
            out@.len() == i,
            max == n_new(keys@, i as nat),
            max == filled(xlate@, bound, bound as nat),
            max <= bound,
            forall|j: int| 0 <= j < i ==> #[trigger] out@[j] == xlate@[keys@[j] as int],
            forall|j: int| 0 <= j < i ==> #[trigger] out@[j] < max,
            forall|j: int| 0 <= j < i && first_at(keys@, j) ==> #[trigger] out@[j] == n_new(keys@, j as nat),
            forall|u: int| 0 <= u < bound && #[trigger] xlate@[u] != bound ==> xlate@[u] < max,
            forall|u: int| 0 <= u < bound && #[trigger] xlate@[u] != bound ==> exists|j: int| 0 <= j < i && keys@[j] == u,
            forall|u1: int, u2: int|
                0 <= u1 < bound && 0 <= u2 < bound && u1 != u2 && #[trigger] xlate@[u1] != bound
                    ==> xlate@[u1] != #[trigger] xlate@[u2],
        decreases n - i,
    {
        let key = keys[i];
        let l = xlate[key];
        if l == bound {
            proof {
                assert(first_at(keys@, i as int)) by {
                    assert forall|j: int| 0 <= j < i implies keys@[j] != keys@[i as int] by {
                        if keys@[j] == keys@[i as int] {
                            assert(out@[j] == xlate@[key as int]);
                        }
                    }
                }
                lemma_filled_lt(xlate@, bound, key as int, bound as nat);
                lemma_filled_update(xlate@, bound, key as int, max, bound as nat);
                lemma_filled_le(xlate@.update(key as int, max), bound, bound as nat);
            }
            xlate.set(key, max);
            out.push(max);
            max = max + 1;
        } else {
            proof {
                let j = choose|j: int| 0 <= j < i && keys@[j] == key;
                assert(!first_at(keys@, i as int));
            }
            out.push(l);
        }
        i = i + 1;
    }
    proof {
        assert forall|a: int, b: int| 0 <= a < n && 0 <= b < n implies (#[trigger] out@[a]
            == #[trigger] out@[b] <==> keys@[a] == keys@[b]) by {
            assert(out@[a] == xlate@[keys@[a] as int]);
            assert(out@[b] == xlate@[keys@[b] as int]);
        }
    }
    (out, max)
}


/// How many entries of `keys` equal `k`.
pub open spec fn occurrences(keys: Seq<usize>, k: int) -> nat
    decreases keys.len(),
{
    if keys.len() == 0 {
        0
    } else {
        occurrences(keys.drop_last(), k) + if keys.last() == k {
            1nat
        } else {
            0nat
        }
    }
}

/// The number of entries of `keys` with each value below `size`.
pub open spec fn histogram(keys: Seq<usize>, size: nat) -> Seq<u16> {
    Seq::new(size, |k: int| occurrences(keys, k) as u16)
}

/// The joint key of each answer under two labellings, the second with
/// `m2` labels.
pub open spec fn pair_keys(a: Seq<usize>, b: Seq<usize>, m2: nat) -> Seq<usize> {
    Seq::new(a.len(), |i: int| (a[i] * m2 + b[i]) as usize)
}

pub proof fn lemma_occurrences_step(keys: Seq<usize>, i: int, k: int)
    requires
        0 <= i < keys.len(),
    ensures
        occurrences(keys.take(i + 1), k) == occurrences(keys.take(i), k) + if keys[i] == k {
            1nat
        } else {
            0nat
        },
{
    assert(keys.take(i + 1).drop_last() =~= keys.take(i));
}

pub proof fn lemma_occurrences_le(keys: Seq<usize>, k: int)
    ensures
        occurrences(keys, k) <= keys.len(),
    decreases keys.len(),
{
    if keys.len() > 0 {
        lemma_occurrences_le(keys.drop_last(), k);
    }
}

pub proof fn lemma_pair_key_bound(a: int, b: int, m1: int, m2: int)
    requires
        0 <= a < m1,
        0 <= b < m2,
    ensures
        0 <= a * m2 + b < m1 * m2,
{
    assert(a * m2 + b < m1 * m2) by (nonlinear_arith)
        requires
            0 <= a < m1,
            0 <= b < m2,
    ;
    assert(0 <= a * m2) by (nonlinear_arith)
        requires
            0 <= a,
            0 <= b < m2,
    ;
}

/// Fills `buckets` with the histogram of `keys` over `size` values.
fn tally_keys(keys: &Vec<usize>, size: usize, buckets: &mut Vec<u16>)
    requires
        keys@.len() <= MAX_ANSWERS,
        forall|i: int| 0 <= i < keys@.len() ==> #[trigger] keys@[i] < size,
    ensures
        final(buckets)@ == histogram(keys@, size as nat),
{
    buckets.clear();
    buckets.resize(size, 0);
    let n = keys.len();
    let mut i: usize = 0;
    while i < n
        invariant
            n == keys@.len() <= MAX_ANSWERS,
            forall|j: int| 0 <= j < n ==> #[trigger] keys@[j] < size,
            i <= n,
            buckets@.len() == size,
            forall|k: int| 0 <= k < size ==> #[trigger] buckets@[k] == occurrences(keys@.take(i as int), k),
        decreases n - i,
    {
        let key = keys[i];
        proof {
            assert forall|k: int| 0 <= k < size implies #[trigger] occurrences(keys@.take(i + 1), k)
                == occurrences(keys@.take(i as int), k) + if key == k {
                1nat
            } else {
                0nat
            } by {
                lemma_occurrences_step(keys@, i as int, k);
            }
            lemma_occurrences_le(keys@.take(i as int), key as int);
        }
        let b = buckets[key];
        buckets.set(key, b + 1);
        i = i + 1;
    }
    assert(keys@.take(n as int) =~= keys@);
    assert(buckets@ =~= histogram(keys@, size as nat));
}

/// The hint of one guess against each answer, as labels below `max`.
pub struct Outcomes {
    outcomes: Vec<u8>,
    max: u8,
}

impl Outcomes {
    /// The label of each answer.
    pub closed spec fn labels(&self) -> Seq<u8> {
        self.outcomes@
    }

    /// The number of labels available.
    pub closed spec fn bound(&self) -> nat {
        self.max as nat
    }

    pub open spec fn wf(&self) -> bool {
        &&& self.bound() <= BUCKETS_SIZE
        &&& forall|i: int| 0 <= i < self.labels().len() ==> #[trigger] self.labels()[i] < self.bound()
    }

    /// Relabels raw hint codes densely, in order of first appearance.
    pub fn new(outcomes: Vec<u8>) -> (r: Self)
        requires
            forall|i: int| 0 <= i < outcomes@.len() ==> #[trigger] outcomes@[i] < BUCKETS_SIZE,
        ensures
            r.wf(),
            compressed_from(widen8(outcomes@), widen8(r.labels()), r.bound()),
    {
        let n = outcomes.len();
        let mut keys: Vec<usize> = Vec::with_capacity(n);
        let mut i: usize = 0;
        while i < n
            invariant
                n == outcomes@.len(),
                i <= n,
                keys@ == widen8(outcomes@).take(i as int),
                forall|j: int| 0 <= j < n ==> #[trigger] outcomes@[j] < BUCKETS_SIZE,
            decreases n - i,
        {
            keys.push(outcomes[i] as usize);
            i = i + 1;
            assert(keys@ =~= widen8(outcomes@).take(i as int));
        }
        assert(keys@ =~= widen8(outcomes@));
        let (labels, max) = compress(&keys, BUCKETS_SIZE);
        let mut small: Vec<u8> = Vec::with_capacity(n);
        let mut i: usize = 0;
        while i < n
            invariant
                n == labels@.len(),
                i <= n,
                max <= BUCKETS_SIZE,
                forall|j: int| 0 <= j < n ==> #[trigger] labels@[j] < max,
                small@.len() == i,
                forall|j: int| 0 <= j < i ==> #[trigger] small@[j] == labels@[j],
            decreases n - i,
        {
            small.push(labels[i] as u8);
            i = i + 1;
        }
        assert(widen8(small@) =~= labels@);
        Outcomes { outcomes: small, max: max as u8 }
    }

    /// The raw hint codes of `guess` against the answers of the table, with
    /// all 243 labels available.
    pub fn new_uncompressed(guess: &Vec<u8>, answers_table: &AnswersTable) -> (r: Self)
        requires
            is_word(guess@),
            table_shape(*answers_table, answers_table@[0]@[0]@.len()),
        ensures
            r.wf(),
            r.bound() == BUCKETS_SIZE,
            r.labels().len() == answers_table@[0]@[0]@.len(),
            forall|i: int|
                0 <= i < r.labels().len() ==> #[trigger] r.labels()[i] == table_code(
                    *answers_table,
                    guess@,
                    i,
                ),
    {
        let outcomes = Self::uncompressed_outcomes(guess, answers_table);
        Outcomes { outcomes, max: BUCKETS_SIZE as u8 }
    }

    /// The hints of `guess` against the answers of the table, relabelled
    /// densely.
    pub fn from_answers_table(guess: &Vec<u8>, answers_table: &AnswersTable) -> (r: Self)
        requires
            is_word(guess@),
            table_shape(*answers_table, answers_table@[0]@[0]@.len()),
        ensures
            r.wf(),
            compressed_from(
                widen8(Seq::new(answers_table@[0]@[0]@.len(), |i: int| table_code(*answers_table, guess@, i) as u8)),
                widen8(r.labels()),
                r.bound(),
            ),
    {
        let raw = Self::uncompressed_outcomes(guess, answers_table);
        assert(raw@ =~= Seq::new(answers_table@[0]@[0]@.len(), |i: int| table_code(*answers_table, guess@, i) as u8));
        Self::new(raw)
    }

    /// The hint code of `guess` against each answer of the table.
    pub fn uncompressed_outcomes(guess: &Vec<u8>, answers_table: &AnswersTable) -> (r: Vec<u8>)
        requires
            is_word(guess@),
            table_shape(*answers_table, answers_table@[0]@[0]@.len()),
        ensures
            r@.len() == answers_table@[0]@[0]@.len(),
            forall|i: int| 0 <= i < r@.len() ==> #[trigger] r@[i] == table_code(*answers_table, guess@, i),
            forall|i: int| 0 <= i < r@.len() ==> #[trigger] r@[i] < BUCKETS_SIZE,
    {
        let ghost t = *answers_table;
        let ghost g = guess@;
        let n = answers_table[0][0].len();
        let mut outcomes: Vec<u8> = Vec::with_capacity(n);
        let mut i: usize = 0;
        while i < n
            invariant
                i <= n,
                outcomes@.len() == i,
                forall|j: int| 0 <= j < i ==> #[trigger] outcomes@[j] == 0,
            decreases n - i,
        {
            outcomes.push(0);
            i = i + 1;
        }
        let mut tally = Vec::with_capacity(ALPHABET);
        let mut c: usize = 0;
        while c < ALPHABET
            invariant
                c <= ALPHABET,
                tally@.len() == c,
                forall|j: int| 0 <= j < c ==> #[trigger] tally@[j] == 0i8,
            decreases ALPHABET - c,
        {
            tally.push(0i8);
            c = c + 1;
        }
        let mut p: usize = 0;
        while p < WORD_LEN
            invariant
                t == *answers_table,
                g == guess@,
                is_word(g),
                table_shape(t, n as nat),
                n == t@[0]@[0]@.len(),
                p <= WORD_LEN,
                outcomes@.len() == n,
                forall|j: int| 0 <= j < n ==> #[trigger] outcomes@[j] == table_code_prefix(t, g, j, p as nat),
                forall|j: int| 0 <= j < n ==> #[trigger] outcomes@[j] <= max_code(p as nat),
                tally@.len() == ALPHABET,
                forall|c: int|
                    0 <= c < ALPHABET ==> #[trigger] tally@[c] == count_of(g.take(p as int), (c + 97) as u8),
            decreases WORD_LEN - p,
        {
            let b = guess[p];
            let idx = (b - 97) as usize;
            proof {
                lemma_counts_step(g, p as int);
                lemma_count_le_len(g.take(p as int), b);
                reveal_with_fuel(max_code, 6);
            }
            let count = tally[idx] + 1;
            tally.set(idx, count);
            assert(max_code((p + 1) as nat) == max_code(p as nat) * 3 + 2);
            assert(max_code((p + 1) as nat) <= 242);
            let column = &answers_table[p][idx];
            assert(column@.len() == n);
            let mut i: usize = 0;
            while i < n
                invariant
                    t == *answers_table,
                    g == guess@,
                    is_word(g),
                    table_shape(t, n as nat),
                    p < WORD_LEN,
                    idx == g[p as int] - 97,
                    column == t@[p as int]@[idx as int],
                    column@.len() == n,
                    count == count_of(g.take(p + 1), g[p as int]),
                    i <= n,
                    outcomes@.len() == n,
                    forall|j: int| 0 <= j < i ==> #[trigger] outcomes@[j] == table_code_prefix(t, g, j, (p + 1) as nat),
                    forall|j: int| i <= j < n ==> #[trigger] outcomes@[j] == table_code_prefix(t, g, j, p as nat),
                    forall|j: int| 0 <= j < i ==> #[trigger] outcomes@[j] <= max_code((p + 1) as nat),
                    forall|j: int| i <= j < n ==> #[trigger] outcomes@[j] <= max_code(p as nat),
                    max_code((p + 1) as nat) == max_code(p as nat) * 3 + 2,
                    max_code((p + 1) as nat) <= 242,
                decreases n - i,
            {
                let v = column[i];
                let d: u8 = if v == -1 {
                    2
                } else if v >= count {
                    1
                } else {
                    0
                };
                assert(d == table_digit(t, g, i as int, p as int));
                let o = outcomes[i];
                outcomes.set(i, o * 3 + d);
                i = i + 1;
            }
            p = p + 1;
        }
        proof {
            reveal_with_fuel(max_code, 6);
        }
        outcomes
    }

    /// The number of answers that received each label.
    pub fn bucket(&self) -> (r: Vec<u16>)
        requires
            self.wf(),
            self.labels().len() <= MAX_ANSWERS,
        ensures
            r@ == histogram(widen8(self.labels()), BUCKETS_SIZE as nat),
    {
        let n = self.outcomes.len();
        let mut keys: Vec<usize> = Vec::with_capacity(n);
        let mut i: usize = 0;
        while i < n
            invariant
                n == self.labels().len(),
                i <= n,
                keys@ == widen8(self.labels()).take(i as int),
            decreases n - i,
        {
            keys.push(self.outcomes[i] as usize);
            i = i + 1;
            assert(keys@ =~= widen8(self.labels()).take(i as int));
        }
        assert(keys@ =~= widen8(self.labels()));
        let mut buckets: Vec<u16> = Vec::new();
        tally_keys(&keys, BUCKETS_SIZE, &mut buckets);
        buckets
    }

    /// The label of each answer.
    pub fn outcomes(&self) -> (r: &Vec<u8>)
        ensures
            r@ == self.labels(),
    {
        &self.outcomes
    }

    /// The number of labels available.
    pub fn max(&self) -> (r: u8)
        ensures
            r == self.bound(),
    {
        self.max
    }
}


/// The joint hints of two guesses against each answer, relabelled densely.
pub struct Outcomes2 {
    outcomes: Vec<u16>,
    max: u16,
}

impl Outcomes2 {
    /// The joint label of each answer.
    pub closed spec fn labels(&self) -> Seq<u16> {
        self.outcomes@
    }

    /// The number of joint labels used.
    pub closed spec fn bound(&self) -> nat {
        self.max as nat
    }

    pub open spec fn wf(&self) -> bool {
        &&& self.bound() <= MAX_JOINT
        &&& forall|i: int| 0 <= i < self.labels().len() ==> #[trigger] self.labels()[i] < self.bound()
    }

    /// Labels each answer by the pair of its labels under the two guesses,
    /// densely and in order of first appearance.
    pub fn new(outcomes1: &Outcomes, outcomes2: &Outcomes) -> (r: Self)
        requires
            outcomes1.wf(),
            outcomes2.wf(),
            outcomes1.labels().len() == outcomes2.labels().len(),
        ensures
            r.wf(),
            compressed_from(
                pair_keys(widen8(outcomes1.labels()), widen8(outcomes2.labels()), outcomes2.bound()),
                widen16(r.labels()),
                r.bound(),
            ),
    {
        let m1 = outcomes1.max as usize;
        let m2 = outcomes2.max as usize;
        let keys = joint_keys(&outcomes1.outcomes, m1, &outcomes2.outcomes, m2);
        proof {
            lemma_pair_key_bound(0, 0, 243, 243);
            assert(m1 * m2 <= MAX_JOINT) by (nonlinear_arith)
                requires
                    m1 <= 243,
                    m2 <= 243,
            ;
        }
        let (labels, max) = compress(&keys, m1 * m2);
        let n = labels.len();
        let mut small: Vec<u16> = Vec::with_capacity(n);
        let mut i: usize = 0;
        while i < n
            invariant
                n == labels@.len(),
                i <= n,
                max <= MAX_JOINT,
                forall|j: int| 0 <= j < n ==> #[trigger] labels@[j] < max,
                small@.len() == i,
                forall|j: int| 0 <= j < i ==> #[trigger] small@[j] == labels@[j],
            decreases n - i,
        {
            small.push(labels[i] as u16);
            i = i + 1;
        }
        assert(widen16(small@) =~= labels@);
        Outcomes2 { outcomes: small, max: max as u16 }
    }
}

/// The joint key `a * m2 + b` of each answer.
fn joint_keys(a: &Vec<u8>, m1: usize, b: &Vec<u8>, m2: usize) -> (r: Vec<usize>)
    requires
        a@.len() == b@.len(),
        m1 <= BUCKETS_SIZE,
        m2 <= BUCKETS_SIZE,
        forall|i: int| 0 <= i < a@.len() ==> #[trigger] a@[i] < m1,
        forall|i: int| 0 <= i < b@.len() ==> #[trigger] b@[i] < m2,
    ensures
        r@ == pair_keys(widen8(a@), widen8(b@), m2 as nat),
        forall|i: int| 0 <= i < r@.len() ==> #[trigger] r@[i] < m1 * m2,
{
    let n = a.len();
    let mut keys: Vec<usize> = Vec::with_capacity(n);
    let mut i: usize = 0;
    proof {
        assert(m1 * m2 <= MAX_JOINT) by (nonlinear_arith)
            requires
                m1 <= 243,
                m2 <= 243,
        ;
    }
    while i < n
        invariant
            m1 * m2 <= MAX_JOINT,
            n == a@.len() == b@.len(),
            m1 <= BUCKETS_SIZE,
            m2 <= BUCKETS_SIZE,
            forall|j: int| 0 <= j < n ==> #[trigger] a@[j] < m1,
            forall|j: int| 0 <= j < n ==> #[trigger] b@[j] < m2,
            i <= n,
            keys@ == pair_keys(widen8(a@), widen8(b@), m2 as nat).take(i as int),
            forall|j: int| 0 <= j < i ==> #[trigger] keys@[j] < m1 * m2,
        decreases n - i,
    {
        proof {
            lemma_pair_key_bound(a@[i as int] as int, b@[i as int] as int, m1 as int, m2 as int);
        }
        keys.push(a[i] as usize * m2 + b[i] as usize);
        i = i + 1;
        assert(keys@ =~= pair_keys(widen8(a@), widen8(b@), m2 as nat).take(i as int));
    }
    assert(keys@ =~= pair_keys(widen8(a@), widen8(b@), m2 as nat));
    keys
}

/// Fills `buckets` with the joint histogram of two guesses: the bucket
/// `a * max2 + b` counts the answers labelled `a` by the first and `b` by the
/// second.
pub fn bucket_two(outcomes1: &Outcomes, outcomes2: &Outcomes, buckets: &mut Vec<u16>)
    requires
        outcomes1.wf(),
        outcomes2.wf(),
        outcomes1.labels().len() == outcomes2.labels().len(),
        outcomes1.labels().len() <= MAX_ANSWERS,
    ensures
        final(buckets)@ == histogram(
            pair_keys(widen8(outcomes1.labels()), widen8(outcomes2.labels()), outcomes2.bound()),
            outcomes1.bound() * outcomes2.bound(),
        ),
{
    let m1 = outcomes1.max as usize;
    let m2 = outcomes2.max as usize;
    let keys = joint_keys(&outcomes1.outcomes, m1, &outcomes2.outcomes, m2);
    proof {
        assert(m1 * m2 <= MAX_JOINT) by (nonlinear_arith)
            requires
                m1 <= 243,
                m2 <= 243,
        ;
    }
    tally_keys(&keys, m1 * m2, buckets);
}

/// Fills `buckets` with the joint histogram of a pair of guesses, already
/// joined, and a third guess.
pub fn bucket_three(outcomes1_2: &Outcomes2, outcomes3: &Outcomes, buckets: &mut Vec<u16>)
    requires
        outcomes1_2.wf(),
        outcomes3.wf(),
        outcomes1_2.labels().len() == outcomes3.labels().len(),
        outcomes3.labels().len() <= MAX_ANSWERS,
        outcomes1_2.bound() * outcomes3.bound() <= usize::MAX,
    ensures
        final(buckets)@ == histogram(
            pair_keys(widen16(outcomes1_2.labels()), widen8(outcomes3.labels()), outcomes3.bound()),
            outcomes1_2.bound() * outcomes3.bound(),
        ),
{
    let m1 = outcomes1_2.max as usize;
    let m2 = outcomes3.max as usize;
    let n = outcomes3.outcomes.len();
    let ghost want = pair_keys(widen16(outcomes1_2.labels()), widen8(outcomes3.labels()), m2 as nat);
    let mut keys: Vec<usize> = Vec::with_capacity(n);
    let mut i: usize = 0;
    while i < n
        invariant
            n == outcomes1_2.labels().len() == outcomes3.labels().len(),
            outcomes1_2.wf(),
            outcomes3.wf(),
            m1 == outcomes1_2.bound(),
            m2 == outcomes3.bound(),
            m1 * m2 <= usize::MAX,
            want == pair_keys(widen16(outcomes1_2.labels()), widen8(outcomes3.labels()), m2 as nat),
            i <= n,
            keys@ == want.take(i as int),
            forall|j: int| 0 <= j < i ==> #[trigger] keys@[j] < m1 * m2,
        decreases n - i,
    {
        let a = outcomes1_2.outcomes[i] as usize;
        let b = outcomes3.outcomes[i] as usize;
        proof {
            lemma_pair_key_bound(a as int, b as int, m1 as int, m2 as int);
        }
        keys.push(a * m2 + b);
        i = i + 1;
        assert(keys@ =~= want.take(i as int));
    }
    assert(keys@ =~= want);
    tally_keys(&keys, m1 * m2, buckets);
}

} // verus!
