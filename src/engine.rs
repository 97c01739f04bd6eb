use vstd::prelude::*;
use crate::info::{
    INFO_FLOOR, MAX_LOG_ENTRY, coarsens, convex, entries_ok, lemma_refine_spread, lemma_spread_le_top, fast_info, fast_info_spec, info, info_spec, lemma_fast_info_close,
    lemma_histogram_total, total, within,
};
use crate::outcomes::{
    BUCKETS_SIZE, MAX_ANSWERS, MAX_JOINT, Outcomes, Outcomes2, bucket_three, bucket_two, canon, compressed_from, histogram,
    lemma_canon, lemma_pair_key_bound, pair_keys, widen8,
};
use crate::ranking::{
    Key, has_pair, keys_sorted, lemma_keeps_distinct, lemma_push_distinct, lemma_push_keeps, lemma_sorted_has, lists, rank, ranks, sort_keys,
};
use crate::table::{
    AnswersTable, all_wf, all_are_words, build_answers_table, lemma_table_code, letters_of, raw_outcomes,
    table_code, table_of,
};
use crate::word::{
    ALL_EXACT, AugmentedAnswer, WordError, greens_of, lemma_all_exact_only_self, lemma_true_answer_all_exact, hits_of, is_word, is_word_text, outcome_code, text_bytes,
    word_letters, yellows_of,
};

verus! {

/// The tables behind the information metric: `exact[n]` and `fast[n]` both
/// stand for `n * log2(n)` in a fixed unit, `fast` within `n * error` of
/// `exact`.
pub struct InfoTables {
    exact: Vec<i64>,
    fast: Vec<i64>,
    error: i64,
}

impl InfoTables {
    pub closed spec fn exact_view(&self) -> Seq<i64> {
        self.exact@
    }

    pub closed spec fn fast_view(&self) -> Seq<i64> {
        self.fast@
    }

    pub closed spec fn error_view(&self) -> int {
        self.error as int
    }

    /// Two tables of the same length, at most one entry per possible answer
    /// count, zero at counts 0 and 1, entries in range, `exact` convex (as
    /// `n * log2(n)` is), and `fast` within `n * error` of `exact`.
    pub open spec fn valid(exact: Seq<i64>, fast: Seq<i64>, error: int) -> bool {
        &&& exact.len() == fast.len()
        &&& forall|n: int| 0 <= n < exact.len() && n < 2 ==> #[trigger] exact[n] == 0 && fast[n] == 0
        &&& convex(exact)
        &&& exact.len() <= MAX_ANSWERS + 1
        &&& entries_ok(exact)
        &&& entries_ok(fast)
        &&& 0 <= error <= MAX_LOG_ENTRY
        &&& within(exact, fast, error)
    }

    pub open spec fn wf(&self) -> bool {
        Self::valid(self.exact_view(), self.fast_view(), self.error_view())
    }

    /// Checks the tables; `None` when they are not valid.
    pub fn new(exact: Vec<i64>, fast: Vec<i64>, error: i64) -> (r: Option<Self>)
        ensures
            r is Some <==> Self::valid(exact@, fast@, error as int),
            r matches Some(t) ==> t.exact_view() == exact@ && t.fast_view() == fast@
                && t.error_view() == error,
    {
        let n = exact.len();
        if n != fast.len() || n > MAX_ANSWERS + 1 || error < 0 || error > MAX_LOG_ENTRY {
            return None;
        }
        let mut k: usize = 0;
        while k < n
            invariant
                n == exact@.len() == fast@.len() <= MAX_ANSWERS + 1,
                0 <= error <= MAX_LOG_ENTRY,
                k <= n,
                forall|j: int| 0 <= j < k ==> 0 <= #[trigger] exact@[j] <= MAX_LOG_ENTRY,
                forall|j: int| 0 <= j < k ==> 0 <= #[trigger] fast@[j] <= MAX_LOG_ENTRY,
                forall|j: int| 0 <= j < k && j < 2 ==> #[trigger] exact@[j] == 0 && fast@[j] == 0,
                forall|j: int| 0 <= j && j + 2 < k ==> #[trigger] exact@[j + 2] - exact@[j + 1] >= exact@[j + 1] - exact@[j],
                forall|j: int|
                    0 <= j < k ==> #[trigger] (fast@[j] - exact@[j]) <= j * error && exact@[j]
                        - fast@[j] <= j * error,
            decreases n - k,
        {
            let e = exact[k];
            let f = fast[k];
            if e < 0 || e > MAX_LOG_ENTRY || f < 0 || f > MAX_LOG_ENTRY {
                return None;
            }
            if k < 2 && (e != 0 || f != 0) {
                return None;
            }
            if k >= 2 && e - exact[k - 1] < exact[k - 1] - exact[k - 2] {
                assert(exact@[(k - 2) + 2] - exact@[(k - 2) + 1] < exact@[(k - 2) + 1] - exact@[k - 2]);
                return None;
            }
            proof {
                assert(k * error <= (MAX_ANSWERS + 1) * MAX_LOG_ENTRY) by (nonlinear_arith)
                    requires
                        k <= MAX_ANSWERS + 1,
                        0 <= error <= MAX_LOG_ENTRY,
                ;
                assert(0 <= k * error) by (nonlinear_arith)
                    requires
                        0 <= error,
                ;
            }
            let allowed = k as i64 * error;
            if f - e > allowed || e - f > allowed {
                return None;
            }
            k = k + 1;
        }
        Some(InfoTables { exact, fast, error })
    }

    fn duplicate(&self) -> (r: Self)
        ensures
            r.exact_view() == self.exact_view(),
            r.fast_view() == self.fast_view(),
            r.error_view() == self.error_view(),
    {
        let exact = self.exact.clone();
        let fast = self.fast.clone();
        assert(exact@ =~= self.exact@);
        assert(fast@ =~= self.fast@);
        InfoTables { exact, fast, error: self.error }
    }
}

/// Why an engine could not be built.
#[derive(Debug, Clone, Copy, PartialEq, Eq, Structural)]
pub enum EngineError {
    /// A word or an answer is not five lowercase letters.
    Word(WordError),
    /// More answers than a histogram can count.
    TooManyAnswers,
    /// The information tables do not reach the number of answers.
    TableTooShort,
}

/// A word with an information score.
#[derive(Debug)]
pub struct AugmentedWord {
    pub word: String,
    pub info: i64,
}

/// A guessable word, its hints against the answers and its information.
struct Candidate {
    word: String,
    letters: Vec<u8>,
    info: i64,
    outcomes: Outcomes,
}

/// The hints of guess `g` against the answers `ans`, relabelled densely,
/// with their number of labels.
pub open spec fn labels_of(g: Seq<u8>, ans: Seq<Seq<u8>>) -> (Seq<usize>, nat) {
    canon(widen8(raw_outcomes(g, ans)))
}

/// The information of guess `g` against the answers `ans`, from table `t`.
#[verifier::opaque]
pub open spec fn word_info(t: Seq<i64>, g: Seq<u8>, ans: Seq<Seq<u8>>) -> int {
    info_spec(t, histogram(labels_of(g, ans).0, BUCKETS_SIZE as nat))
}

/// The joint histogram of two guesses against the answers `ans`.
pub open spec fn pair_hist(g1: Seq<u8>, g2: Seq<u8>, ans: Seq<Seq<u8>>) -> Seq<u16> {
    let a = labels_of(g1, ans);
    let b = labels_of(g2, ans);
    histogram(pair_keys(a.0, b.0, b.1), a.1 * b.1)
}

/// The joint information of two guesses against the answers `ans`.
#[verifier::opaque]
pub open spec fn pair_info(t: Seq<i64>, g1: Seq<u8>, g2: Seq<u8>, ans: Seq<Seq<u8>>) -> int {
    info_spec(t, pair_hist(g1, g2, ans))
}

/// The joint histogram of three guesses against the answers `ans`: the
/// first two joined and relabelled densely, then joined with the third.
pub open spec fn triple_hist(g1: Seq<u8>, g2: Seq<u8>, g3: Seq<u8>, ans: Seq<Seq<u8>>) -> Seq<u16> {
    let a = labels_of(g1, ans);
    let b = labels_of(g2, ans);
    let c = labels_of(g3, ans);
    let ab = canon(pair_keys(a.0, b.0, b.1));
    histogram(pair_keys(ab.0, c.0, c.1), ab.1 * c.1)
}

/// The joint information of three guesses against the answers `ans`.
#[verifier::opaque]
pub open spec fn triple_info(t: Seq<i64>, g1: Seq<u8>, g2: Seq<u8>, g3: Seq<u8>, ans: Seq<Seq<u8>>) -> int {
    info_spec(t, triple_hist(g1, g2, g3, ans))
}

proof fn lemma_pair_key_unique(a1: int, b1: int, a2: int, b2: int, m: int)
    requires
        0 <= a1,
        0 <= a2,
        0 <= b1 < m,
        0 <= b2 < m,
        a1 * m + b1 == a2 * m + b2,
    ensures
        a1 == a2,
        b1 == b2,
{
    if a1 < a2 {
        assert(a1 * m + m <= a2 * m) by (nonlinear_arith)
            requires
                a1 + 1 <= a2,
                0 <= m,
        ;
    }
    if a2 < a1 {
        assert(a2 * m + m <= a1 * m) by (nonlinear_arith)
            requires
                a2 + 1 <= a1,
                0 <= m,
        ;
    }
}

/// The joint key of two labellings decides each of them.
pub proof fn lemma_pair_keys_coarsen(a: Seq<usize>, b: Seq<usize>, ma: nat, mb: nat)
    requires
        a.len() == b.len(),
        forall|i: int| 0 <= i < a.len() ==> #[trigger] a[i] < ma,
        forall|i: int| 0 <= i < b.len() ==> #[trigger] b[i] < mb,
        ma * mb <= usize::MAX,
    ensures
        forall|i: int| 0 <= i < a.len() ==> #[trigger] pair_keys(a, b, mb)[i] < ma * mb,
        coarsens(pair_keys(a, b, mb), a),
        coarsens(pair_keys(a, b, mb), b),
{
    let p = pair_keys(a, b, mb);
    assert forall|i: int| 0 <= i < a.len() implies #[trigger] p[i] < ma * mb && p[i] == a[i] * mb + b[i] by {
        lemma_pair_key_bound(a[i] as int, b[i] as int, ma as int, mb as int);
    }
    assert forall|i: int, j: int|
        0 <= i < p.len() && 0 <= j < p.len() && #[trigger] p[i] == #[trigger] p[j] implies a[i] == a[j] && b[i] == b[j] by {
        assert(p[i] == a[i] * mb + b[i]);
        assert(p[j] == a[j] * mb + b[j]);
        lemma_pair_key_unique(a[i] as int, b[i] as int, a[j] as int, b[j] as int, mb as int);
    }
}

/// The joint information of two labellings is at least that of either one.
pub proof fn lemma_pair_refines(t: Seq<i64>, a: Seq<usize>, ma: nat, b: Seq<usize>, mb: nat, sa: nat, sb: nat)
    requires
        convex(t),
        t[0] == 0,
        a.len() == b.len(),
        a.len() < t.len(),
        a.len() <= 65535,
        forall|i: int| 0 <= i < a.len() ==> #[trigger] a[i] < ma,
        forall|i: int| 0 <= i < b.len() ==> #[trigger] b[i] < mb,
        ma <= sa,
        mb <= sb,
        ma * mb <= usize::MAX,
    ensures
        info_spec(t, histogram(pair_keys(a, b, mb), ma * mb)) >= info_spec(t, histogram(a, sa)),
        info_spec(t, histogram(pair_keys(a, b, mb), ma * mb)) >= info_spec(t, histogram(b, sb)),
{
    lemma_pair_keys_coarsen(a, b, ma, mb);
    lemma_refine_spread(t, pair_keys(a, b, mb), ma * mb, a, sa);
    lemma_refine_spread(t, pair_keys(a, b, mb), ma * mb, b, sb);
}

/// Joining a third labelling to the densely relabelled joint of two never
/// lowers the information of the two.
pub proof fn lemma_triple_refines(t: Seq<i64>, a: Seq<usize>, ma: nat, b: Seq<usize>, mb: nat, c: Seq<usize>, mc: nat)
    requires
        convex(t),
        t[0] == 0,
        a.len() == b.len() == c.len(),
        a.len() < t.len(),
        a.len() <= 65535,
        forall|i: int| 0 <= i < a.len() ==> #[trigger] a[i] < ma,
        forall|i: int| 0 <= i < b.len() ==> #[trigger] b[i] < mb,
        forall|i: int| 0 <= i < c.len() ==> #[trigger] c[i] < mc,
        ma <= 243,
        mb <= 243,
        mc <= 243,
        compressed_from(pair_keys(a, b, mb), canon(pair_keys(a, b, mb)).0, canon(pair_keys(a, b, mb)).1),
        canon(pair_keys(a, b, mb)).1 <= MAX_JOINT,
    ensures
        info_spec(
            t,
            histogram(
                pair_keys(canon(pair_keys(a, b, mb)).0, c, mc),
                canon(pair_keys(a, b, mb)).1 * mc,
            ),
        ) >= info_spec(t, histogram(pair_keys(a, b, mb), ma * mb)),
{
    let p = pair_keys(a, b, mb);
    let ab = canon(p);
    assert(ma * mb <= MAX_JOINT) by (nonlinear_arith)
        requires
            ma <= 243,
            mb <= 243,
    ;
    assert(ab.1 * mc <= MAX_JOINT * 243) by (nonlinear_arith)
        requires
            ab.1 <= MAX_JOINT,
            mc <= 243,
    ;
    lemma_pair_keys_coarsen(a, b, ma, mb);
    lemma_pair_keys_coarsen(ab.0, c, ab.1, mc);
    let f = pair_keys(ab.0, c, mc);
    assert(coarsens(f, p)) by {
        assert forall|i: int, j: int|
            0 <= i < f.len() && 0 <= j < f.len() && #[trigger] f[i] == #[trigger] f[j] implies p[i] == p[j] by {
            assert(ab.0[i] == ab.0[j]);
        }
    }
    lemma_refine_spread(t, f, ab.1 * mc, p, ma * mb);
}

/// What a scored word holds when the table is convex: its labels are in
/// range and its information is never negative.
proof fn candidate_facts(c: Candidate, ans: Seq<Seq<u8>>, t: Seq<i64>)
    requires
        candidate_ok(c, ans, t),
        convex(t),
        t.len() > ans.len(),
        t[0] == 0,
        ans.len() <= MAX_ANSWERS,
    ensures
        c.info >= 0,
        c.outcomes.bound() <= BUCKETS_SIZE,
        widen8(c.outcomes.labels()).len() == ans.len(),
        forall|i: int| 0 <= i < ans.len() ==> #[trigger] widen8(c.outcomes.labels())[i] < c.outcomes.bound(),
{
    let l = widen8(c.outcomes.labels());
    assert forall|i: int| 0 <= i < l.len() implies #[trigger] l[i] < BUCKETS_SIZE by {
        assert(c.outcomes.labels()[i] < c.outcomes.bound());
    }
    lemma_histogram_total(l, BUCKETS_SIZE as nat);
    lemma_spread_le_top(t, word_hist(c));
}

spec fn word_hist(c: Candidate) -> Seq<u16> {
    histogram(widen8(c.outcomes.labels()), BUCKETS_SIZE as nat)
}

/// `c` holds the compressed hints of its word against `ans`, and the
/// information of their histogram.
spec fn candidate_ok(c: Candidate, ans: Seq<Seq<u8>>, t: Seq<i64>) -> bool {
    &&& is_word(c.letters@)
    &&& is_word_text(c.word@)
    &&& c.letters@ == text_bytes(c.word@)
    &&& c.outcomes.wf()
    &&& c.outcomes.labels().len() == ans.len()
    &&& compressed_from(
        widen8(raw_outcomes(c.letters@, ans)),
        widen8(c.outcomes.labels()),
        c.outcomes.bound(),
    )
    &&& widen8(c.outcomes.labels()) == labels_of(c.letters@, ans).0
    &&& c.outcomes.bound() == labels_of(c.letters@, ans).1
    &&& c.info == info_spec(t, word_hist(c))
    &&& c.info == word_info(t, c.letters@, ans)
    &&& INFO_FLOOR <= c.info <= MAX_LOG_ENTRY
}

spec fn infos_of(w: Seq<Candidate>) -> Seq<i64> {
    w.map_values(|c: Candidate| c.info)
}

/// Scores a word against the answers of the table.
fn score(
    word: String,
    letters: Vec<u8>,
    answers_table: &AnswersTable,
    tables: &InfoTables,
    Ghost(ans): Ghost<Seq<Seq<u8>>>,
) -> (c: Candidate)
    requires
        is_word(letters@),
        is_word_text(word@),
        letters@ == text_bytes(word@),
        table_of(*answers_table, ans),
        all_are_words(ans),
        ans.len() <= MAX_ANSWERS,
        tables.wf(),
        tables.exact_view().len() > ans.len(),
    ensures
        candidate_ok(c, ans, tables.exact_view()),
        c.letters@ == letters@,
        c.word@ == word@,
{
    assert(answers_table@[0]@[0]@.len() == ans.len());
    let outcomes = Outcomes::from_answers_table(&letters, answers_table);
    proof {
        assert forall|i: int| 0 <= i < ans.len() implies table_code(*answers_table, letters@, i)
            == crate::word::outcome_code(letters@, #[trigger] ans[i]) by {
            lemma_table_code(*answers_table, ans, letters@, i);
        }
        assert(Seq::new(
            answers_table@[0]@[0]@.len(),
            |i: int| table_code(*answers_table, letters@, i) as u8,
        ) =~= raw_outcomes(letters@, ans));
        lemma_canon(widen8(raw_outcomes(letters@, ans)), widen8(outcomes.labels()), outcomes.bound());
        reveal(word_info);
        lemma_histogram_total(widen8(outcomes.labels()), BUCKETS_SIZE as nat);
    }
    let hist = outcomes.bucket();
    let info = info(&tables.exact, &hist);
    Candidate { word, letters, info, outcomes }
}

/// The information of the answer set: the answers, the table built from
/// them, and every guessable word ranked by the information of its hints.
pub struct WordleOpt {
    answers_table: AnswersTable,
    aug_answers: Vec<AugmentedAnswer>,
    all_words: Vec<Candidate>,
    order: Vec<usize>,
    tables: InfoTables,
}

impl WordleOpt {
    /// The letters of the answers.
    pub closed spec fn answers_view(&self) -> Seq<Seq<u8>> {
        letters_of(self.aug_answers@)
    }

    /// The texts of the guessable words, in the order they were given.
    pub closed spec fn vocab(&self) -> Seq<Seq<char>> {
        texts_in(self.all_words@)
    }

    /// The position in `vocab()` of the word ranked `k`-th.
    pub closed spec fn ranked_source(&self, k: int) -> int {
        self.order@[k] as int
    }

    /// The number of guessable words.
    pub closed spec fn n_words(&self) -> nat {
        self.all_words@.len()
    }

    /// The letters of the word ranked `k`-th.
    pub closed spec fn ranked_letters(&self, k: int) -> Seq<u8> {
        self.all_words@[self.order@[k] as int].letters@
    }

    /// The text of the word ranked `k`-th.
    pub closed spec fn ranked_text(&self, k: int) -> Seq<char> {
        self.all_words@[self.order@[k] as int].word@
    }

    /// The information of the word ranked `k`-th.
    pub closed spec fn ranked_info(&self, k: int) -> int {
        self.all_words@[self.order@[k] as int].info as int
    }

    /// The information of the joint hints of the words ranked `k1`-th and
    /// `k2`-th.
    pub open spec fn joint(&self, k1: int, k2: int) -> int {
        pair_info(self.tables_view().0, self.ranked_letters(k1), self.ranked_letters(k2), self.answers_view())
    }

    /// The tables the information is read from.
    pub closed spec fn tables_view(&self) -> (Seq<i64>, Seq<i64>, int) {
        (self.tables.exact_view(), self.tables.fast_view(), self.tables.error_view())
    }

    /// The answers are words, the table is theirs, every word is scored
    /// against them, and `order` ranks the words by information.
    pub closed spec fn wf(&self) -> bool {
        &&& all_wf(self.aug_answers@)
        &&& self.aug_answers@.len() <= MAX_ANSWERS
        &&& table_of(self.answers_table, self.answers_view())
        &&& self.tables.wf()
        &&& self.tables.exact_view().len() > self.aug_answers@.len()
        &&& forall|i: int|
            0 <= i < self.all_words@.len() ==> candidate_ok(
                #[trigger] self.all_words@[i],
                self.answers_view(),
                self.tables.exact_view(),
            )
        &&& ranks(self.order@, infos_of(self.all_words@))
    }

    /// Joint information never exceeds the sum of the two words' own
    /// information. Exact entropies have this property; values read from
    /// rounded tables need not, and nothing here establishes it: the
    /// searches promise completeness only where it holds.
    pub open spec fn subadditive(&self) -> bool {
        forall|k1: int, k2: int|
            0 <= k1 < k2 < self.n_words() ==> #[trigger] self.joint(k1, k2) <= self.ranked_info(k1)
                + self.ranked_info(k2)
    }

    /// Joint information is at least each word's own information. Every
    /// well-formed engine has this property, its table being convex
    /// (`lemma_refining`).
    pub open spec fn refining(&self) -> bool {
        forall|k1: int, k2: int|
            0 <= k1 < k2 < self.n_words() ==> #[trigger] self.joint(k1, k2) >= self.ranked_info(k1)
                && self.joint(k1, k2) >= self.ranked_info(k2)
    }
}


/// The answers for which guess `g` receives the hint `hint`.
pub open spec fn hint_pred(g: Seq<u8>, hint: u8) -> spec_fn(Seq<u8>) -> bool {
    |a: Seq<u8>| outcome_code(g, a) == hint
}

/// The answers that share `hits` letters with guess `g`.
pub open spec fn hits_pred(g: Seq<u8>, hits: usize) -> spec_fn(Seq<u8>) -> bool {
    |a: Seq<u8>| hits_of(g, a) == hits
}

/// The answers for which guess `g` has `yellow` letters present elsewhere and
/// `green` exact ones.
pub open spec fn counts_pred(g: Seq<u8>, yellow: u8, green: u8) -> spec_fn(Seq<u8>) -> bool {
    |a: Seq<u8>| greens_of(g, a) == green && yellows_of(g, a) == yellow
}

/// `p` and `q` name the same two words, in either order.
pub open spec fn same_pair(p: (String, String, i64), q: (String, String, i64)) -> bool {
    (p.0@ == q.0@ && p.1@ == q.1@) || (p.0@ == q.1@ && p.1@ == q.0@)
}

/// The text of each string.
pub open spec fn texts_of(s: Seq<&str>) -> Seq<Seq<char>> {
    Seq::new(s.len(), |i: int| s[i]@)
}

/// The words whose letters are not `g`.
pub open spec fn other_than(g: Seq<u8>) -> spec_fn(Seq<char>) -> bool {
    |w: Seq<char>| text_bytes(w) != g
}

/// The answers that share `hits` letters with `g`.
pub open spec fn cond_pred(g: Seq<u8>, hits: nat) -> spec_fn(Seq<u8>) -> bool {
    |a: Seq<u8>| hits_of(g, a) == hits
}

/// Whether two words have the same letters.
fn same_letters(a: &Vec<u8>, b: &Vec<u8>) -> (r: bool)
    ensures
        r == (a@ == b@),
{
    if a.len() != b.len() {
        return false;
    }
    let mut i: usize = 0;
    while i < a.len()
        invariant
            a@.len() == b@.len(),
            i <= a@.len(),
            forall|j: int| 0 <= j < i ==> a@[j] == b@[j],
        decreases a@.len() - i,
    {
        if a[i] != b[i] {
            return false;
        }
        i = i + 1;
    }
    assert(a@ =~= b@);
    true
}

/// The letters of each text.
pub open spec fn texts_bytes(texts: Seq<&str>) -> Seq<Seq<u8>> {
    Seq::new(texts.len(), |i: int| text_bytes(texts[i]@))
}

pub open spec fn all_texts_ok(texts: Seq<&str>) -> bool {
    forall|i: int| 0 <= i < texts.len() ==> is_word_text(#[trigger] texts[i]@)
}

/// Scores each text as a word and appends it to `cands`.
fn score_all(
    texts: &[&str],
    answers_table: &AnswersTable,
    tables: &InfoTables,
    cands: &mut Vec<Candidate>,
    Ghost(ans): Ghost<Seq<Seq<u8>>>,
) -> (r: Result<(), WordError>)
    requires
        table_of(*answers_table, ans),
        all_are_words(ans),
        ans.len() <= MAX_ANSWERS,
        tables.wf(),
        tables.exact_view().len() > ans.len(),
        forall|i: int| 0 <= i < old(cands)@.len() ==> candidate_ok(#[trigger] old(cands)@[i], ans, tables.exact_view()),
    ensures
        r is Ok <==> all_texts_ok(texts@),
        forall|i: int| 0 <= i < final(cands)@.len() ==> candidate_ok(#[trigger] final(cands)@[i], ans, tables.exact_view()),
        r is Ok ==> final(cands)@.len() == old(cands)@.len() + texts@.len(),
        r is Ok ==> forall|i: int| 0 <= i < texts@.len() ==> #[trigger] final(cands)@[old(cands)@.len() + i].word@ == texts@[i]@,
        forall|i: int| 0 <= i < old(cands)@.len() ==> #[trigger] final(cands)@[i] == old(cands)@[i],
{
    let ghost start = cands@.len();
    let mut i: usize = 0;
    while i < texts.len()
        invariant
            table_of(*answers_table, ans),
            all_are_words(ans),
            ans.len() <= MAX_ANSWERS,
            tables.wf(),
            tables.exact_view().len() > ans.len(),
            start == old(cands)@.len(),
            i <= texts@.len(),
            cands@.len() == start + i,
            forall|j: int| 0 <= j < cands@.len() ==> candidate_ok(#[trigger] cands@[j], ans, tables.exact_view()),
            forall|j: int| 0 <= j < start ==> #[trigger] cands@[j] == old(cands)@[j],
            forall|j: int| 0 <= j < i ==> is_word_text(#[trigger] texts@[j]@),
            forall|j: int| 0 <= j < i ==> #[trigger] cands@[start + j].word@ == texts@[j]@,
        decreases texts@.len() - i,
    {
        let text = texts[i];
        let letters = match word_letters(text) {
            Ok(v) => v,
            Err(e) => return Err(e),
        };
        let c = score(text.to_owned(), letters, answers_table, tables, Ghost(ans));
        cands.push(c);
        i = i + 1;
    }
    Ok(())
}

/// Keeps the answers whose mask entry is set.
fn keep_answers(answers: &Vec<AugmentedAnswer>, keep: &Vec<bool>, Ghost(pred): Ghost<spec_fn(Seq<u8>) -> bool>) -> (r: Vec<AugmentedAnswer>)
    requires
        all_wf(answers@),
        keep@.len() == answers@.len(),
        forall|i: int| 0 <= i < keep@.len() ==> #[trigger] keep@[i] == pred(answers@[i]@),
    ensures
        all_wf(r@),
        letters_of(r@) == letters_of(answers@).filter(pred),
{
    let mut r: Vec<AugmentedAnswer> = Vec::new();
    let mut i: usize = 0;
    while i < answers.len()
        invariant
            all_wf(answers@),
            keep@.len() == answers@.len(),
            forall|j: int| 0 <= j < keep@.len() ==> #[trigger] keep@[j] == pred(answers@[j]@),
            i <= answers@.len(),
            all_wf(r@),
            letters_of(r@) == letters_of(answers@.take(i as int)).filter(pred),
        decreases answers@.len() - i,
    {
        proof {
            assert(letters_of(answers@.take(i + 1)) =~= letters_of(answers@.take(i as int)).push(answers@[i as int]@));
            letters_of(answers@.take(i as int)).lemma_filter_push(answers@[i as int]@, pred);
        }
        if keep[i] {
            let a = answers[i].duplicate();
            assert(a.wf());
            r.push(a);
            assert(letters_of(r@) =~= letters_of(answers@.take(i as int)).filter(pred).push(answers@[i as int]@));
        }
        i = i + 1;
    }
    assert(answers@.take(answers@.len() as int) =~= answers@);
    r
}

impl WordleOpt {
    /// Builds the engine for the guessable `words` and the `answers`; the
    /// answers are guessable too.
    pub fn new(words: &[&str], answers: &[&str], tables: InfoTables) -> (r: Result<Self, EngineError>)
        requires
            tables.wf(),
        ensures
            r is Ok <==> (all_texts_ok(words@) && all_texts_ok(answers@) && answers@.len()
                <= MAX_ANSWERS && tables.exact_view().len() > answers@.len()),
            r matches Err(EngineError::Word(_)) ==> !(all_texts_ok(words@) && all_texts_ok(answers@)),
            r matches Err(EngineError::TooManyAnswers) ==> answers@.len() > MAX_ANSWERS,
            r matches Err(EngineError::TableTooShort) ==> tables.exact_view().len() <= answers@.len(),
            r matches Ok(e) ==> {
                &&& e.wf()
                &&& e.answers_view() == texts_bytes(answers@)
                &&& e.n_words() == words@.len() + answers@.len()
                &&& e.vocab() == texts_of(words@) + texts_of(answers@)
                &&& e.tables_view() == (tables.exact_view(), tables.fast_view(), tables.error_view())
            },
    {
        let mut aug_answers: Vec<AugmentedAnswer> = Vec::new();
        let mut i: usize = 0;
        while i < answers.len()
            invariant
                i <= answers@.len(),
                aug_answers@.len() == i,
                all_wf(aug_answers@),
                forall|j: int| 0 <= j < i ==> is_word_text(#[trigger] answers@[j]@),
                forall|j: int| 0 <= j < i ==> #[trigger] aug_answers@[j]@ == text_bytes(answers@[j]@),
            decreases answers@.len() - i,
        {
            match AugmentedAnswer::new(answers[i]) {
                Ok(a) => aug_answers.push(a),
                Err(e) => return Err(EngineError::Word(e)),
            }
            i = i + 1;
        }
        let ghost ans = letters_of(aug_answers@);
        assert(ans =~= texts_bytes(answers@));
        if answers.len() > MAX_ANSWERS {
            return Err(EngineError::TooManyAnswers);
        }
        if tables.exact.len() <= answers.len() {
            return Err(EngineError::TableTooShort);
        }
        let answers_table = build_answers_table(aug_answers.as_slice());
        let mut all_words: Vec<Candidate> = Vec::new();
        match score_all(words, &answers_table, &tables, &mut all_words, Ghost(ans)) {
            Ok(()) => {},
            Err(e) => return Err(EngineError::Word(e)),
        }
        let ghost n_first = all_words@.len();
        let ghost first = all_words@;
        match score_all(answers, &answers_table, &tables, &mut all_words, Ghost(ans)) {
            Ok(()) => {},
            Err(e) => return Err(EngineError::Word(e)),
        }
        let total_words = all_words.len();
        let order = rank_candidates(&all_words);
        let e = WordleOpt { answers_table, aug_answers, all_words, order, tables };
        proof {
            assert forall|i: int| 0 <= i < words@.len() implies #[trigger] e.all_words@[i].word@ == words@[i]@ by {
                assert(first[0 + i].word@ == words@[i]@);
                assert(e.all_words@[i] == first[i]);
            }
            assert forall|i: int| 0 <= i < answers@.len() implies #[trigger] e.all_words@[n_first + i].word@ == answers@[i]@ by {
            }
            assert(n_first == words@.len());
            let want = texts_of(words@) + texts_of(answers@);
            assert(e.vocab().len() == want.len());
            assert forall|j: int| 0 <= j < want.len() implies e.vocab()[j] == want[j] by {
                if j < n_first {
                    assert(e.all_words@[j].word@ == words@[j]@);
                } else {
                    assert(e.all_words@[n_first + (j - n_first)].word@ == answers@[j - n_first]@);
                }
            }
            assert(e.vocab() =~= want);
        }
        Ok(e)
    }

    /// The answers still possible.
    pub fn answers(&self) -> (r: &Vec<AugmentedAnswer>)
        requires
            self.wf(),
        ensures
            letters_of(r@) == self.answers_view(),
            all_wf(r@),
    {
        &self.aug_answers
    }

    /// The table of the answers.
    pub fn answers_table(&self) -> (r: &AnswersTable)
        requires
            self.wf(),
        ensures
            table_of(*r, self.answers_view()),
    {
        &self.answers_table
    }

    /// All guessable words with their information, from the most informative
    /// to the least; each word once, equal information in the order the
    /// words were given.
    pub fn all_words(&self) -> (r: Vec<AugmentedWord>)
        requires
            self.wf(),
        ensures
            r@.len() == self.n_words(),
            forall|k: int| 0 <= k < r@.len() ==> (#[trigger] r@[k]).word@ == self.ranked_text(k)
                && r@[k].info == self.ranked_info(k),
            forall|k: int| 0 <= k < r@.len() ==> text_bytes((#[trigger] r@[k]).word@) == self.ranked_letters(k)
                && r@[k].info == word_info(self.tables_view().0, self.ranked_letters(k), self.answers_view()),
            forall|k1: int, k2: int| 0 <= k1 <= k2 < r@.len() ==> (#[trigger] r@[k1]).info >= (#[trigger] r@[k2]).info,
            forall|k: int| 0 <= k < r@.len() ==> 0 <= #[trigger] self.ranked_source(k) < self.vocab().len()
                && r@[k].word@ == self.vocab()[self.ranked_source(k)],
            forall|k1: int, k2: int| 0 <= k1 < k2 < r@.len() ==> #[trigger] self.ranked_source(k1)
                != #[trigger] self.ranked_source(k2),
            forall|k1: int, k2: int| 0 <= k1 < k2 < r@.len() && (#[trigger] r@[k1]).info == (#[trigger] r@[k2]).info
                ==> self.ranked_source(k1) < self.ranked_source(k2),
    {
        proof {
            self.lemma_ranked();
        }
        let mut r: Vec<AugmentedWord> = Vec::new();
        let mut k: usize = 0;
        while k < self.order.len()
            invariant
                self.wf(),
                k <= self.order@.len(),
                r@.len() == k,
                forall|j: int| 0 <= j < k ==> (#[trigger] r@[j]).word@ == self.ranked_text(j)
                    && r@[j].info == self.ranked_info(j),
            decreases self.order@.len() - k,
        {
            let c = &self.all_words[self.order[k]];
            r.push(AugmentedWord { word: c.word.clone(), info: c.info });
            k = k + 1;
        }
        proof {
            assert forall|k1: int, k2: int| 0 <= k1 <= k2 < r@.len() implies (#[trigger] r@[k1]).info
                >= (#[trigger] r@[k2]).info by {
                assert(infos_of(self.all_words@)[self.order@[k1] as int] >= infos_of(self.all_words@)[self.order@[k2] as int]);
            }
        }
        r
    }

    /// The engine for the answers that `keep` marks, with `guess` no longer
    /// among the guessable words.
    fn pruned_generic(&self, guess: &Vec<u8>, keep: &Vec<bool>, Ghost(pred): Ghost<spec_fn(Seq<u8>) -> bool>) -> (r: Self)
        requires
            self.wf(),
            is_word(guess@),
            keep@.len() == self.answers_view().len(),
            forall|i: int| 0 <= i < keep@.len() ==> #[trigger] keep@[i] == pred(self.answers_view()[i]),
        ensures
            r.wf(),
            r.answers_view() == self.answers_view().filter(pred),
            r.tables_view() == self.tables_view(),
            r.vocab() == self.vocab().filter(other_than(guess@)),
    {
        proof {
            assert forall|i: int| 0 <= i < keep@.len() implies #[trigger] keep@[i] == pred(self.aug_answers@[i]@) by {
                assert(self.answers_view()[i] == self.aug_answers@[i]@);
            }
        }
        let aug_answers = keep_answers(&self.aug_answers, keep, Ghost(pred));
        let ghost ans = letters_of(aug_answers@);
        proof {
            broadcast use vstd::seq_lib::group_filter_ensures;

            assert(all_are_words(ans)) by {
                assert forall|i: int| 0 <= i < ans.len() implies is_word(#[trigger] ans[i]) by {
                    assert(aug_answers@[i].wf());
                }
            }
        }
        let answers_table = build_answers_table(aug_answers.as_slice());
        let tables = self.tables.duplicate();
        let all_words = rescore(&self.all_words, guess, &answers_table, &tables, Ghost(self.answers_view()), Ghost(ans));
        let order = rank_candidates(&all_words);
        let r = WordleOpt { answers_table, aug_answers, all_words, order, tables };
        r
    }

    /// The engine for the answers that share exactly `hits` letters with
    /// `guess`, repeats counted up to their number in the answer; `guess` is
    /// no longer guessable.
    pub fn pruned(&self, guess: &str, hits: usize) -> (r: Result<Self, WordError>)
        requires
            self.wf(),
        ensures
            r is Ok <==> is_word_text(guess@),
            r matches Ok(e) ==> e.wf() && e.answers_view() == self.answers_view().filter(
                hits_pred(text_bytes(guess@), hits),
            ) && e.tables_view() == self.tables_view() && e.vocab() == self.vocab().filter(other_than(text_bytes(guess@))),
    {
        let g = match word_letters(guess) {
            Ok(v) => v,
            Err(e) => return Err(e),
        };
        let mut keep: Vec<bool> = Vec::new();
        let mut i: usize = 0;
        while i < self.aug_answers.len()
            invariant
                self.wf(),
                is_word(g@),
                i <= self.aug_answers@.len(),
                keep@.len() == i,
                forall|j: int| 0 <= j < i ==> #[trigger] keep@[j] == hits_pred(g@, hits)(self.answers_view()[j]),
            decreases self.aug_answers@.len() - i,
        {
            assert(self.aug_answers@[i as int].wf());
            keep.push(self.aug_answers[i].hits(&g) == hits);
            i = i + 1;
        }
        Ok(self.pruned_generic(&g, &keep, Ghost(hits_pred(g@, hits))))
    }

    /// The engine for the answers against which `guess` receives the hint
    /// `hint`; `guess` is no longer guessable.
    pub fn pruned_exact(&self, guess: &str, hint: u8) -> (r: Result<Self, WordError>)
        requires
            self.wf(),
        ensures
            r is Ok <==> is_word_text(guess@),
            r matches Ok(e) ==> e.wf() && e.answers_view() == self.answers_view().filter(
                hint_pred(text_bytes(guess@), hint),
            ) && e.tables_view() == self.tables_view() && e.vocab() == self.vocab().filter(other_than(text_bytes(guess@))),
    {
        let g = match word_letters(guess) {
            Ok(v) => v,
            Err(e) => return Err(e),
        };
        let mut keep: Vec<bool> = Vec::new();
        let mut i: usize = 0;
        while i < self.aug_answers.len()
            invariant
                self.wf(),
                is_word(g@),
                i <= self.aug_answers@.len(),
                keep@.len() == i,
                forall|j: int| 0 <= j < i ==> #[trigger] keep@[j] == hint_pred(g@, hint)(self.answers_view()[j]),
            decreases self.aug_answers@.len() - i,
        {
            assert(self.aug_answers@[i as int].wf());
            keep.push(self.aug_answers[i].outcome(&g) == hint);
            i = i + 1;
        }
        Ok(self.pruned_generic(&g, &keep, Ghost(hint_pred(g@, hint))))
    }

    /// The engine for the answers against which `guess` has `yellow` letters
    /// present elsewhere and `green` exact ones; `guess` is no longer
    /// guessable.
    pub fn pruned_2(&self, guess: &str, yellow: u8, green: u8) -> (r: Result<Self, WordError>)
        requires
            self.wf(),
        ensures
            r is Ok <==> is_word_text(guess@),
            r matches Ok(e) ==> e.wf() && e.answers_view() == self.answers_view().filter(
                counts_pred(text_bytes(guess@), yellow, green),
            ) && e.tables_view() == self.tables_view() && e.vocab() == self.vocab().filter(other_than(text_bytes(guess@))),
    {
        let g = match word_letters(guess) {
            Ok(v) => v,
            Err(e) => return Err(e),
        };
        let mut keep: Vec<bool> = Vec::new();
        let mut i: usize = 0;
        while i < self.aug_answers.len()
            invariant
                self.wf(),
                is_word(g@),
                i <= self.aug_answers@.len(),
                keep@.len() == i,
                forall|j: int| 0 <= j < i ==> #[trigger] keep@[j] == counts_pred(g@, yellow, green)(self.answers_view()[j]),
            decreases self.aug_answers@.len() - i,
        {
            assert(self.aug_answers@[i as int].wf());
            let a = &self.aug_answers[i];
            keep.push(a.greens(&g) == green && a.yellows(&g) == yellow);
            i = i + 1;
        }
        Ok(self.pruned_generic(&g, &keep, Ghost(counts_pred(g@, yellow, green))))
    }

    /// The slack between fast and exact information: the number of answers
    /// times the table error.
    pub closed spec fn slack(&self) -> int {
        self.aug_answers@.len() * self.tables.error_view()
    }

    /// `p` names the words ranked `k1`-th and `k2`-th and their joint
    /// information.
    pub open spec fn names(&self, p: (String, String, i64), k1: int, k2: int) -> bool {
        &&& p.0@ == self.ranked_text(k1)
        &&& p.1@ == self.ranked_text(k2)
        &&& p.2 == self.joint(k1, k2)
    }

    /// `p` names two distinct words, the first ranked before the second, and
    /// their joint information.
    pub open spec fn is_pair(&self, p: (String, String, i64)) -> bool {
        exists|k1: int, k2: int| 0 <= k1 < k2 < self.n_words() && #[trigger] self.names(p, k1, k2)
    }

    /// What a well-formed engine holds of its ranking: information never
    /// rises down the ranks, lies in the tables' range, is the information
    /// of each word's hints, and each word's letters are its text.
    pub proof fn lemma_ranked(&self)
        requires
            self.wf(),
        ensures
            self.vocab().len() == self.n_words(),
            forall|k: int| 0 <= k < self.n_words() ==> 0 <= #[trigger] self.ranked_source(k) < self.n_words()
                && self.ranked_text(k) == self.vocab()[self.ranked_source(k)],
            forall|k1: int, k2: int| 0 <= k1 < k2 < self.n_words() ==> #[trigger] self.ranked_source(k1)
                != #[trigger] self.ranked_source(k2),
            forall|k1: int, k2: int| 0 <= k1 < k2 < self.n_words() && #[trigger] self.ranked_info(k1)
                == #[trigger] self.ranked_info(k2) ==> self.ranked_source(k1) < self.ranked_source(k2),
            forall|k: int| 0 <= k < self.n_words() ==> text_bytes(#[trigger] self.ranked_text(k)) == self.ranked_letters(k)
                && is_word(self.ranked_letters(k)),
            forall|k1: int, k2: int|
                0 <= k1 <= k2 < self.n_words() ==> #[trigger] self.ranked_info(k1) >= #[trigger] self.ranked_info(k2),
            forall|k: int|
                0 <= k < self.n_words() ==> INFO_FLOOR <= #[trigger] self.ranked_info(k) <= MAX_LOG_ENTRY,
            forall|k: int|
                0 <= k < self.n_words() ==> #[trigger] self.ranked_info(k) == word_info(self.tables_view().0, self.ranked_letters(k), self.answers_view()),
            forall|k: int| 0 <= k < self.n_words() ==> 0 <= #[trigger] self.ranked_info(k),
    {
        assert forall|k: int| 0 <= k < self.n_words() implies 0 <= #[trigger] self.ranked_info(k) by {
            let c = self.all_words@[self.order@[k] as int];
            assert(candidate_ok(c, self.answers_view(), self.tables.exact_view()));
            candidate_facts(c, self.answers_view(), self.tables.exact_view());
        }
        assert forall|k1: int, k2: int| 0 <= k1 < k2 < self.n_words() && #[trigger] self.ranked_info(k1)
            == #[trigger] self.ranked_info(k2) implies self.ranked_source(k1) < self.ranked_source(k2) by {
            assert(infos_of(self.all_words@)[self.order@[k1] as int] == infos_of(self.all_words@)[self.order@[k2] as int]);
        }
        assert forall|k1: int, k2: int|
            0 <= k1 <= k2 < self.n_words() implies #[trigger] self.ranked_info(k1) >= #[trigger] self.ranked_info(k2) by {
            assert(infos_of(self.all_words@)[self.order@[k1] as int] >= infos_of(self.all_words@)[self.order@[k2] as int]);
        }
        assert forall|k: int| 0 <= k < self.n_words() implies INFO_FLOOR <= #[trigger] self.ranked_info(k) <= MAX_LOG_ENTRY
            && self.ranked_info(k) == word_info(self.tables_view().0, self.ranked_letters(k), self.answers_view()) by {
            assert(candidate_ok(self.all_words@[self.order@[k] as int], self.answers_view(), self.tables.exact_view()));
        }
        assert forall|k: int| 0 <= k < self.n_words() implies text_bytes(#[trigger] self.ranked_text(k)) == self.ranked_letters(k)
            && is_word(self.ranked_letters(k)) by {
            assert(candidate_ok(self.all_words@[self.order@[k] as int], self.answers_view(), self.tables.exact_view()));
        }
    }

    /// Joint information is at least each word's own: for a convex table,
    /// splitting the answers more finely never lowers information.
    pub proof fn lemma_refining(&self)
        requires
            self.wf(),
        ensures
            self.refining(),
    {
        let t = self.tables.exact_view();
        let ans = self.answers_view();
        assert forall|k1: int, k2: int| 0 <= k1 < k2 < self.n_words() implies #[trigger] self.joint(k1, k2)
            >= self.ranked_info(k1) && self.joint(k1, k2) >= self.ranked_info(k2) by {
            let c1 = self.all_words@[self.order@[k1] as int];
            let c2 = self.all_words@[self.order@[k2] as int];
            assert(candidate_ok(c1, ans, t));
            assert(candidate_ok(c2, ans, t));
            candidate_facts(c1, ans, t);
            candidate_facts(c2, ans, t);
            let a = widen8(c1.outcomes.labels());
            let b = widen8(c2.outcomes.labels());
            let ma = c1.outcomes.bound();
            let mb = c2.outcomes.bound();
            assert(ma * mb <= MAX_JOINT) by (nonlinear_arith)
                requires
                    ma <= 243,
                    mb <= 243,
            ;
            lemma_pair_refines(t, a, ma, b, mb, BUCKETS_SIZE as nat, BUCKETS_SIZE as nat);
            reveal(pair_info);
        }
    }

    fn info_at(&self, k: usize) -> (r: i64)
        requires
            self.wf(),
            k < self.n_words(),
        ensures
            r == self.ranked_info(k as int),
    {
        self.all_words[self.order[k]].info
    }

    fn text_at(&self, k: usize) -> (r: String)
        requires
            self.wf(),
            k < self.n_words(),
        ensures
            r@ == self.ranked_text(k as int),
    {
        self.all_words[self.order[k]].word.clone()
    }

    fn slack_exec(&self) -> (r: i64)
        requires
            self.wf(),
        ensures
            r == self.slack(),
            0 <= r <= MAX_ANSWERS * MAX_LOG_ENTRY,
    {
        let n = self.aug_answers.len();
        proof {
            assert(n * self.tables.error <= MAX_ANSWERS * MAX_LOG_ENTRY) by (nonlinear_arith)
                requires
                    n <= MAX_ANSWERS,
                    0 <= self.tables.error <= MAX_LOG_ENTRY,
            ;
            assert(0 <= n * self.tables.error) by (nonlinear_arith)
                requires
                    0 <= self.tables.error,
            ;
        }
        n as i64 * self.tables.error
    }

    /// Fills `buckets` with the joint histogram of the words ranked `k1`-th
    /// and `k2`-th, and returns its fast information.
    fn fast_joint(&self, k1: usize, k2: usize, buckets: &mut Vec<u16>) -> (r: i64)
        requires
            self.wf(),
            k1 < self.n_words(),
            k2 < self.n_words(),
        ensures
            final(buckets)@ == pair_hist(self.ranked_letters(k1 as int), self.ranked_letters(k2 as int), self.answers_view()),
            info_spec(self.tables_view().0, final(buckets)@) == self.joint(k1 as int, k2 as int),
            final(buckets)@.len() <= MAX_JOINT,
            total(final(buckets)@) == self.answers_view().len(),
            r - self.joint(k1 as int, k2 as int) <= self.slack(),
            self.joint(k1 as int, k2 as int) - r <= self.slack(),
            INFO_FLOOR <= r <= MAX_LOG_ENTRY,
    {
        let a = &self.all_words[self.order[k1]];
        let b = &self.all_words[self.order[k2]];
        assert(candidate_ok(*a, self.answers_view(), self.tables.exact_view()));
        assert(candidate_ok(*b, self.answers_view(), self.tables.exact_view()));
        bucket_two(&a.outcomes, &b.outcomes, buckets);
        proof {
            let ka = widen8(a.outcomes.labels());
            let kb = widen8(b.outcomes.labels());
            let ma = a.outcomes.bound();
            let mb = b.outcomes.bound();
            let keys = pair_keys(ka, kb, mb);
            assert forall|i: int| 0 <= i < keys.len() implies #[trigger] keys[i] < ma * mb by {
                lemma_pair_key_bound(ka[i] as int, kb[i] as int, ma as int, mb as int);
            }
            assert(ma * mb <= MAX_JOINT) by (nonlinear_arith)
                requires
                    ma <= 243,
                    mb <= 243,
            ;
            lemma_histogram_total(keys, ma * mb);
            lemma_fast_info_close(self.tables.exact_view(), self.tables.fast_view(), self.tables.error_view(), buckets@);
            assert(total(buckets@) * self.tables.error_view() == self.slack());
            reveal(pair_info);
        }
        fast_info(&self.tables.exact, &self.tables.fast, buckets)
    }

    /// The pair of words with the most joint information, found by a
    /// branch-and-bound scan in rank order; `None` when no pair carries any
    /// information.
    pub fn best_two(&self) -> (r: Option<(String, String, i64)>)
        requires
            self.wf(),
        ensures
            r matches Some(p) ==> p.2 > 0 && self.is_pair(p),
            self.subadditive() ==> (r matches Some(p) ==> forall|k1: int, k2: int|
                0 <= k1 < k2 < self.n_words() ==> #[trigger] self.joint(k1, k2) <= p.2),
            r is None ==> forall|k1: int, k2: int|
                0 <= k1 < k2 < self.n_words() ==> #[trigger] self.joint(k1, k2) <= 0,
    {
        proof {
            self.lemma_ranked();
        }
        let n = self.order.len();
        let slack = self.slack_exec();
        let mut best: i64 = 0;
        let mut found = false;
        let mut pa: usize = 0;
        let mut pb: usize = 0;
        let mut buckets: Vec<u16> = Vec::new();
        let mut a: usize = 0;
        while a < n
            invariant
                self.wf(),
                n == self.n_words(),
                slack == self.slack(),
                0 <= slack <= MAX_ANSWERS * MAX_LOG_ENTRY,
                a <= n,
                0 <= best <= MAX_LOG_ENTRY,
                found ==> pa < pb < n && self.joint(pa as int, pb as int) == best && best > 0,
                !found ==> best == 0,
                self.subadditive() ==> forall|k1: int, k2: int|
                    0 <= k1 < a && k1 < k2 < n ==> #[trigger] self.joint(k1, k2) <= best,
                !found ==> forall|k1: int, k2: int|
                    0 <= k1 < a && k1 < k2 < n ==> #[trigger] self.joint(k1, k2) <= 0,
                forall|k: int| 0 <= k < n ==> 0 <= #[trigger] self.ranked_info(k),
                forall|k1: int, k2: int|
                    0 <= k1 <= k2 < n ==> #[trigger] self.ranked_info(k1) >= #[trigger] self.ranked_info(k2),
                forall|k: int| 0 <= k < n ==> INFO_FLOOR <= #[trigger] self.ranked_info(k) <= MAX_LOG_ENTRY,
            decreases n - a,
        {
            let sa = self.info_at(a);
            if sa * 2 >= best {
                let mut b: usize = a + 1;
                let mut stop = false;
                while b < n && !stop
                    invariant
                        self.wf(),
                        n == self.n_words(),
                        slack == self.slack(),
                        0 <= slack <= MAX_ANSWERS * MAX_LOG_ENTRY,
                        a < b <= n,
                        sa == self.ranked_info(a as int),
                        0 <= best <= MAX_LOG_ENTRY,
                        found ==> pa < pb < n && self.joint(pa as int, pb as int) == best && best > 0,
                        !found ==> best == 0,
                        self.subadditive() ==> forall|k1: int, k2: int|
                            0 <= k1 < a && k1 < k2 < n ==> #[trigger] self.joint(k1, k2) <= best,
                        self.subadditive() ==> forall|k2: int|
                            a < k2 < b ==> #[trigger] self.joint(a as int, k2) <= best,
                        !found ==> forall|k1: int, k2: int|
                            0 <= k1 < a && k1 < k2 < n ==> #[trigger] self.joint(k1, k2) <= 0,
                        !found ==> forall|k2: int| a < k2 < b ==> #[trigger] self.joint(a as int, k2) <= 0,
                        forall|k: int| 0 <= k < n ==> 0 <= #[trigger] self.ranked_info(k),
                        stop ==> b < n && self.ranked_info(b as int) < best - sa,
                        stop ==> found,
                        forall|k1: int, k2: int|
                            0 <= k1 <= k2 < n ==> #[trigger] self.ranked_info(k1) >= #[trigger] self.ranked_info(k2),
                        forall|k: int| 0 <= k < n ==> INFO_FLOOR <= #[trigger] self.ranked_info(k) <= MAX_LOG_ENTRY,
                    decreases n - b + if stop {
                        0int
                    } else {
                        1int
                    },
                {
                    let sb = self.info_at(b);
                    if sb < best - sa {
                        stop = true;
                    } else {
                        let f = self.fast_joint(a, b, &mut buckets);
                        if f + slack > best {
                            let h = info(&self.tables.exact, &buckets);
                            if h > best {
                                best = h;
                                found = true;
                                pa = a;
                                pb = b;
                            }
                        }
                        b = b + 1;
                    }
                }
                proof {
                    if self.subadditive() {
                        assert forall|k2: int| a < k2 < n implies #[trigger] self.joint(a as int, k2) <= best by {
                            if k2 >= b {
                                assert(self.ranked_info(b as int) >= self.ranked_info(k2));
                                assert(self.joint(a as int, k2) <= sa + self.ranked_info(k2));
                            }
                        }
                    }
                }
            } else {
                proof {
                    if self.subadditive() {
                        assert forall|k2: int| a < k2 < n implies #[trigger] self.joint(a as int, k2) <= best by {
                            assert(self.ranked_info(a as int) >= self.ranked_info(k2));
                            assert(self.joint(a as int, k2) <= sa + self.ranked_info(k2));
                        }
                    }
                }
            }
            a = a + 1;
        }
        if found {
            let p = (self.text_at(pa), self.text_at(pb), best);
            assert(self.names(p, pa as int, pb as int));
            Some(p)
        } else {
            None
        }
    }

    /// Key `k` holds two ranks in order and their joint information, negated
    /// when `negate` is set.
    spec fn key_names(&self, k: Key, negate: bool) -> bool {
        &&& k.1 < k.2 < self.n_words()
        &&& INFO_FLOOR <= k.0 <= -INFO_FLOOR
        &&& (if negate {
            -k.0
        } else {
            k.0 as int
        }) == self.joint(k.1 as int, k.2 as int)
    }

    /// Sorts the keys and names their pairs.
    fn pairs_out(&self, keys: Vec<Key>, negate: bool, Ghost(bound): Ghost<int>) -> (r: Vec<(String, String, i64)>)
        requires
            self.wf(),
            forall|m: int| 0 <= m < keys@.len() ==> self.key_names(#[trigger] keys@[m], negate),
            forall|m: int| 0 <= m < keys@.len() ==> if negate {
                -(#[trigger] keys@[m]).0 >= bound
            } else {
                keys@[m].0 <= bound
            },
            keys@.no_duplicates(),
        ensures
            self.distinct_texts() ==> Self::pairs_once(r@),
            forall|m: int| 0 <= m < r@.len() ==> if negate {
                (#[trigger] r@[m]).2 >= bound
            } else {
                r@[m].2 <= bound
            },
            forall|m: int| 0 <= m < r@.len() ==> self.is_pair(#[trigger] r@[m]),
            forall|k1: int, k2: int| #[trigger] has_pair(keys@, k1, k2) ==> exists|m: int| 0 <= m < r@.len() && self.names(r@[m], k1, k2),
            forall|m1: int, m2: int| 0 <= m1 <= m2 < r@.len() ==> if negate {
                (#[trigger] r@[m1]).2 >= (#[trigger] r@[m2]).2
            } else {
                r@[m1].2 <= r@[m2].2
            },
    {
        let ghost before = keys@;
        let mut keys = keys;
        sort_keys(&mut keys);
        proof {
            lemma_sorted_has(before, keys@);
            lemma_keeps_distinct(before, keys@);
            assert forall|j: int| 0 <= j < keys@.len() implies self.key_names(#[trigger] keys@[j], negate) && if negate {
                -keys@[j].0 >= bound
            } else {
                keys@[j].0 <= bound
            } by {
                assert(before.contains(keys@[j]));
            }
        }
        let mut r: Vec<(String, String, i64)> = Vec::new();
        let mut m: usize = 0;
        while m < keys.len()
            invariant
                self.wf(),
                forall|j: int| 0 <= j < keys@.len() ==> self.key_names(#[trigger] keys@[j], negate),
                forall|j: int| 0 <= j < keys@.len() ==> if negate {
                    -(#[trigger] keys@[j]).0 >= bound
                } else {
                    keys@[j].0 <= bound
                },
                keys_sorted(keys@),
                m <= keys@.len(),
                r@.len() == m,
                forall|j: int| 0 <= j < m ==> #[trigger] self.names(r@[j], keys@[j].1 as int, keys@[j].2 as int),
                forall|j: int| 0 <= j < m ==> (#[trigger] r@[j]).2 as int == if negate {
                    -keys@[j].0
                } else {
                    keys@[j].0 as int
                },
            decreases keys@.len() - m,
        {
            let k = keys[m];
            assert(self.key_names(k, negate));
            let h: i64 = if negate {
                -k.0
            } else {
                k.0
            };
            r.push((self.text_at(k.1), self.text_at(k.2), h));
            m = m + 1;
        }
        proof {
            assert forall|j: int| 0 <= j < r@.len() implies self.is_pair(#[trigger] r@[j]) by {
                assert(self.key_names(keys@[j], negate));
                assert(self.names(r@[j], keys@[j].1 as int, keys@[j].2 as int));
            }
            assert forall|k1: int, k2: int| #[trigger] has_pair(before, k1, k2) implies exists|j: int| 0 <= j < r@.len() && self.names(r@[j], k1, k2) by {
                assert(has_pair(keys@, k1, k2));
                let j = choose|j: int| 0 <= j < keys@.len() && keys@[j].1 as int == k1 && keys@[j].2 as int == k2;
                assert(self.names(r@[j], k1, k2));
            }
            if self.distinct_texts() {
                assert forall|m1: int, m2: int| 0 <= m1 < m2 < r@.len() implies !same_pair(#[trigger] r@[m1], #[trigger] r@[m2]) by {
                    let a = keys@[m1];
                    let b = keys@[m2];
                    assert(self.key_names(a, negate));
                    assert(self.key_names(b, negate));
                    assert(self.names(r@[m1], a.1 as int, a.2 as int));
                    assert(self.names(r@[m2], b.1 as int, b.2 as int));
                    assert(a != b);
                    if r@[m1].0@ == r@[m2].0@ && r@[m1].1@ == r@[m2].1@ {
                        if a.1 != b.1 {
                            if a.1 < b.1 {
                                assert(self.ranked_text(a.1 as int) != self.ranked_text(b.1 as int));
                            } else {
                                assert(self.ranked_text(b.1 as int) != self.ranked_text(a.1 as int));
                            }
                        }
                        if a.2 != b.2 {
                            if a.2 < b.2 {
                                assert(self.ranked_text(a.2 as int) != self.ranked_text(b.2 as int));
                            } else {
                                assert(self.ranked_text(b.2 as int) != self.ranked_text(a.2 as int));
                            }
                        }
                    }
                    if r@[m1].0@ == r@[m2].1@ && r@[m1].1@ == r@[m2].0@ {
                        if a.1 != b.2 {
                            if a.1 < b.2 {
                                assert(self.ranked_text(a.1 as int) != self.ranked_text(b.2 as int));
                            } else {
                                assert(self.ranked_text(b.2 as int) != self.ranked_text(a.1 as int));
                            }
                        }
                        if a.2 != b.1 {
                            if a.2 < b.1 {
                                assert(self.ranked_text(a.2 as int) != self.ranked_text(b.1 as int));
                            } else {
                                assert(self.ranked_text(b.1 as int) != self.ranked_text(a.2 as int));
                            }
                        }
                    }
                }
            }
            assert forall|m1: int, m2: int| 0 <= m1 <= m2 < r@.len() implies if negate {
                (#[trigger] r@[m1]).2 >= (#[trigger] r@[m2]).2
            } else {
                r@[m1].2 <= r@[m2].2
            } by {
                if m1 < m2 {
                    assert(crate::ranking::key_le(keys@[m1], keys@[m2]));
                }
                assert(self.key_names(keys@[m1], negate));
                assert(self.key_names(keys@[m2], negate));
            }
        }
        r
    }

    /// No two ranks hold the same text.
    pub open spec fn distinct_texts(&self) -> bool {
        forall|k1: int, k2: int| 0 <= k1 < k2 < self.n_words() ==> #[trigger] self.ranked_text(k1) != #[trigger] self.ranked_text(k2)
    }

    /// `r` holds no pair of words twice, in either order.
    pub open spec fn pairs_once(r: Seq<(String, String, i64)>) -> bool {
        forall|m1: int, m2: int| 0 <= m1 < m2 < r.len() ==> !same_pair(#[trigger] r[m1], #[trigger] r[m2])
    }

    /// `r` holds pairs of joint information at least `t`, each once when
    /// the words are distinct, every such pair when joint information is
    /// subadditive, from the highest score down.
    pub open spec fn lists_above(&self, t: i64, r: Seq<(String, String, i64)>) -> bool {
        &&& self.distinct_texts() ==> Self::pairs_once(r)
        &&& forall|m: int| 0 <= m < r.len() ==> self.is_pair(#[trigger] r[m]) && r[m].2 >= t
        &&& self.subadditive() ==> forall|k1: int, k2: int|
            0 <= k1 < k2 < self.n_words() && #[trigger] self.joint(k1, k2) >= t ==> exists|m: int|
                0 <= m < r.len() && self.names(r[m], k1, k2)
        &&& forall|m1: int, m2: int| 0 <= m1 <= m2 < r.len() ==> (#[trigger] r[m1]).2 >= (#[trigger] r[m2]).2
    }

    /// `r` holds pairs of joint information at most `t`, each once when the
    /// words are distinct, and every such pair, from the lowest score up.
    pub open spec fn lists_below(&self, t: i64, r: Seq<(String, String, i64)>) -> bool {
        &&& self.distinct_texts() ==> Self::pairs_once(r)
        &&& forall|m: int| 0 <= m < r.len() ==> self.is_pair(#[trigger] r[m]) && r[m].2 <= t
        &&& forall|k1: int, k2: int|
            0 <= k1 < k2 < self.n_words() && #[trigger] self.joint(k1, k2) <= t ==> exists|m: int|
                0 <= m < r.len() && self.names(r[m], k1, k2)
        &&& forall|m1: int, m2: int| 0 <= m1 <= m2 < r.len() ==> (#[trigger] r[m1]).2 <= (#[trigger] r[m2]).2
    }

    /// Every pair of words whose joint information is at least `threshold`,
    /// from the most informative pair down.
    pub fn pairs_above_threshold(&self, threshold: i64) -> (r: Vec<(String, String, i64)>)
        requires
            self.wf(),
        ensures
            self.lists_above(threshold, r@),
    {
        proof {
            self.lemma_ranked();
        }
        let n = self.order.len();
        let slack = self.slack_exec();
        let t = threshold as i128;
        let mut keys: Vec<Key> = Vec::new();
        let mut buckets: Vec<u16> = Vec::new();
        let mut a: usize = 0;
        while a < n
            invariant
                self.wf(),
                n == self.n_words(),
                slack == self.slack(),
                0 <= slack <= MAX_ANSWERS * MAX_LOG_ENTRY,
                t == threshold,
                a <= n,
                forall|m: int| 0 <= m < keys@.len() ==> self.key_names(#[trigger] keys@[m], true) && -keys@[m].0 >= t,
                keys@.no_duplicates(),
                forall|m: int| 0 <= m < keys@.len() ==> (#[trigger] keys@[m]).1 < a,
                self.subadditive() ==> forall|k1: int, k2: int|
                    0 <= k1 < a && k1 < k2 < n && #[trigger] self.joint(k1, k2) >= t ==> has_pair(keys@, k1, k2),
                forall|k1: int, k2: int|
                    0 <= k1 <= k2 < n ==> #[trigger] self.ranked_info(k1) >= #[trigger] self.ranked_info(k2),
                forall|k: int| 0 <= k < n ==> INFO_FLOOR <= #[trigger] self.ranked_info(k) <= MAX_LOG_ENTRY,
            decreases n - a,
        {
            let sa = self.info_at(a) as i128;
            if sa * 2 >= t {
                let mut b: usize = a + 1;
                let mut stop = false;
                while b < n && !stop
                    invariant
                        self.wf(),
                        n == self.n_words(),
                        slack == self.slack(),
                        0 <= slack <= MAX_ANSWERS * MAX_LOG_ENTRY,
                        t == threshold,
                        a < b <= n,
                        sa == self.ranked_info(a as int),
                        forall|m: int| 0 <= m < keys@.len() ==> self.key_names(#[trigger] keys@[m], true) && -keys@[m].0 >= t,
                        keys@.no_duplicates(),
                        forall|m: int| 0 <= m < keys@.len() ==> (#[trigger] keys@[m]).1 < a || (keys@[m].1 == a && keys@[m].2 < b),
                        self.subadditive() ==> forall|k1: int, k2: int|
                            0 <= k1 < a && k1 < k2 < n && #[trigger] self.joint(k1, k2) >= t ==> has_pair(keys@, k1, k2),
                        self.subadditive() ==> forall|k2: int|
                            a < k2 < b && #[trigger] self.joint(a as int, k2) >= t ==> has_pair(keys@, a as int, k2),
                        stop ==> b < n && self.ranked_info(b as int) < t - sa,
                        forall|k1: int, k2: int|
                            0 <= k1 <= k2 < n ==> #[trigger] self.ranked_info(k1) >= #[trigger] self.ranked_info(k2),
                        forall|k: int| 0 <= k < n ==> INFO_FLOOR <= #[trigger] self.ranked_info(k) <= MAX_LOG_ENTRY,
                    decreases n - b + if stop {
                        0int
                    } else {
                        1int
                    },
                {
                    let sb = self.info_at(b) as i128;
                    if sb < t - sa {
                        stop = true;
                    } else {
                        let f = self.fast_joint(a, b, &mut buckets);
                        if f as i128 + slack as i128 >= t {
                            let h = info(&self.tables.exact, &buckets);
                            if h as i128 >= t {
                                proof {
                                    lemma_push_keeps(keys@, (-h as i64, a, b));
                                    lemma_push_distinct(keys@, (-h as i64, a, b));
                                }
                                keys.push((-h, a, b));
                            }
                        }
                        b = b + 1;
                    }
                }
                proof {
                    if self.subadditive() {
                        assert forall|k2: int| a < k2 < n && #[trigger] self.joint(a as int, k2) >= t implies has_pair(keys@, a as int, k2) by {
                            if k2 >= b {
                                assert(self.ranked_info(b as int) >= self.ranked_info(k2));
                                assert(self.joint(a as int, k2) <= sa + self.ranked_info(k2));
                            }
                        }
                    }
                }
            } else {
                proof {
                    if self.subadditive() {
                        assert forall|k2: int| a < k2 < n && #[trigger] self.joint(a as int, k2) >= t implies has_pair(keys@, a as int, k2) by {
                            assert(self.ranked_info(a as int) >= self.ranked_info(k2));
                            assert(self.joint(a as int, k2) <= sa + self.ranked_info(k2));
                        }
                    }
                }
            }
            a = a + 1;
        }
        self.pairs_out(keys, true, Ghost(threshold as int))
    }

    /// Every pair of words whose joint information is at most `threshold`,
    /// from the least informative pair up.
    pub fn pairs_below_threshold(&self, threshold: i64) -> (r: Vec<(String, String, i64)>)
        requires
            self.wf(),
        ensures
            self.lists_below(threshold, r@),
    {
        proof {
            self.lemma_ranked();
            self.lemma_refining();
        }
        let n = self.order.len();
        let slack = self.slack_exec();
        let t = threshold as i128;
        let mut keys: Vec<Key> = Vec::new();
        let mut buckets: Vec<u16> = Vec::new();
        let mut a: usize = n;
        while a > 0
            invariant
                self.wf(),
                n == self.n_words(),
                slack == self.slack(),
                0 <= slack <= MAX_ANSWERS * MAX_LOG_ENTRY,
                t == threshold,
                a <= n,
                forall|m: int| 0 <= m < keys@.len() ==> self.key_names(#[trigger] keys@[m], false) && keys@[m].0 <= t,
                keys@.no_duplicates(),
                forall|m: int| 0 <= m < keys@.len() ==> (#[trigger] keys@[m]).2 >= a,
                self.refining() ==> forall|k1: int, k2: int|
                    0 <= k1 < k2 < n && a <= k2 && #[trigger] self.joint(k1, k2) <= t ==> has_pair(keys@, k1, k2),
                forall|k1: int, k2: int|
                    0 <= k1 <= k2 < n ==> #[trigger] self.ranked_info(k1) >= #[trigger] self.ranked_info(k2),
                forall|k: int| 0 <= k < n ==> INFO_FLOOR <= #[trigger] self.ranked_info(k) <= MAX_LOG_ENTRY,
            decreases a,
        {
            a = a - 1;
            let sa = self.info_at(a) as i128;
            if sa <= t {
                let mut b: usize = a;
                let mut stop = false;
                while b > 0 && !stop
                    invariant
                        self.wf(),
                        n == self.n_words(),
                        slack == self.slack(),
                        0 <= slack <= MAX_ANSWERS * MAX_LOG_ENTRY,
                        t == threshold,
                        b <= a < n,
                        sa == self.ranked_info(a as int),
                        forall|m: int| 0 <= m < keys@.len() ==> self.key_names(#[trigger] keys@[m], false) && keys@[m].0 <= t,
                        keys@.no_duplicates(),
                        forall|m: int| 0 <= m < keys@.len() ==> (#[trigger] keys@[m]).2 > a || (keys@[m].2 == a && keys@[m].1 >= b),
                        self.refining() ==> forall|k1: int, k2: int|
                            0 <= k1 < k2 < n && a < k2 && #[trigger] self.joint(k1, k2) <= t ==> has_pair(keys@, k1, k2),
                        self.refining() ==> forall|k1: int|
                            b <= k1 < a && #[trigger] self.joint(k1, a as int) <= t ==> has_pair(keys@, k1, a as int),
                        stop ==> b < a && self.ranked_info(b as int) > t,
                        forall|k1: int, k2: int|
                            0 <= k1 <= k2 < n ==> #[trigger] self.ranked_info(k1) >= #[trigger] self.ranked_info(k2),
                        forall|k: int| 0 <= k < n ==> INFO_FLOOR <= #[trigger] self.ranked_info(k) <= MAX_LOG_ENTRY,
                    decreases b + if stop {
                        0int
                    } else {
                        1int
                    },
                {
                    let sb = self.info_at(b - 1) as i128;
                    if sb > t {
                        stop = true;
                        b = b - 1;
                    } else {
                        let f = self.fast_joint(b - 1, a, &mut buckets);
                        if f as i128 - slack as i128 <= t {
                            let h = info(&self.tables.exact, &buckets);
                            if h as i128 <= t {
                                proof {
                                    lemma_push_keeps(keys@, (h, (b - 1) as usize, a));
                                    lemma_push_distinct(keys@, (h, (b - 1) as usize, a));
                                }
                                keys.push((h, b - 1, a));
                            }
                        }
                        b = b - 1;
                    }
                }
                proof {
                    if self.refining() {
                        assert forall|k1: int| 0 <= k1 < a && #[trigger] self.joint(k1, a as int) <= t implies has_pair(keys@, k1, a as int) by {
                            if k1 < b {
                                assert(self.ranked_info(k1) >= self.ranked_info(b as int));
                                assert(self.joint(k1, a as int) >= self.ranked_info(k1));
                            }
                        }
                    }
                }
            } else {
                proof {
                    if self.refining() {
                        assert forall|k1: int| 0 <= k1 < a && #[trigger] self.joint(k1, a as int) <= t implies has_pair(keys@, k1, a as int) by {
                            assert(self.joint(k1, a as int) >= self.ranked_info(a as int));
                        }
                    }
                }
            }
        }
        self.pairs_out(keys, false, Ghost(threshold as int))
    }

    /// Scores `text` against the answers.
    fn candidate(&self, text: &str) -> (r: Result<Candidate, WordError>)
        requires
            self.wf(),
        ensures
            r is Ok <==> is_word_text(text@),
            r matches Ok(c) ==> candidate_ok(c, self.answers_view(), self.tables.exact_view())
                && c.letters@ == text_bytes(text@) && c.word@ == text@,
    {
        let g = match word_letters(text) {
            Ok(v) => v,
            Err(e) => return Err(e),
        };
        proof {
            assert forall|i: int| 0 <= i < self.answers_view().len() implies is_word(#[trigger] self.answers_view()[i]) by {
                assert(self.aug_answers@[i].wf());
            }
        }
        Ok(score(text.to_owned(), g, &self.answers_table, &self.tables, Ghost(self.answers_view())))
    }

    /// The joint information of `c` and the word ranked `k`-th.
    fn pair_exact(&self, c: &Candidate, k: usize, buckets: &mut Vec<u16>) -> (r: i64)
        requires
            self.wf(),
            candidate_ok(*c, self.answers_view(), self.tables.exact_view()),
            k < self.n_words(),
        ensures
            r == pair_info(self.tables_view().0, c.letters@, self.ranked_letters(k as int), self.answers_view()),
            INFO_FLOOR <= r <= MAX_LOG_ENTRY,
    {
        let b = &self.all_words[self.order[k]];
        assert(candidate_ok(*b, self.answers_view(), self.tables.exact_view()));
        bucket_two(&c.outcomes, &b.outcomes, buckets);
        proof {
            let ka = widen8(c.outcomes.labels());
            let kb = widen8(b.outcomes.labels());
            let ma = c.outcomes.bound();
            let mb = b.outcomes.bound();
            let keys = pair_keys(ka, kb, mb);
            assert forall|i: int| 0 <= i < keys.len() implies #[trigger] keys[i] < ma * mb by {
                lemma_pair_key_bound(ka[i] as int, kb[i] as int, ma as int, mb as int);
            }
            lemma_histogram_total(keys, ma * mb);
            reveal(pair_info);
        }
        info(&self.tables.exact, buckets)
    }

    /// `w` is the word ranked `k`-th, not `g`, with the value `val(k)`.
    pub open spec fn gain_of(&self, w: AugmentedWord, k: int, g: Seq<u8>, val: spec_fn(int) -> int) -> bool {
        &&& w.word@ == self.ranked_text(k)
        &&& self.ranked_letters(k) != g
        &&& w.info == val(k)
    }

    /// The information that the word ranked `k`-th adds to that of `g`.
    pub open spec fn second_gain(&self, g: Seq<u8>) -> spec_fn(int) -> int {
        |k: int| pair_info(self.tables_view().0, g, self.ranked_letters(k), self.answers_view())
            - word_info(self.tables_view().0, g, self.answers_view())
    }

    /// The information that the word ranked `k`-th adds to that of `g1` and
    /// `g2` together.
    pub open spec fn third_gain(&self, g1: Seq<u8>, g2: Seq<u8>) -> spec_fn(int) -> int {
        |k: int| triple_info(self.tables_view().0, g1, g2, self.ranked_letters(k), self.answers_view())
            - pair_info(self.tables_view().0, g1, g2, self.answers_view())
    }

    /// The number of words among the first `n` ranks whose letters are not `g`.
    pub open spec fn others(&self, g: Seq<u8>, n: nat) -> nat
        decreases n,
    {
        if n == 0 {
            0
        } else {
            self.others(g, (n - 1) as nat) + if self.ranked_letters(n - 1) != g {
                1nat
            } else {
                0nat
            }
        }
    }

    /// `v` lists every word but `g`, each with its value `val`, never
    /// negative, from the largest value down; as many entries as such words,
    /// so each once.
    pub open spec fn lists_gains(&self, v: Seq<AugmentedWord>, g: Seq<u8>, val: spec_fn(int) -> int) -> bool {
        &&& v.len() == self.others(g, self.n_words())
        &&& forall|m: int| 0 <= m < v.len() ==> (#[trigger] v[m]).info >= 0
        &&& forall|m: int| 0 <= m < v.len() ==> self.has_gain(#[trigger] v[m], g, val)
        &&& forall|k: int| 0 <= k < self.n_words() && #[trigger] self.ranked_letters(k) != g ==> exists|m: int|
            0 <= m < v.len() && self.gain_of(v[m], k, g, val)
        &&& forall|m1: int, m2: int| 0 <= m1 <= m2 < v.len() ==> (#[trigger] v[m1]).info >= (#[trigger] v[m2]).info
    }

    pub open spec fn has_gain(&self, w: AugmentedWord, g: Seq<u8>, val: spec_fn(int) -> int) -> bool {
        exists|k: int| 0 <= k < self.n_words() && #[trigger] self.gain_of(w, k, g, val)
    }

    /// Every word but `first_word`, with the information it adds to that of
    /// `first_word`, from the largest gain down.
    pub fn best_second_words(&self, first_word: &str) -> (r: Result<Vec<AugmentedWord>, WordError>)
        requires
            self.wf(),
        ensures
            r is Ok <==> is_word_text(first_word@),
            r matches Ok(v) ==> self.lists_gains(v@, text_bytes(first_word@), self.second_gain(text_bytes(first_word@))),
    {
        let fc = match self.candidate(first_word) {
            Ok(c) => c,
            Err(e) => return Err(e),
        };
        let keys = self.gain_keys(&fc, &fc.letters);
        Ok(self.words_out(keys, Ghost(fc.letters@), Ghost(self.second_gain(fc.letters@))))
    }

    /// The key `(-gain, k, 0)` of each word ranked `k`-th but `g`.
    fn gain_keys(&self, fc: &Candidate, g: &Vec<u8>) -> (keys: Vec<Key>)
        requires
            self.wf(),
            candidate_ok(*fc, self.answers_view(), self.tables.exact_view()),
            fc.letters@ == g@,
        ensures
            forall|m: int| 0 <= m < keys@.len() ==> self.gain_key(#[trigger] keys@[m], g@, self.second_gain(g@)),
            forall|j: int| 0 <= j < self.n_words() && #[trigger] self.ranked_letters(j) != g@ ==> has_pair(keys@, j, 0),
            keys@.len() == self.others(g@, self.n_words()),
    {
        let ghost t = self.tables_view().0;
        let ghost ans = self.answers_view();
        let n = self.order.len();
        let mut keys: Vec<Key> = Vec::new();
        let mut buckets: Vec<u16> = Vec::new();
        let mut k: usize = 0;
        while k < n
            invariant
                self.wf(),
                n == self.n_words(),
                t == self.tables_view().0,
                ans == self.answers_view(),
                candidate_ok(*fc, ans, self.tables.exact_view()),
                fc.letters@ == g@,
                k <= n,
                forall|m: int| 0 <= m < keys@.len() ==> self.gain_key(#[trigger] keys@[m], g@, self.second_gain(g@)),
                keys@.len() == self.others(g@, k as nat),
                forall|j: int| 0 <= j < k && #[trigger] self.ranked_letters(j) != g@ ==> has_pair(keys@, j, 0),
            decreases n - k,
        {
            let c = &self.all_words[self.order[k]];
            if !same_letters(&c.letters, &g) {
                let h = self.pair_exact(fc, k, &mut buckets);
                proof {
                    assert(candidate_ok(*c, ans, t));
                    candidate_facts(*fc, ans, t);
                    candidate_facts(*c, ans, t);
                    let ma = fc.outcomes.bound();
                    let mb = c.outcomes.bound();
                    assert(ma * mb <= MAX_JOINT) by (nonlinear_arith)
                        requires
                            ma <= 243,
                            mb <= 243,
                    ;
                    lemma_pair_refines(t, widen8(fc.outcomes.labels()), ma, widen8(c.outcomes.labels()), mb, BUCKETS_SIZE as nat, BUCKETS_SIZE as nat);
                    reveal(pair_info);
                    reveal(word_info);
                }
                let gain = h - fc.info;
                assert(self.gain_key((-gain as i64, k, 0usize), g@, self.second_gain(g@)));
                proof {
                    lemma_push_keeps(keys@, (-gain as i64, k, 0usize));
                }
                keys.push((-gain, k, 0));
            }
            k = k + 1;
        }
        keys
    }

    /// Every word but `first_word`, with the information it adds to that of
    /// `first_word` and `second_word` together, from the largest gain down.
    pub fn best_third_word(&self, first_word: &str, second_word: &str) -> (r: Result<Vec<AugmentedWord>, WordError>)
        requires
            self.wf(),
        ensures
            r is Ok <==> is_word_text(first_word@) && is_word_text(second_word@),
            r matches Ok(v) ==> self.lists_gains(
                v@,
                text_bytes(first_word@),
                self.third_gain(text_bytes(first_word@), text_bytes(second_word@)),
            ),
    {
        let c1 = match self.candidate(first_word) {
            Ok(c) => c,
            Err(e) => return Err(e),
        };
        let c2 = match self.candidate(second_word) {
            Ok(c) => c,
            Err(e) => return Err(e),
        };
        let keys = self.third_keys(&c1, &c2);
        Ok(self.words_out(keys, Ghost(c1.letters@), Ghost(self.third_gain(c1.letters@, c2.letters@))))
    }

    /// The key `(-gain, k, 0)` of each word ranked `k`-th but `c1`, its gain
    /// over `c1` and `c2` together.
    #[verifier::rlimit(40)]
    fn third_keys(&self, c1: &Candidate, c2: &Candidate) -> (keys: Vec<Key>)
        requires
            self.wf(),
            candidate_ok(*c1, self.answers_view(), self.tables.exact_view()),
            candidate_ok(*c2, self.answers_view(), self.tables.exact_view()),
        ensures
            forall|m: int| 0 <= m < keys@.len() ==> self.gain_key(#[trigger] keys@[m], c1.letters@, self.third_gain(c1.letters@, c2.letters@)),
            forall|j: int| 0 <= j < self.n_words() && #[trigger] self.ranked_letters(j) != c1.letters@ ==> has_pair(keys@, j, 0),
            keys@.len() == self.others(c1.letters@, self.n_words()),
    {
        let ghost t = self.tables_view().0;
        let ghost ans = self.answers_view();
        let ghost g1 = c1.letters@;
        let ghost g2 = c2.letters@;
        let mut buckets: Vec<u16> = Vec::new();
        bucket_two(&c1.outcomes, &c2.outcomes, &mut buckets);
        proof {
            let ka = widen8(c1.outcomes.labels());
            let kb = widen8(c2.outcomes.labels());
            let ma = c1.outcomes.bound();
            let mb = c2.outcomes.bound();
            let keys = pair_keys(ka, kb, mb);
            assert forall|i: int| 0 <= i < keys.len() implies #[trigger] keys[i] < ma * mb by {
                lemma_pair_key_bound(ka[i] as int, kb[i] as int, ma as int, mb as int);
            }
            lemma_histogram_total(keys, ma * mb);
            reveal(pair_info);
        }
        let two = info(&self.tables.exact, &buckets);
        let joined = Outcomes2::new(&c1.outcomes, &c2.outcomes);
        proof {
            lemma_canon(
                pair_keys(widen8(c1.outcomes.labels()), widen8(c2.outcomes.labels()), c2.outcomes.bound()),
                crate::outcomes::widen16(joined.labels()),
                joined.bound(),
            );
        }
        let n = self.order.len();
        let mut keys: Vec<Key> = Vec::new();
        let mut k: usize = 0;
        while k < n
            invariant
                self.wf(),
                n == self.n_words(),
                t == self.tables_view().0,
                ans == self.answers_view(),
                g1 == c1.letters@,
                g2 == c2.letters@,
                candidate_ok(*c1, ans, self.tables.exact_view()),
                candidate_ok(*c2, ans, self.tables.exact_view()),
                compressed_from(
                    pair_keys(labels_of(g1, ans).0, labels_of(g2, ans).0, labels_of(g2, ans).1),
                    crate::outcomes::widen16(joined.labels()),
                    joined.bound(),
                ),
                joined.wf(),
                joined.labels().len() == ans.len(),
                canon(pair_keys(labels_of(g1, ans).0, labels_of(g2, ans).0, labels_of(g2, ans).1)) == (
                    crate::outcomes::widen16(joined.labels()),
                    joined.bound(),
                ),
                two == pair_info(t, g1, g2, ans),
                INFO_FLOOR <= two <= MAX_LOG_ENTRY,
                k <= n,
                forall|m: int| 0 <= m < keys@.len() ==> self.gain_key(#[trigger] keys@[m], g1, self.third_gain(g1, g2)),
                keys@.len() == self.others(g1, k as nat),
                forall|j: int| 0 <= j < k && #[trigger] self.ranked_letters(j) != g1 ==> has_pair(keys@, j, 0),
            decreases n - k,
        {
            let c = &self.all_words[self.order[k]];
            assert(candidate_ok(*c, ans, self.tables.exact_view()));
            if !same_letters(&c.letters, &c1.letters) {
                proof {
                    assert(joined.bound() * c.outcomes.bound() <= MAX_JOINT * 243) by (nonlinear_arith)
                        requires
                            joined.bound() <= MAX_JOINT,
                            c.outcomes.bound() <= 243,
                    ;
                }
                bucket_three(&joined, &c.outcomes, &mut buckets);
                proof {
                    let ka = crate::outcomes::widen16(joined.labels());
                    let kb = widen8(c.outcomes.labels());
                    let ma = joined.bound();
                    let mb = c.outcomes.bound();
                    let pk = pair_keys(ka, kb, mb);
                    assert forall|i: int| 0 <= i < pk.len() implies #[trigger] pk[i] < ma * mb by {
                        lemma_pair_key_bound(ka[i] as int, kb[i] as int, ma as int, mb as int);
                    }
                    lemma_histogram_total(pk, ma * mb);
                    reveal(triple_info);
                    assert(buckets@ == triple_hist(g1, g2, self.ranked_letters(k as int), ans));
                }
                let h = info(&self.tables.exact, &buckets);
                proof {
                    candidate_facts(*c1, ans, t);
                    candidate_facts(*c2, ans, t);
                    candidate_facts(*c, ans, t);
                    lemma_triple_refines(
                        t,
                        widen8(c1.outcomes.labels()),
                        c1.outcomes.bound(),
                        widen8(c2.outcomes.labels()),
                        c2.outcomes.bound(),
                        widen8(c.outcomes.labels()),
                        c.outcomes.bound(),
                    );
                    reveal(pair_info);
                }
                let gain = h - two;
                assert(self.gain_key((-gain as i64, k, 0usize), g1, self.third_gain(g1, g2)));
                proof {
                    lemma_push_keeps(keys@, (-gain as i64, k, 0usize));
                }
                keys.push((-gain, k, 0));
            }
            k = k + 1;
        }
        keys
    }

    /// The key holds the rank of a word other than `g` and its negated value.
    spec fn gain_key(&self, key: Key, g: Seq<u8>, val: spec_fn(int) -> int) -> bool {
        &&& key.1 < self.n_words()
        &&& self.ranked_letters(key.1 as int) != g
        &&& INFO_FLOOR - MAX_LOG_ENTRY <= key.0 <= 0
        &&& -key.0 == val(key.1 as int)
    }

    /// Sorts the gain keys and names their words.
    #[verifier::rlimit(40)]
    fn words_out(&self, keys: Vec<Key>, Ghost(g): Ghost<Seq<u8>>, Ghost(val): Ghost<spec_fn(int) -> int>) -> (v: Vec<AugmentedWord>)
        requires
            self.wf(),
            forall|m: int| 0 <= m < keys@.len() ==> self.gain_key(#[trigger] keys@[m], g, val),
            forall|j: int| 0 <= j < self.n_words() && #[trigger] self.ranked_letters(j) != g ==> has_pair(keys@, j, 0),
            keys@.len() == self.others(g, self.n_words()),
        ensures
            self.lists_gains(v@, g, val),
    {
        let n = self.order.len();
        let ghost before = keys@;
        let mut keys = keys;
        sort_keys(&mut keys);
        proof {
            lemma_sorted_has(before, keys@);
        }
        let mut v: Vec<AugmentedWord> = Vec::new();
        let mut m: usize = 0;
        while m < keys.len()
            invariant
                self.wf(),
                n == self.n_words(),
                forall|j: int| 0 <= j < keys@.len() ==> #[trigger] before.contains(keys@[j]),
                forall|j: int| 0 <= j < before.len() ==> self.gain_key(#[trigger] before[j], g, val),
                keys_sorted(keys@),
                m <= keys@.len(),
                v@.len() == m,
                forall|j: int| 0 <= j < m ==> #[trigger] self.gain_of(v@[j], keys@[j].1 as int, g, val),
                forall|j: int| 0 <= j < m ==> (#[trigger] v@[j]).info == -keys@[j].0,
            decreases keys@.len() - m,
        {
            let key = keys[m];
            assert(before.contains(key));
            assert(self.gain_key(key, g, val));
            v.push(AugmentedWord { word: self.text_at(key.1), info: -key.0 });
            m = m + 1;
        }
        proof {
            assert forall|j: int| 0 <= j < v@.len() implies self.has_gain(#[trigger] v@[j], g, val) by {
                assert(before.contains(keys@[j]));
                assert(self.gain_of(v@[j], keys@[j].1 as int, g, val));
            }
            assert forall|j: int| 0 <= j < self.n_words() && #[trigger] self.ranked_letters(j) != g implies exists|i: int|
                0 <= i < v@.len() && self.gain_of(v@[i], j, g, val) by {
                assert(has_pair(before, j, 0));
                assert(has_pair(keys@, j, 0));
                let i = choose|i: int| 0 <= i < keys@.len() && keys@[i].1 as int == j && keys@[i].2 as int == 0;
                assert(self.gain_of(v@[i], j, g, val));
            }
            assert forall|m1: int, m2: int| 0 <= m1 <= m2 < v@.len() implies (#[trigger] v@[m1]).info >= (#[trigger] v@[m2]).info by {
                if m1 < m2 {
                    assert(crate::ranking::key_le(keys@[m1], keys@[m2]));
                }
            }
        }
        v
    }

    /// `w` is a word other than `g` with the most information against the
    /// answers `part`.
    pub open spec fn best_against(&self, w: AugmentedWord, g: Seq<u8>, part: Seq<Seq<u8>>) -> bool {
        &&& exists|k: int|
            0 <= k < self.n_words() && self.ranked_letters(k) != g && #[trigger] self.ranked_text(k) == w.word@
                && w.info == word_info(self.tables_view().0, self.ranked_letters(k), part)
        &&& forall|k: int|
            0 <= k < self.n_words() && #[trigger] self.ranked_letters(k) != g ==> word_info(
                self.tables_view().0,
                self.ranked_letters(k),
                part,
            ) <= w.info
    }

    /// The word other than `g` with the most information against the answers
    /// `sub`, the first in rank order among equals.
    fn best_for(&self, sub: &Vec<AugmentedAnswer>, g: &Vec<u8>) -> (r: Option<AugmentedWord>)
        requires
            self.wf(),
            all_wf(sub@),
            sub@.len() <= self.answers_view().len(),
        ensures
            r is None <==> forall|k: int| 0 <= k < self.n_words() ==> #[trigger] self.ranked_letters(k) == g@,
            r matches Some(w) ==> self.best_against(w, g@, letters_of(sub@)),
    {
        let ghost part = letters_of(sub@);
        proof {
            assert forall|i: int| 0 <= i < part.len() implies is_word(#[trigger] part[i]) by {
                assert(sub@[i].wf());
            }
        }
        let table = build_answers_table(sub.as_slice());
        let n = self.order.len();
        let mut best: Option<AugmentedWord> = None;
        let mut k: usize = 0;
        while k < n
            invariant
                self.wf(),
                n == self.n_words(),
                part == letters_of(sub@),
                all_are_words(part),
                part.len() <= self.answers_view().len(),
                table_of(table, part),
                k <= n,
                best is None <==> forall|j: int| 0 <= j < k ==> #[trigger] self.ranked_letters(j) == g@,
                best matches Some(w) ==> (exists|j: int|
                    0 <= j < k && self.ranked_letters(j) != g@ && #[trigger] self.ranked_text(j) == w.word@
                        && w.info == word_info(self.tables_view().0, self.ranked_letters(j), part)),
                best matches Some(w) ==> forall|j: int|
                    0 <= j < k && #[trigger] self.ranked_letters(j) != g@ ==> word_info(
                        self.tables_view().0,
                        self.ranked_letters(j),
                        part,
                    ) <= w.info,
            decreases n - k,
        {
            let c = &self.all_words[self.order[k]];
            assert(candidate_ok(*c, self.answers_view(), self.tables.exact_view()));
            assert(self.ranked_letters(k as int) == c.letters@);
            if !same_letters(&c.letters, g) {
                let l = c.letters.clone();
                assert(l@ =~= c.letters@);
                let s = score(c.word.clone(), l, &table, &self.tables, Ghost(part));
                let better = match &best {
                    None => true,
                    Some(w) => s.info > w.info,
                };
                if better {
                    best = Some(AugmentedWord { word: s.word, info: s.info });
                    assert(self.ranked_text(k as int) == c.word@);
                }
            }
            k = k + 1;
        }
        best
    }

    /// For each number of letters shared with `first_word` (0 to 5), the
    /// answers that share that many (a partition of the answers), the best
    /// next guess for them: the answer itself when it is alone, else the
    /// word with the most information against them; `None` when no answer
    /// shares that many.
    pub fn best_conditional_second(&self, first_word: &str) -> (r: Result<Vec<Option<(AugmentedWord, usize)>>, WordError>)
        requires
            self.wf(),
        ensures
            r is Ok <==> is_word_text(first_word@),
            r matches Ok(v) ==> v@.len() == 6 && forall|i: int| 0 <= i < 6 ==> self.conditional_ok(
                #[trigger] v@[i],
                text_bytes(first_word@),
                i as nat,
            ),
    {
        let g = match word_letters(first_word) {
            Ok(v) => v,
            Err(e) => return Err(e),
        };
        let mut rv: Vec<Option<(AugmentedWord, usize)>> = Vec::new();
        let mut hits: usize = 0;
        while hits < 6
            invariant
                self.wf(),
                is_word(g@),
                g@ == text_bytes(first_word@),
                hits <= 6,
                rv@.len() == hits,
                forall|i: int| 0 <= i < hits ==> self.conditional_ok(#[trigger] rv@[i], g@, i as nat),
            decreases 6 - hits,
        {
            let mut keep: Vec<bool> = Vec::new();
            let mut i: usize = 0;
            while i < self.aug_answers.len()
                invariant
                    self.wf(),
                    is_word(g@),
                    i <= self.aug_answers@.len(),
                    keep@.len() == i,
                    forall|j: int| 0 <= j < i ==> #[trigger] keep@[j] == cond_pred(g@, hits as nat)(self.answers_view()[j]),
                decreases self.aug_answers@.len() - i,
            {
                let a = &self.aug_answers[i];
                assert(a.wf());
                keep.push(a.hits(&g) == hits);
                i = i + 1;
            }
            proof {
                assert forall|j: int| 0 <= j < keep@.len() implies #[trigger] keep@[j] == cond_pred(g@, hits as nat)(self.aug_answers@[j]@) by {
                    assert(self.answers_view()[j] == self.aug_answers@[j]@);
                }
            }
            let sub = keep_answers(&self.aug_answers, &keep, Ghost(cond_pred(g@, hits as nat)));
            proof {
                self.answers_view().lemma_filter_len(cond_pred(g@, hits as nat));
            }
            let entry = if sub.len() == 0 {
                None
            } else if sub.len() == 1 {
                assert(sub@[0].wf());
                assert(letters_of(sub@)[0] == sub@[0]@);
                Some((AugmentedWord { word: sub[0].word_text(), info: 0 }, 1))
            } else {
                match self.best_for(&sub, &g) {
                    Some(w) => Some((w, sub.len())),
                    None => None,
                }
            };
            rv.push(entry);
            hits = hits + 1;
        }
        Ok(rv)
    }

    /// What the conditional second guess for `hits` shared letters with `g`
    /// must be.
    pub open spec fn conditional_ok(&self, o: Option<(AugmentedWord, usize)>, g: Seq<u8>, hits: nat) -> bool {
        let part = self.answers_view().filter(cond_pred(g, hits));
        &&& part.len() == 0 ==> o is None
        &&& part.len() == 1 ==> (o matches Some(p) && p.1 == 1 && p.0.info == 0 && is_word_text(p.0.word@)
            && text_bytes(p.0.word@) == part[0])
        &&& part.len() >= 2 ==> (o is None <==> forall|k: int| 0 <= k < self.n_words() ==> #[trigger] self.ranked_letters(k) == g)
        &&& part.len() >= 2 ==> (o matches Some(p) ==> p.1 == part.len() && self.best_against(p.0, g, part))
    }

}

/// The texts of scored words, in order.
spec fn texts_in(w: Seq<Candidate>) -> Seq<Seq<char>> {
    w.map_values(|c: Candidate| c.word@)
}

/// Scores the words of `old` but `guess` against the answers of the table,
/// keeping their order.
fn rescore(
    old: &Vec<Candidate>,
    guess: &Vec<u8>,
    answers_table: &AnswersTable,
    tables: &InfoTables,
    Ghost(prev): Ghost<Seq<Seq<u8>>>,
    Ghost(ans): Ghost<Seq<Seq<u8>>>,
) -> (r: Vec<Candidate>)
    requires
        forall|m: int| 0 <= m < old@.len() ==> candidate_ok(#[trigger] old@[m], prev, tables.exact_view()),
        table_of(*answers_table, ans),
        all_are_words(ans),
        ans.len() <= MAX_ANSWERS,
        tables.wf(),
        tables.exact_view().len() > ans.len(),
    ensures
        forall|j: int| 0 <= j < r@.len() ==> candidate_ok(#[trigger] r@[j], ans, tables.exact_view()),
        texts_in(r@) == texts_in(old@).filter(other_than(guess@)),
{
    let mut r: Vec<Candidate> = Vec::new();
    let mut i: usize = 0;
    while i < old.len()
        invariant
            forall|m: int| 0 <= m < old@.len() ==> candidate_ok(#[trigger] old@[m], prev, tables.exact_view()),
            table_of(*answers_table, ans),
            all_are_words(ans),
            ans.len() <= MAX_ANSWERS,
            tables.wf(),
            tables.exact_view().len() > ans.len(),
            i <= old@.len(),
            forall|j: int| 0 <= j < r@.len() ==> candidate_ok(#[trigger] r@[j], ans, tables.exact_view()),
            texts_in(r@) == texts_in(old@.take(i as int)).filter(other_than(guess@)),
        decreases old@.len() - i,
    {
        let c = &old[i];
        assert(candidate_ok(*c, prev, tables.exact_view()));
        proof {
            assert(texts_in(old@.take(i + 1)) =~= texts_in(old@.take(i as int)).push(c.word@));
            texts_in(old@.take(i as int)).lemma_filter_push(c.word@, other_than(guess@));
        }
        if !same_letters(&c.letters, guess) {
            let w = c.word.clone();
            let l = c.letters.clone();
            assert(l@ =~= c.letters@);
            let cand = score(w, l, answers_table, tables, Ghost(ans));
            r.push(cand);
            assert(texts_in(r@) =~= texts_in(old@.take(i as int)).filter(other_than(guess@)).push(c.word@));
        }
        i = i + 1;
    }
    assert(old@.take(old@.len() as int) =~= old@);
    r
}

/// Ranks scored words by information.
fn rank_candidates(w: &Vec<Candidate>) -> (order: Vec<usize>)
    requires
        forall|i: int| 0 <= i < w@.len() ==> INFO_FLOOR <= (#[trigger] w@[i]).info,
    ensures
        ranks(order@, infos_of(w@)),
{
    let mut infos: Vec<i64> = Vec::with_capacity(w.len());
    let mut i: usize = 0;
    while i < w.len()
        invariant
            i <= w@.len(),
            infos@ == infos_of(w@).take(i as int),
            forall|j: int| 0 <= j < w@.len() ==> INFO_FLOOR <= (#[trigger] w@[j]).info,
        decreases w@.len() - i,
    {
        infos.push(w[i].info);
        i = i + 1;
        assert(infos@ =~= infos_of(w@).take(i as int));
    }
    assert(infos@ =~= infos_of(w@));
    rank(&infos)
}


/// Pruning by an exact hint keeps exactly the answers that reproduce it:
/// every answer left receives `hint` from `guess`, and an answer that
/// receives it (the true answer in particular) is never removed.
pub proof fn lemma_pruned_exact_sound(ans: Seq<Seq<u8>>, guess: Seq<u8>, hint: u8, truth: Seq<u8>)
    ensures
        forall|i: int|
            0 <= i < ans.filter(hint_pred(guess, hint)).len() ==> outcome_code(
                guess,
                #[trigger] ans.filter(hint_pred(guess, hint))[i],
            ) == hint,
        ans.contains(truth) && outcome_code(guess, truth) == hint ==> ans.filter(
            hint_pred(guess, hint),
        ).contains(truth),
{
    broadcast use vstd::seq_lib::group_filter_ensures;

    let f = ans.filter(hint_pred(guess, hint));
    assert forall|i: int| 0 <= i < f.len() implies outcome_code(guess, #[trigger] f[i]) == hint by {
        assert(hint_pred(guess, hint)(f[i]));
    }
    if ans.contains(truth) && outcome_code(guess, truth) == hint {
        let j = choose|j: int| 0 <= j < ans.len() && ans[j] == truth;
        assert(hint_pred(guess, hint)(ans[j]));
    }
}

/// Guessing an answer and pruning by the all-exact hint solves the game: the
/// answer stays, and every answer left is that answer.
pub proof fn lemma_all_exact_solves(ans: Seq<Seq<u8>>, truth: Seq<u8>)
    requires
        is_word(truth),
        all_are_words(ans),
    ensures
        forall|i: int|
            0 <= i < ans.filter(hint_pred(truth, ALL_EXACT)).len() ==> #[trigger] ans.filter(
                hint_pred(truth, ALL_EXACT),
            )[i] == truth,
        ans.contains(truth) ==> ans.filter(hint_pred(truth, ALL_EXACT)).contains(truth),
{
    broadcast use vstd::seq_lib::group_filter_ensures;

    let f = ans.filter(hint_pred(truth, ALL_EXACT));
    assert forall|i: int| 0 <= i < f.len() implies #[trigger] f[i] == truth by {
        assert(hint_pred(truth, ALL_EXACT)(f[i]));
        assert(f.contains(f[i]));
        ans.lemma_filter_contains_rev(hint_pred(truth, ALL_EXACT), f[i]);
        let j = choose|j: int| 0 <= j < ans.len() && ans[j] == f[i];
        assert(is_word(ans[j]));
        lemma_all_exact_only_self(truth, f[i]);
    }
    lemma_true_answer_all_exact(truth);
    lemma_pruned_exact_sound(ans, truth, ALL_EXACT, truth);
}

/// The pairs listed above a threshold and those listed below it meet exactly
/// at the pairs whose joint information equals the threshold: a pair in both
/// lists scores the threshold, and a pair that scores it is in both (when
/// joint information is subadditive, which the list above needs).
pub proof fn lemma_threshold_lists_meet(
    e: &WordleOpt,
    t: i64,
    above: Seq<(String, String, i64)>,
    below: Seq<(String, String, i64)>,
)
    requires
        e.lists_above(t, above),
        e.lists_below(t, below),
    ensures
        forall|m1: int, m2: int, k1: int, k2: int|
            0 <= m1 < above.len() && 0 <= m2 < below.len() && #[trigger] e.names(above[m1], k1, k2)
                && #[trigger] e.names(below[m2], k1, k2) ==> e.joint(k1, k2) == t,
        e.subadditive() ==> forall|k1: int, k2: int|
            0 <= k1 < k2 < e.n_words() && #[trigger] e.joint(k1, k2) == t ==> (exists|m: int|
                0 <= m < above.len() && e.names(above[m], k1, k2)) && (exists|m: int|
                0 <= m < below.len() && e.names(below[m], k1, k2)),
{
    assert forall|m1: int, m2: int, k1: int, k2: int|
        0 <= m1 < above.len() && 0 <= m2 < below.len() && #[trigger] e.names(above[m1], k1, k2)
            && #[trigger] e.names(below[m2], k1, k2) implies e.joint(k1, k2) == t by {
        assert(above[m1].2 >= t);
        assert(below[m2].2 <= t);
    }
}

} // verus!
