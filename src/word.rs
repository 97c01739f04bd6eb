use vstd::prelude::*;

verus! {

/// Number of letters in every word.
pub const WORD_LEN: usize = 5;

/// Number of letters in the alphabet.
pub const ALPHABET: usize = 26;

/// The code of the hint in which every position is an exact match (3^5 - 1).
pub const ALL_EXACT: u8 = 242;

/// Why a piece of text is not a word of the game.
#[derive(Debug, Clone, Copy, PartialEq, Eq, Structural)]
pub enum WordError {
    /// The text does not have exactly five characters.
    WrongLength,
    /// Some character is not a lowercase ASCII letter.
    NotLowercase,
}

pub open spec fn is_lower_char(c: char) -> bool {
    ('a' as u32) <= (c as u32) <= ('z' as u32)
}

/// The text is five lowercase ASCII letters.
pub open spec fn is_word_text(s: Seq<char>) -> bool {
    &&& s.len() == WORD_LEN
    &&& forall|i: int| 0 <= i < s.len() ==> is_lower_char(#[trigger] s[i])
}

pub open spec fn is_letter(b: u8) -> bool {
    97 <= b <= 122
}

/// Five lowercase letters, as bytes.
pub open spec fn is_word(w: Seq<u8>) -> bool {
    &&& w.len() == WORD_LEN
    &&& forall|i: int| 0 <= i < w.len() ==> is_letter(#[trigger] w[i])
}

/// The bytes of a text made of ASCII characters.
pub open spec fn text_bytes(s: Seq<char>) -> Seq<u8> {
    Seq::new(s.len(), |i: int| s[i] as u32 as u8)
}

/// How many times `c` occurs in `w`.
pub open spec fn count_of(w: Seq<u8>, c: u8) -> nat
    decreases w.len(),
{
    if w.len() == 0 {
        0
    } else {
        count_of(w.drop_last(), c) + if w.last() == c {
            1nat
        } else {
            0nat
        }
    }
}

/// Position `p` of guess `g` is credited as present in answer `a`: the letter
/// occurs in `g` up to `p` no more often than it occurs in `a`.
pub open spec fn credited(g: Seq<u8>, a: Seq<u8>, p: int) -> bool {
    count_of(g.take(p + 1), g[p]) <= count_of(a, g[p])
}

/// The ternary digit of the hint at position `p`: 2 exact, 1 present
/// elsewhere, 0 absent.
pub open spec fn digit(g: Seq<u8>, a: Seq<u8>, p: int) -> nat {
    if g[p] == a[p] {
        2
    } else if credited(g, a, p) {
        1
    } else {
        0
    }
}

/// The base-3 number made of the first `n` digits, most significant first.
pub open spec fn code_prefix(g: Seq<u8>, a: Seq<u8>, n: nat) -> nat
    decreases n,
{
    if n == 0 {
        0
    } else {
        code_prefix(g, a, (n - 1) as nat) * 3 + digit(g, a, n - 1)
    }
}

/// The hint that guess `g` receives when the answer is `a`.
pub open spec fn outcome_code(g: Seq<u8>, a: Seq<u8>) -> nat {
    code_prefix(g, a, g.len())
}

/// Number of positions of `g`, among the first `n`, that are credited in `a`.
pub open spec fn hits_prefix(g: Seq<u8>, a: Seq<u8>, n: nat) -> nat
    decreases n,
{
    if n == 0 {
        0
    } else {
        hits_prefix(g, a, (n - 1) as nat) + if credited(g, a, n - 1) {
            1nat
        } else {
            0nat
        }
    }
}

/// Letters of `g` shared with `a`, repeats counted up to their number in `a`.
pub open spec fn hits_of(g: Seq<u8>, a: Seq<u8>) -> nat {
    hits_prefix(g, a, g.len())
}

pub open spec fn greens_prefix(g: Seq<u8>, a: Seq<u8>, n: nat) -> nat
    decreases n,
{
    if n == 0 {
        0
    } else {
        greens_prefix(g, a, (n - 1) as nat) + if g[n - 1] == a[n - 1] {
            1nat
        } else {
            0nat
        }
    }
}

/// Positions where `g` and `a` hold the same letter.
pub open spec fn greens_of(g: Seq<u8>, a: Seq<u8>) -> nat {
    greens_prefix(g, a, g.len())
}

pub open spec fn yellows_prefix(g: Seq<u8>, a: Seq<u8>, n: nat) -> nat
    decreases n,
{
    if n == 0 {
        0
    } else {
        yellows_prefix(g, a, (n - 1) as nat) + if g[n - 1] != a[n - 1] && credited(g, a, n - 1) {
            1nat
        } else {
            0nat
        }
    }
}

/// Positions that are not exact but are credited as present elsewhere.
pub open spec fn yellows_of(g: Seq<u8>, a: Seq<u8>) -> nat {
    yellows_prefix(g, a, g.len())
}

/// The letter counts of `w`, indexed by letter.
pub open spec fn counts_of(w: Seq<u8>) -> Seq<u8> {
    Seq::new(ALPHABET as nat, |c: int| count_of(w, (c + 97) as u8) as u8)
}

pub proof fn lemma_count_take_step(w: Seq<u8>, i: int, c: u8)
    requires
        0 <= i < w.len(),
    ensures
        count_of(w.take(i + 1), c) == count_of(w.take(i), c) + if w[i] == c {
            1nat
        } else {
            0nat
        },
{
    assert(w.take(i + 1).drop_last() =~= w.take(i));
}

/// Taking one more letter of `w` moves on the count of that letter only.
pub proof fn lemma_counts_step(w: Seq<u8>, i: int)
    requires
        0 <= i < w.len(),
        is_letter(w[i]),
    ensures
        forall|c: int|
            0 <= c < ALPHABET ==> #[trigger] count_of(w.take(i + 1), (c + 97) as u8) == count_of(
                w.take(i),
                (c + 97) as u8,
            ) + if c == w[i] - 97 {
                1nat
            } else {
                0nat
            },
{
    assert forall|c: int| 0 <= c < ALPHABET implies #[trigger] count_of(
        w.take(i + 1),
        (c + 97) as u8,
    ) == count_of(w.take(i), (c + 97) as u8) + if c == w[i] - 97 {
        1nat
    } else {
        0nat
    } by {
        lemma_count_take_step(w, i, (c + 97) as u8);
    }
}

pub proof fn lemma_count_le_len(w: Seq<u8>, c: u8)
    ensures
        count_of(w, c) <= w.len(),
    decreases w.len(),
{
    if w.len() > 0 {
        lemma_count_le_len(w.drop_last(), c);
    }
}

/// The hint a word receives against itself is the all-exact hint: every digit
/// is an exact match.
pub proof fn lemma_true_answer_all_exact(a: Seq<u8>)
    requires
        is_word(a),
    ensures
        outcome_code(a, a) == ALL_EXACT,
{
    reveal_with_fuel(code_prefix, 6);
    assert(code_prefix(a, a, 1) == 2);
    assert(code_prefix(a, a, 2) == 8);
    assert(code_prefix(a, a, 3) == 26);
    assert(code_prefix(a, a, 4) == 80);
    assert(code_prefix(a, a, 5) == 242);
}

proof fn lemma_code_prefix_le(g: Seq<u8>, a: Seq<u8>, n: nat)
    requires
        n <= g.len(),
    ensures
        code_prefix(g, a, n) <= max_code(n),
    decreases n,
{
    if n > 0 {
        lemma_code_prefix_le(g, a, (n - 1) as nat);
    }
}

proof fn lemma_max_code_digits(g: Seq<u8>, a: Seq<u8>, n: nat)
    requires
        n <= g.len(),
        n <= a.len(),
        code_prefix(g, a, n) == max_code(n),
    ensures
        forall|p: int| 0 <= p < n ==> g[p] == a[p],
    decreases n,
{
    if n > 0 {
        lemma_code_prefix_le(g, a, (n - 1) as nat);
        assert(digit(g, a, n - 1) == 2);
        assert(code_prefix(g, a, (n - 1) as nat) == max_code((n - 1) as nat));
        lemma_max_code_digits(g, a, (n - 1) as nat);
    }
}

/// Only the answer itself gives a guess the all-exact hint.
pub proof fn lemma_all_exact_only_self(g: Seq<u8>, a: Seq<u8>)
    requires
        is_word(g),
        is_word(a),
        outcome_code(g, a) == ALL_EXACT,
    ensures
        g == a,
{
    reveal_with_fuel(max_code, 6);
    lemma_max_code_digits(g, a, 5);
    assert(g =~= a);
}

/// Reads a word of the game: five lowercase ASCII letters, as their bytes.
pub fn word_letters(s: &str) -> (r: Result<Vec<u8>, WordError>)
    ensures
        match r {
            Ok(v) => is_word_text(s@) && v@ == text_bytes(s@),
            Err(e) => !is_word_text(s@) && (e == WordError::WrongLength <==> s@.len()
                != WORD_LEN),
        },
{
    let n = s.unicode_len();
    if n != WORD_LEN {
        return Err(WordError::WrongLength);
    }
    let mut v: Vec<u8> = Vec::new();
    let mut i: usize = 0;
    while i < n
        invariant
            n == s@.len() == WORD_LEN,
            i <= n,
            v@.len() == i,
            forall|j: int| 0 <= j < i ==> is_lower_char(#[trigger] s@[j]),
            forall|j: int| 0 <= j < i ==> #[trigger] v@[j] == s@[j] as u32 as u8,
        decreases n - i,
    {
        let c = s.get_char(i);
        if !('a' <= c && c <= 'z') {
            return Err(WordError::NotLowercase);
        }
        v.push(c as u32 as u8);
        i = i + 1;
    }
    assert(v@ =~= text_bytes(s@));
    Ok(v)
}


/// The largest code of a hint over `n` positions, 3^n - 1.
pub open spec fn max_code(n: nat) -> nat
    decreases n,
{
    if n == 0 {
        0
    } else {
        max_code((n - 1) as nat) * 3 + 2
    }
}

/// A table of 26 zero counts.
fn zero_counts() -> (r: Vec<u8>)
    ensures
        r@.len() == ALPHABET,
        forall|c: int| 0 <= c < ALPHABET ==> #[trigger] r@[c] == 0,
{
    let mut r: Vec<u8> = Vec::new();
    let mut i: usize = 0;
    while i < ALPHABET
        invariant
            i <= ALPHABET,
            r@.len() == i,
            forall|c: int| 0 <= c < i ==> #[trigger] r@[c] == 0,
        decreases ALPHABET - i,
    {
        r.push(0);
        i = i + 1;
    }
    r
}

/// An answer with the letter counts that scoring a guess against it needs.
#[derive(Debug)]
pub struct AugmentedAnswer {
    pub word: String,
    pub letters: Vec<u8>,
    pub counts: Vec<u8>,
}

impl AugmentedAnswer {
    /// The answer is a word and its counts are those of its letters.
    pub open spec fn wf(&self) -> bool {
        &&& is_word(self@)
        &&& self.counts_view() == counts_of(self@)
        &&& is_word_text(self.text())
        &&& self@ == text_bytes(self.text())
    }

    /// The text of the answer.
    pub open spec fn text(&self) -> Seq<char> {
        self.word@
    }

    /// The letter counts that the answer keeps.
    pub open spec fn counts_view(&self) -> Seq<u8> {
        self.counts@
    }

    /// The letters of the answer.
    pub open spec fn view(&self) -> Seq<u8> {
        self.letters@
    }

    pub fn new(word: &str) -> (r: Result<Self, WordError>)
        ensures
            match r {
                Ok(a) => a.wf() && is_word_text(word@) && a@ == text_bytes(word@) && a.text()
                    == word@,
                Err(e) => !is_word_text(word@) && (e == WordError::WrongLength <==> word@.len()
                    != WORD_LEN),
            },
    {
        let letters = match word_letters(word) {
            Ok(v) => v,
            Err(e) => return Err(e),
        };
        let mut counts = zero_counts();
        let mut i: usize = 0;
        while i < WORD_LEN
            invariant
                is_word(letters@),
                i <= WORD_LEN,
                counts@.len() == ALPHABET,
                forall|c: int|
                    0 <= c < ALPHABET ==> #[trigger] counts@[c] == count_of(
                        letters@.take(i as int),
                        (c + 97) as u8,
                    ),
            decreases WORD_LEN - i,
        {
            let b = letters[i];
            let idx = (b - 97) as usize;
            proof {
                lemma_counts_step(letters@, i as int);
                lemma_count_le_len(letters@.take(i as int), b);
            }
            let old_count = counts[idx];
            counts.set(idx, old_count + 1);
            i = i + 1;
        }
        assert(letters@.take(5) =~= letters@);
        assert(counts@ =~= counts_of(letters@));
        Ok(AugmentedAnswer { word: word.to_owned(), letters, counts })
    }

    /// The count of each letter in the answer, indexed from 'a'.
    pub fn counts(&self) -> (r: Vec<u8>)
        requires
            self.wf(),
        ensures
            r@ == counts_of(self@),
    {
        let r = self.counts.clone();
        assert(r@ =~= self.counts@);
        r
    }

    /// How many times the letter with index `c` (from 'a') occurs in the answer.
    pub fn count(&self, c: usize) -> (r: u8)
        requires
            self.wf(),
            c < ALPHABET,
        ensures
            r == count_of(self@, (c + 97) as u8),
    {
        proof {
            lemma_count_le_len(self@, (c + 97) as u8);
        }
        self.counts[c]
    }

    /// A copy of the answer.
    pub fn duplicate(&self) -> (r: Self)
        ensures
            r@ == self@,
            r.text() == self.text(),
            r.counts_view() == self.counts_view(),
    {
        let letters = self.letters.clone();
        let counts = self.counts.clone();
        assert(letters@ =~= self.letters@);
        assert(counts@ =~= self.counts@);
        AugmentedAnswer { word: self.word.clone(), letters, counts }
    }

    /// The text of the answer.
    pub fn word_text(&self) -> (r: String)
        ensures
            r@ == self.text(),
    {
        self.word.clone()
    }

    /// The letters of the answer, as bytes.
    pub fn letters(&self) -> (r: &Vec<u8>)
        ensures
            r@ == self@,
    {
        &self.letters
    }

    /// Letters of `guess` found in the answer, a repeated letter counted only
    /// as often as the answer holds it.
    pub fn hits(&self, guess: &Vec<u8>) -> (r: usize)
        requires
            self.wf(),
            is_word(guess@),
        ensures
            r == hits_of(guess@, self@),
    {
        let mut total: usize = 0;
        let mut tally = zero_counts();
        let mut p: usize = 0;
        while p < WORD_LEN
            invariant
                self.wf(),
                is_word(guess@),
                p <= WORD_LEN,
                total == hits_prefix(guess@, self@, p as nat),
                total <= p,
                tally@.len() == ALPHABET,
                forall|c: int|
                    0 <= c < ALPHABET ==> #[trigger] tally@[c] == count_of(
                        guess@.take(p as int),
                        (c + 97) as u8,
                    ),
            decreases WORD_LEN - p,
        {
            let g = guess[p];
            let idx = (g - 97) as usize;
            proof {
                self.lemma_tally_step(guess@, p as int);
            }
            let t = tally[idx] + 1;
            tally.set(idx, t);
            if t <= self.counts[idx] {
                total = total + 1;
            }
            p = p + 1;
        }
        total
    }

    /// The hint that `guess` receives when this is the answer.
    pub fn outcome(&self, guess: &Vec<u8>) -> (r: u8)
        requires
            self.wf(),
            is_word(guess@),
        ensures
            r == outcome_code(guess@, self@),
    {
        let mut rv: u8 = 0;
        let mut tally = zero_counts();
        let mut p: usize = 0;
        while p < WORD_LEN
            invariant
                self.wf(),
                is_word(guess@),
                p <= WORD_LEN,
                rv == code_prefix(guess@, self@, p as nat),
                rv <= max_code(p as nat),
                tally@.len() == ALPHABET,
                forall|c: int|
                    0 <= c < ALPHABET ==> #[trigger] tally@[c] == count_of(
                        guess@.take(p as int),
                        (c + 97) as u8,
                    ),
            decreases WORD_LEN - p,
        {
            let g = guess[p];
            let idx = (g - 97) as usize;
            proof {
                self.lemma_tally_step(guess@, p as int);
                reveal_with_fuel(max_code, 6);
            }
            let t = tally[idx] + 1;
            tally.set(idx, t);
            let d: u8 = if g == self.letters[p] {
                2
            } else if t <= self.counts[idx] {
                1
            } else {
                0
            };
            rv = rv * 3 + d;
            p = p + 1;
        }
        rv
    }

    /// Positions of `guess` that hold a letter of the answer elsewhere, a
    /// repeated letter counted only as often as the answer holds it.
    pub fn yellows(&self, guess: &Vec<u8>) -> (r: u8)
        requires
            self.wf(),
            is_word(guess@),
        ensures
            r == yellows_of(guess@, self@),
    {
        let mut rv: u8 = 0;
        let mut tally = zero_counts();
        let mut p: usize = 0;
        while p < WORD_LEN
            invariant
                self.wf(),
                is_word(guess@),
                p <= WORD_LEN,
                rv == yellows_prefix(guess@, self@, p as nat),
                rv <= p,
                tally@.len() == ALPHABET,
                forall|c: int|
                    0 <= c < ALPHABET ==> #[trigger] tally@[c] == count_of(
                        guess@.take(p as int),
                        (c + 97) as u8,
                    ),
            decreases WORD_LEN - p,
        {
            let g = guess[p];
            let idx = (g - 97) as usize;
            proof {
                self.lemma_tally_step(guess@, p as int);
            }
            let t = tally[idx] + 1;
            tally.set(idx, t);
            if g != self.letters[p] && t <= self.counts[idx] {
                rv = rv + 1;
            }
            p = p + 1;
        }
        rv
    }

    /// Positions where `guess` holds the answer's own letter.
    pub fn greens(&self, guess: &Vec<u8>) -> (r: u8)
        requires
            self.wf(),
            is_word(guess@),
        ensures
            r == greens_of(guess@, self@),
    {
        let mut rv: u8 = 0;
        let mut p: usize = 0;
        while p < WORD_LEN
            invariant
                self.wf(),
                is_word(guess@),
                p <= WORD_LEN,
                rv == greens_prefix(guess@, self@, p as nat),
                rv <= p,
            decreases WORD_LEN - p,
        {
            if guess[p] == self.letters[p] {
                rv = rv + 1;
            }
            p = p + 1;
        }
        rv
    }

    /// Counting the letter at position `p` of `g` moves the tally of that
    /// letter on by one, and that tally decides whether `p` is credited.
    proof fn lemma_tally_step(&self, g: Seq<u8>, p: int)
        requires
            self.wf(),
            is_word(g),
            0 <= p < WORD_LEN,
        ensures
            forall|c: int|
                0 <= c < ALPHABET ==> #[trigger] count_of(g.take(p + 1), (c + 97) as u8)
                    == count_of(g.take(p), (c + 97) as u8) + if c == g[p] - 97 {
                    1nat
                } else {
                    0nat
                },
            count_of(g.take(p), g[p]) < WORD_LEN,
            self.counts@[g[p] - 97] == count_of(self@, g[p]),
            ((g[p] - 97) + 97) as u8 == g[p],
    {
        lemma_counts_step(g, p);
        lemma_count_le_len(g.take(p), g[p]);
        lemma_count_le_len(self.letters@, g[p]);
    }
}

} // verus!
