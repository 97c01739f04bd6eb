use vstd::prelude::*;
use crate::word::{AugmentedAnswer, ALPHABET, WORD_LEN, code_prefix, count_of, is_word, lemma_count_le_len, outcome_code};

verus! {

/// For each position and letter, one marker per answer: -1 where the answer
/// holds that letter at that position, else the count of that letter in the
/// answer.
pub type AnswersTable = Vec<Vec<Vec<i8>>>;

/// The letters of each answer.
pub open spec fn letters_of(answers: Seq<AugmentedAnswer>) -> Seq<Seq<u8>> {
    answers.map_values(|a: AugmentedAnswer| a@)
}

pub open spec fn all_wf(answers: Seq<AugmentedAnswer>) -> bool {
    forall|i: int| 0 <= i < answers.len() ==> (#[trigger] answers[i]).wf()
}

/// Every answer is a word.
pub open spec fn all_are_words(ans: Seq<Seq<u8>>) -> bool {
    forall|i: int| 0 <= i < ans.len() ==> is_word(#[trigger] ans[i])
}

/// The marker of answer `a` at position `p` for the letter with index `c`.
pub open spec fn marker(a: Seq<u8>, p: int, c: int) -> i8 {
    if a[p] == (c + 97) as u8 {
        -1i8
    } else {
        count_of(a, (c + 97) as u8) as i8
    }
}

/// Five rows of 26 columns, each of `n` markers in -1..=5.
pub open spec fn table_shape(t: AnswersTable, n: nat) -> bool {
    &&& t@.len() == WORD_LEN
    &&& forall|p: int| 0 <= p < WORD_LEN ==> (#[trigger] t@[p])@.len() == ALPHABET
    &&& forall|p: int, c: int|
        0 <= p < WORD_LEN && 0 <= c < ALPHABET ==> (#[trigger] t@[p]@[c])@.len() == n
    &&& forall|p: int, c: int, i: int|
        0 <= p < WORD_LEN && 0 <= c < ALPHABET && 0 <= i < n ==> -1 <= #[trigger] t@[p]@[c]@[i]
            <= WORD_LEN
}

/// `t` is the table of the answers `ans`.
pub open spec fn table_of(t: AnswersTable, ans: Seq<Seq<u8>>) -> bool {
    &&& table_shape(t, ans.len())
    &&& forall|p: int, c: int, i: int|
        0 <= p < WORD_LEN && 0 <= c < ALPHABET && 0 <= i < ans.len() ==> #[trigger] t@[p]@[c]@[i]
            == marker(ans[i], p, c)
}

/// The ternary digit that the table gives for answer `i` at position `p` of `g`.
pub open spec fn table_digit(t: AnswersTable, g: Seq<u8>, i: int, p: int) -> nat {
    let v = t@[p]@[g[p] - 97]@[i];
    if v == -1 {
        2
    } else if v >= count_of(g.take(p + 1), g[p]) {
        1
    } else {
        0
    }
}

pub open spec fn table_code_prefix(t: AnswersTable, g: Seq<u8>, i: int, n: nat) -> nat
    decreases n,
{
    if n == 0 {
        0
    } else {
        table_code_prefix(t, g, i, (n - 1) as nat) * 3 + table_digit(t, g, i, n - 1)
    }
}

/// The hint of `g` for answer `i`, read from the table.
pub open spec fn table_code(t: AnswersTable, g: Seq<u8>, i: int) -> nat {
    table_code_prefix(t, g, i, WORD_LEN as nat)
}

/// The hints of `g` against every answer, in order.
pub open spec fn raw_outcomes(g: Seq<u8>, ans: Seq<Seq<u8>>) -> Seq<u8> {
    Seq::new(ans.len(), |i: int| outcome_code(g, ans[i]) as u8)
}

proof fn lemma_table_code_prefix(t: AnswersTable, ans: Seq<Seq<u8>>, g: Seq<u8>, i: int, n: nat)
    requires
        table_of(t, ans),
        all_are_words(ans),
        is_word(g),
        0 <= i < ans.len(),
        n <= WORD_LEN,
    ensures
        table_code_prefix(t, g, i, n) == code_prefix(g, ans[i], n),
    decreases n,
{
    if n > 0 {
        lemma_table_code_prefix(t, ans, g, i, (n - 1) as nat);
        let p = n - 1;
        let c = g[p] - 97;
        assert(t@[p]@[c]@[i] == marker(ans[i], p, c));
        assert((c + 97) as u8 == g[p]);
        lemma_count_le_len(ans[i], g[p]);
    }
}

/// Reading the hints from the table of the answers gives the hints of the game.
pub proof fn lemma_table_code(t: AnswersTable, ans: Seq<Seq<u8>>, g: Seq<u8>, i: int)
    requires
        table_of(t, ans),
        all_are_words(ans),
        is_word(g),
        0 <= i < ans.len(),
    ensures
        table_code(t, g, i) == outcome_code(g, ans[i]),
{
    lemma_table_code_prefix(t, ans, g, i, WORD_LEN as nat);
}

/// Builds the table of the answers.
pub fn build_answers_table(answers: &[AugmentedAnswer]) -> (r: AnswersTable)
    requires
        all_wf(answers@),
    ensures
        table_of(r, letters_of(answers@)),
{
    let ghost ans = letters_of(answers@);
    let n = answers.len();
    let mut rv: AnswersTable = Vec::new();
    let mut pos: usize = 0;
    while pos < WORD_LEN
        invariant
            all_wf(answers@),
            ans == letters_of(answers@),
            n == answers@.len(),
            pos <= WORD_LEN,
            rv@.len() == pos,
            forall|p: int| 0 <= p < pos ==> (#[trigger] rv@[p])@.len() == ALPHABET,
            forall|p: int, c: int|
                0 <= p < pos && 0 <= c < ALPHABET ==> (#[trigger] rv@[p]@[c])@.len() == n,
            forall|p: int, c: int, i: int|
                0 <= p < pos && 0 <= c < ALPHABET && 0 <= i < n ==> #[trigger] rv@[p]@[c]@[i]
                    == marker(ans[i], p, c),
        decreases WORD_LEN - pos,
    {
        let mut row: Vec<Vec<i8>> = Vec::new();
        let mut letter: usize = 0;
        while letter < ALPHABET
            invariant
                all_wf(answers@),
                ans == letters_of(answers@),
                n == answers@.len(),
                pos < WORD_LEN,
                letter <= ALPHABET,
                row@.len() == letter,
                forall|c: int| 0 <= c < letter ==> (#[trigger] row@[c])@.len() == n,
                forall|c: int, i: int|
                    0 <= c < letter && 0 <= i < n ==> #[trigger] row@[c]@[i] == marker(
                        ans[i],
                        pos as int,
                        c,
                    ),
            decreases ALPHABET - letter,
        {
            let ch: u8 = letter as u8 + 97;
            let mut column: Vec<i8> = Vec::with_capacity(n);
            let mut k: usize = 0;
            while k < n
                invariant
                    all_wf(answers@),
                    ans == letters_of(answers@),
                    n == answers@.len(),
                    pos < WORD_LEN,
                    letter < ALPHABET,
                    ch == (letter + 97) as u8,
                    column@.len() == k,
                    k <= n,
                    forall|i: int|
                        0 <= i < k ==> #[trigger] column@[i] == marker(ans[i], pos as int, letter as int),
                decreases n - k,
            {
                let a = &answers[k];
                assert(a.wf());
                let m: i8 = if a.letters()[pos] == ch {
                    -1
                } else {
                    a.count(letter) as i8
                };
                column.push(m);
                k = k + 1;
            }
            row.push(column);
            letter = letter + 1;
        }
        rv.push(row);
        pos = pos + 1;
    }
    proof {
        assert forall|p: int, c: int, i: int|
            0 <= p < WORD_LEN && 0 <= c < ALPHABET && 0 <= i < n implies -1 <= #[trigger] rv@[p]@[
            c]@[i] <= WORD_LEN by {
            lemma_count_le_len(ans[i], (c + 97) as u8);
        }
    }
    rv
}

} // verus!
