use wordle_opt::{
    bucket_label, bucket_two, fast_info, info, string_to_outcome, word_letters, AugmentedAnswer,
    EngineError, InfoTables, Outcomes, Outcomes2, WordError, WordleOpt,
};

const SCALE: f64 = 1048576.0;

fn log_table(n: usize) -> Vec<i64> {
    (0..=n)
        .map(|k| {
            if k < 2 {
                0
            } else {
                ((k as f64) * (k as f64).log2() * SCALE).round() as i64
            }
        })
        .collect()
}

fn tables(n: usize) -> InfoTables {
    InfoTables::new(log_table(n), log_table(n), 0).unwrap()
}

fn bits(score: i64, answers: usize) -> f64 {
    score as f64 / (answers as f64 * SCALE)
}

fn letters(w: &str) -> Vec<u8> {
    word_letters(w).unwrap()
}

const ANSWERS: [&str; 8] = ["brass", "arose", "allay", "admit", "abide", "blimp", "crane", "slate"];
const WORDS: [&str; 3] = ["soare", "tares", "pious"];

fn engine() -> WordleOpt {
    WordleOpt::new(&WORDS, &ANSWERS, tables(ANSWERS.len())).unwrap()
}

fn answer_words(e: &WordleOpt) -> Vec<String> {
    e.answers().iter().map(|a| a.word.clone()).collect()
}

#[test]
fn true_answer_gets_all_exact_hint() {
    for w in ANSWERS {
        let a = AugmentedAnswer::new(w).unwrap();
        assert_eq!(a.outcome(&letters(w)), 242);
    }
}

#[test]
fn outcome_counts_repeated_letters() {
    let a = AugmentedAnswer::new("brass").unwrap();
    // s o a r e against brass: s present, o absent, a exact, r present, e absent
    assert_eq!(a.outcome(&letters("soare")), 81 + 0 + 18 + 3 + 0);
    // s s s s s against brass: the tally of s runs left to right, so the
    // first two are credited as present, the third is not, the last two are exact
    assert_eq!(a.outcome(&letters("sssss")), 81 + 27 + 2 * 3 + 2);
    assert_eq!(a.hits(&letters("soare")), 3);
    assert_eq!(a.greens(&letters("soare")), 1);
    assert_eq!(a.yellows(&letters("soare")), 2);
    assert_eq!(a.hits(&letters("sssss")), 2);
}

#[test]
fn compression_keeps_partition() {
    let o = Outcomes::new(vec![5, 7, 5, 200, 7]);
    assert_eq!(o.outcomes(), &vec![0, 1, 0, 2, 1]);
    assert_eq!(o.max(), 3);
    let empty = Outcomes::new(vec![]);
    assert_eq!(empty.max(), 0);
}

#[test]
fn bucket_counts_labels() {
    let o = Outcomes::new(vec![9, 9, 4, 9]);
    let b = o.bucket();
    assert_eq!(b.len(), 243);
    assert_eq!(b[0], 3);
    assert_eq!(b[1], 1);
    assert_eq!(b[2], 0);
}

#[test]
fn joint_histograms() {
    let a = Outcomes::new(vec![1, 1, 2, 2]);
    let b = Outcomes::new(vec![3, 4, 3, 3]);
    let mut buckets = vec![7u16; 10];
    bucket_two(&a, &b, &mut buckets);
    assert_eq!(buckets, vec![1, 1, 2, 0]);
    let ab = Outcomes2::new(&a, &b);
    let c = Outcomes::new(vec![0, 0, 0, 1]);
    wordle_opt::bucket_three(&ab, &c, &mut buckets);
    assert_eq!(buckets, vec![1, 0, 1, 0, 1, 1]);
}

#[test]
fn info_of_even_split_is_one_bit() {
    let t = log_table(4);
    assert_eq!(info(&t, &vec![2, 2]), 4 * 1048576);
    assert_eq!(info(&t, &vec![1, 1, 0, 1, 1]), 8 * 1048576);
    assert_eq!(info(&t, &vec![0, 4, 0]), 0);
    assert_eq!(info(&t, &vec![]), 0);
}

#[test]
fn information_is_never_negative() {
    let t = log_table(12);
    for h in [vec![12], vec![1; 12], vec![5, 0, 7], vec![2, 3, 3, 4], vec![]] {
        assert!(info(&t, &h) >= 0);
    }
}

#[test]
fn joint_information_refines() {
    let e = engine();
    let words = e.all_words();
    for (a, b, h) in e.pairs_above_threshold(i64::MIN) {
        let ia = words.iter().find(|w| w.word == a).unwrap().info;
        let ib = words.iter().find(|w| w.word == b).unwrap().info;
        assert!(h >= ia && h >= ib);
    }
}

#[test]
fn info_ignores_bucket_labels() {
    let t = log_table(10);
    let h1 = vec![3, 0, 5, 2];
    let h2 = vec![5, 2, 0, 3];
    assert_eq!(info(&t, &h1), info(&t, &h2));
}

#[test]
fn fast_info_stays_within_error() {
    let exact = log_table(10);
    let fast: Vec<i64> = exact
        .iter()
        .enumerate()
        .map(|(n, v)| if n < 2 { *v } else { v + (n as i64) * 3 })
        .collect();
    assert!(InfoTables::new(exact.clone(), fast.clone(), 2).is_none());
    assert!(InfoTables::new(exact.clone(), fast.clone(), 3).is_some());
    let h = vec![4, 1, 5];
    let d = fast_info(&exact, &fast, &h) - info(&exact, &h);
    assert!(d.abs() <= 10 * 3);
    assert_eq!(d, -(4 * 3 + 5 * 3));
}

#[test]
fn tables_are_checked() {
    assert!(InfoTables::new(vec![0, 0], vec![0], 0).is_none());
    assert!(InfoTables::new(vec![0, 5, 9], vec![0, 5, 9], 0).is_none());
    assert!(InfoTables::new(vec![3, 0], vec![3, 0], 0).is_none());
    // not convex: the step from 2 to 3 falls
    assert!(InfoTables::new(vec![0, 0, 5, 0], vec![0, 0, 5, 0], 0).is_none());
    assert!(InfoTables::new(log_table(40), log_table(40), 0).is_some());
    assert!(InfoTables::new(vec![0, -1], vec![0, -1], 0).is_none());
    assert!(InfoTables::new(vec![0, 0], vec![0, 0], -1).is_none());
}

#[test]
fn two_word_scenario() {
    let answers = ["abide", "blimp"];
    let e = WordleOpt::new(&[], &answers, tables(2)).unwrap();
    let words = e.all_words();
    assert_eq!(words.len(), 2);
    assert_eq!(bits(words[0].info, 2), 1.0);
    let abide = letters("abide");
    for a in e.answers() {
        let hint = a.outcome(&abide);
        let p = e.pruned_exact("abide", hint).unwrap();
        assert_eq!(p.answers().len(), 1);
        assert_eq!(p.answers()[0].word, a.word);
    }
}

#[test]
fn guessing_the_answer_solves() {
    let e = engine();
    for w in ANSWERS {
        let p = e.pruned_exact(w, 242).unwrap();
        assert_eq!(answer_words(&p), vec![w.to_string()]);
    }
}

#[test]
fn pruning_keeps_matching_answers() {
    let e = engine();
    let soare = letters("soare");
    let truth = AugmentedAnswer::new("crane").unwrap();
    let hint = truth.outcome(&soare);
    let p = e.pruned_exact("soare", hint).unwrap();
    assert!(answer_words(&p).contains(&"crane".to_string()));
    for a in p.answers() {
        assert_eq!(a.outcome(&soare), hint);
    }
    assert!(p.all_words().iter().all(|w| w.word != "soare"));
    assert_eq!(p.all_words().len(), e.all_words().len() - 1);
}

#[test]
fn pruning_by_hits_and_counts() {
    let e = engine();
    let soare = letters("soare");
    let p = e.pruned("soare", 3).unwrap();
    for a in p.answers() {
        assert_eq!(a.hits(&soare), 3);
    }
    let expected: Vec<String> = ANSWERS
        .iter()
        .filter(|w| AugmentedAnswer::new(w).unwrap().hits(&soare) == 3)
        .map(|w| w.to_string())
        .collect();
    assert_eq!(answer_words(&p), expected);
    let q = e.pruned_2("soare", 2, 1).unwrap();
    for a in q.answers() {
        assert_eq!(a.yellows(&soare), 2);
        assert_eq!(a.greens(&soare), 1);
    }
}

#[test]
fn ranking_is_descending() {
    let e = engine();
    let words = e.all_words();
    assert_eq!(words.len(), WORDS.len() + ANSWERS.len());
    for w in words.windows(2) {
        assert!(w[0].info >= w[1].info);
    }
}

fn exhaustive_best(e: &WordleOpt) -> i64 {
    let words = e.all_words();
    let table = e.answers_table();
    let t = log_table(e.answers().len());
    let mut best = 0;
    for i in 0..words.len() {
        for j in (i + 1)..words.len() {
            let a = Outcomes::from_answers_table(&letters(&words[i].word), table);
            let b = Outcomes::from_answers_table(&letters(&words[j].word), table);
            let mut buckets = vec![];
            bucket_two(&a, &b, &mut buckets);
            best = best.max(info(&t, &buckets));
        }
    }
    best
}

#[test]
fn best_two_matches_exhaustive_search() {
    let e = engine();
    let (a, b, h) = e.best_two().unwrap();
    assert_ne!(a, b);
    assert_eq!(h, exhaustive_best(&e));
}

#[test]
fn best_two_on_one_answer_is_none() {
    let e = WordleOpt::new(&WORDS, &["crane"], tables(1)).unwrap();
    assert!(e.best_two().is_none());
}

#[test]
fn threshold_lists_meet_at_threshold() {
    let e = engine();
    let (_, _, t) = e.best_two().unwrap();
    let above = e.pairs_above_threshold(t);
    let below = e.pairs_below_threshold(t);
    assert!(!above.is_empty());
    for p in &above {
        assert!(p.2 >= t);
    }
    for p in &below {
        assert!(p.2 <= t);
    }
    for p in &above {
        let in_below = below
            .iter()
            .any(|q| (q.0 == p.0 && q.1 == p.1) || (q.0 == p.1 && q.1 == p.0));
        assert_eq!(in_below, p.2 == t);
    }
    let n = e.all_words().len();
    let all_above = e.pairs_above_threshold(i64::MIN);
    assert_eq!(all_above.len(), n * (n - 1) / 2);
    for w in all_above.windows(2) {
        assert!(w[0].2 >= w[1].2);
    }
    let all_below = e.pairs_below_threshold(i64::MAX);
    assert_eq!(all_below.len(), n * (n - 1) / 2);
    for w in all_below.windows(2) {
        assert!(w[0].2 <= w[1].2);
    }
}

#[test]
fn second_words_gain() {
    let e = engine();
    let v = e.best_second_words("soare").unwrap();
    assert_eq!(v.len(), e.all_words().len() - 1);
    assert!(v.iter().all(|w| w.word != "soare"));
    for w in v.windows(2) {
        assert!(w[0].info >= w[1].info);
    }
    assert!(v.iter().all(|w| w.info >= 0));
    assert_eq!(e.best_second_words("SOARE").unwrap_err(), WordError::NotLowercase);
}

#[test]
fn third_words_gain() {
    let e = engine();
    let v = e.best_third_word("soare", "blimp").unwrap();
    assert_eq!(v.len(), e.all_words().len() - 1);
    for w in v.windows(2) {
        assert!(w[0].info >= w[1].info);
    }
    assert!(v.iter().all(|w| w.info >= 0));
}

#[test]
fn conditional_second_guesses() {
    let e = engine();
    let soare = letters("soare");
    let r = e.best_conditional_second("soare").unwrap();
    assert_eq!(r.len(), 6);
    for (hits, entry) in r.iter().enumerate() {
        let part: Vec<&str> = ANSWERS
            .iter()
            .copied()
            .filter(|w| AugmentedAnswer::new(w).unwrap().hits(&soare) == hits)
            .collect();
        match part.len() {
            0 => assert!(entry.is_none()),
            1 => {
                let (w, n) = entry.as_ref().unwrap();
                assert_eq!(w.word, part[0]);
                assert_eq!(w.info, 0);
                assert_eq!(*n, 1);
            }
            k => {
                let (_, n) = entry.as_ref().unwrap();
                assert_eq!(*n, k);
            }
        }
    }
}

#[test]
fn conditional_buckets_hold_the_first_word() {
    let e = WordleOpt::new(&[], &["abcde", "abced"], tables(2)).unwrap();
    let r = e.best_conditional_second("abcde").unwrap();
    let (_, n) = r[5].as_ref().unwrap();
    assert_eq!(*n, 2);
    assert!(r[0..5].iter().all(|o| o.is_none()));
    let single = WordleOpt::new(&[], &["abcde"], tables(1)).unwrap();
    let r = single.best_conditional_second("abcde").unwrap();
    let (w, n) = r[5].as_ref().unwrap();
    assert_eq!(w.word, "abcde");
    assert_eq!(w.info, 0);
    assert_eq!(*n, 1);
}

#[test]
fn ties_keep_input_order() {
    let e = WordleOpt::new(&[], &["abide", "blimp"], tables(2)).unwrap();
    let words = e.all_words();
    assert_eq!(words[0].info, words[1].info);
    assert_eq!(words[0].word, "abide");
    assert_eq!(words[1].word, "blimp");
    let e = WordleOpt::new(&[], &["blimp", "abide"], tables(2)).unwrap();
    assert_eq!(e.all_words()[0].word, "blimp");
}

#[test]
fn pairs_listed_once() {
    let e = engine();
    let all = e.pairs_above_threshold(i64::MIN);
    for (i, p) in all.iter().enumerate() {
        for q in &all[i + 1..] {
            assert!(!((p.0 == q.0 && p.1 == q.1) || (p.0 == q.1 && p.1 == q.0)));
        }
    }
    let v = e.best_second_words("soare").unwrap();
    let mut names: Vec<&String> = v.iter().map(|w| &w.word).collect();
    names.sort();
    names.dedup();
    assert_eq!(names.len(), v.len());
}

#[test]
fn word_errors() {
    assert_eq!(word_letters("abc").unwrap_err(), WordError::WrongLength);
    assert_eq!(word_letters("abcdef").unwrap_err(), WordError::WrongLength);
    assert_eq!(word_letters("abCde").unwrap_err(), WordError::NotLowercase);
    assert_eq!(word_letters("ab-de").unwrap_err(), WordError::NotLowercase);
    assert_eq!(word_letters("crane").unwrap(), b"crane".to_vec());
    assert!(AugmentedAnswer::new("toolong").is_err());
}

#[test]
fn engine_errors() {
    assert!(matches!(
        WordleOpt::new(&["abc"], &ANSWERS, tables(8)),
        Err(EngineError::Word(WordError::WrongLength))
    ));
    assert!(matches!(
        WordleOpt::new(&WORDS, &ANSWERS, tables(7)),
        Err(EngineError::TableTooShort)
    ));
    let e = engine();
    assert!(e.pruned_exact("xyz", 0).is_err());
    assert!(e.pruned("Crane", 0).is_err());
}

#[test]
fn hint_text_round_trip() {
    assert_eq!(string_to_outcome("!?_.Y"), Some(2 * 81 + 27 + 2));
    assert_eq!(string_to_outcome("yyyyy"), Some(242));
    assert_eq!(string_to_outcome("gG?.."), Some(117));
    assert_eq!(string_to_outcome("_____"), Some(0));
    assert_eq!(string_to_outcome("abc"), None);
    assert_eq!(string_to_outcome("!!!!x"), None);
    assert_eq!(bucket_label(0), "_____");
    assert_eq!(bucket_label(242), "!!!!!");
    assert_eq!(bucket_label(191), "!?__!");
    for code in 0..243u8 {
        assert_eq!(string_to_outcome(&bucket_label(code as usize)), Some(code));
    }
}
