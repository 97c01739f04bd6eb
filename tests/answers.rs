use wordle_opt::{bucket_label, build_answers_table, word_letters, AugmentedAnswer, Outcomes};

fn idx(c: char) -> usize {
    (c as u8 - b'a') as usize
}

#[test]
fn lib_test_augmented_answers() {
    let aug = AugmentedAnswer::new("brass").unwrap();
    assert_eq!(aug.word, "brass");
    assert_eq!(
        aug.counts(),
        vec![1, 1, 0, 0, 0, 0, 0, 0, 0, 0, 0, 0, 0, 0, 0, 0, 0, 1, 2, 0, 0, 0, 0, 0, 0, 0]
    );
}

#[test]
fn lib_test_answers_table() {
    let aug1 = AugmentedAnswer::new("brass").unwrap();
    let aug2 = AugmentedAnswer::new("arose").unwrap();
    let table = build_answers_table(&[aug1, aug2]);
    assert_eq!(table[0][idx('a')][0], 1);
    assert_eq!(table[0][idx('b')][0], -1);
    assert_eq!(table[0][idx('s')][0], 2);
    assert_eq!(table[0][idx('c')][0], 0);
    assert_eq!(table[0][idx('a')][1], -1);
    assert_eq!(table[0][idx('b')][1], 0);
    assert_eq!(table[0][idx('s')][1], 1);
    assert_eq!(table[0][idx('c')][1], 0);
}

#[test]
fn lib_test_outcomes() {
    let aug1 = AugmentedAnswer::new("brass").unwrap();
    let aug2 = AugmentedAnswer::new("arose").unwrap();
    let aug3 = AugmentedAnswer::new("allay").unwrap();
    let aug4 = AugmentedAnswer::new("admit").unwrap();
    let answers_table = build_answers_table(&[aug1, aug2, aug3, aug4]);
    let soare = word_letters("soare").unwrap();
    let raw_outcomes = Outcomes::uncompressed_outcomes(&soare, &answers_table);
    println!("{:?}", raw_outcomes);
    println!("{}", bucket_label(raw_outcomes[0] as usize));
    println!("{}", bucket_label(raw_outcomes[1] as usize));
    println!("{}", AugmentedAnswer::new("allay").unwrap().outcome(&soare));
    println!("{}", AugmentedAnswer::new("admit").unwrap().outcome(&soare));
}

#[test]
fn approx_test_augmented_answers() {
    let aug = AugmentedAnswer::new("brass").unwrap();
    assert_eq!(aug.word, "brass");
    assert_eq!(
        aug.counts(),
        vec![1, 1, 0, 0, 0, 0, 0, 0, 0, 0, 0, 0, 0, 0, 0, 0, 0, 1, 2, 0, 0, 0, 0, 0, 0, 0]
    );
}

#[test]
fn approx_test_outcomes() {
    let aug3 = AugmentedAnswer::new("allay").unwrap();
    let aug4 = AugmentedAnswer::new("admit").unwrap();
    let table = build_answers_table(&[aug3, aug4]);
    let soare = word_letters("soare").unwrap();
    let raw_outcomes = Outcomes::uncompressed_outcomes(&soare, &table);
    println!("{:?}", raw_outcomes);
    println!("{}", raw_outcomes[0] as usize);
    println!("{}", raw_outcomes[1] as usize);
    println!("{}", AugmentedAnswer::new("allay").unwrap().hits(&soare));
    println!("{}", AugmentedAnswer::new("admit").unwrap().hits(&soare));
}
