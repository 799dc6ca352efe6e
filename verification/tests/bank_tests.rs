use passphrase::bank::WordBank;
use passphrase::error::LoadError;

const LIST: [&str; 9] =
    ["able", "daisy", "bake", "galaxy", "accommodation", "eagle", "calm", "communication", "fable"];

#[test]
fn build_buckets_by_length() {
    let bank = WordBank::build(&LIST).unwrap();
    assert_eq!(bank.lookup_exact(4), &vec!["able", "bake", "calm"]);
    assert_eq!(bank.lookup_exact(5), &vec!["daisy", "eagle", "fable"]);
    assert_eq!(bank.lookup_exact(6), &vec!["galaxy"]);
    assert_eq!(bank.lookup_exact(13), &vec!["accommodation", "communication"]);
}

#[test]
fn lookup_of_an_unused_length_is_empty() {
    let bank = WordBank::build(&LIST).unwrap();
    for length in 7..=12 {
        assert!(bank.lookup_exact(length).is_empty());
    }
}

#[test]
fn lookup_of_a_length_no_word_can_have_is_empty() {
    let bank = WordBank::build(&LIST).unwrap();
    for length in [0usize, 1, 2, 3, 14, 15, 1000, usize::MAX] {
        assert!(bank.lookup_exact(length).is_empty());
    }
}

#[test]
fn build_of_an_empty_list_is_an_empty_bank() {
    let bank = WordBank::build(&[]).unwrap();
    for length in 0..20 {
        assert!(bank.lookup_exact(length).is_empty());
    }
    assert!(bank.lookup_under_length_budget(13, 4).is_empty());
}

#[test]
fn build_refuses_a_word_that_is_too_short() {
    assert_eq!(WordBank::build(&["able", "cat", "daisy"]).err(), Some(LoadError::UnexpectedWordLength));
    assert_eq!(WordBank::build(&[""]).err(), Some(LoadError::UnexpectedWordLength));
}

#[test]
fn build_refuses_a_word_that_is_too_long() {
    assert_eq!(
        WordBank::build(&["able", "daisy", "accommodations"]).err(),
        Some(LoadError::UnexpectedWordLength)
    );
}

#[test]
fn build_accepts_the_bounds() {
    let bank = WordBank::build(&["abcd", "abcdefghijklm"]).unwrap();
    assert_eq!(bank.lookup_exact(4), &vec!["abcd"]);
    assert_eq!(bank.lookup_exact(13), &vec!["abcdefghijklm"]);
}

#[test]
fn build_measures_words_in_bytes() {
    // Four characters, five bytes.
    let bank = WordBank::build(&["caf\u{e9}"]).unwrap();
    assert!(bank.lookup_exact(4).is_empty());
    assert_eq!(bank.lookup_exact(5), &vec!["caf\u{e9}"]);
    // Three characters, but four bytes.
    assert!(WordBank::build(&["t\u{e9}a"]).is_ok());
}

#[test]
fn build_keeps_repeated_words() {
    let bank = WordBank::build(&["able", "able"]).unwrap();
    assert_eq!(bank.lookup_exact(4), &vec!["able", "able"]);
}

#[test]
fn lookup_under_budget_gathers_shortest_first() {
    let bank = WordBank::build(&LIST).unwrap();
    assert_eq!(
        bank.lookup_under_length_budget(13, 4),
        vec![
            "able",
            "bake",
            "calm",
            "daisy",
            "eagle",
            "fable",
            "galaxy",
            "accommodation",
            "communication"
        ]
    );
}

#[test]
fn lookup_under_budget_respects_both_limits() {
    let bank = WordBank::build(&LIST).unwrap();
    assert_eq!(bank.lookup_under_length_budget(5, 4).len(), 6);
    assert_eq!(bank.lookup_under_length_budget(6, 5), vec!["daisy", "eagle", "fable", "galaxy"]);
    assert_eq!(bank.lookup_under_length_budget(4, 4), vec!["able", "bake", "calm"]);
    assert_eq!(bank.lookup_under_length_budget(12, 7), Vec::<&str>::new());
    assert_eq!(bank.lookup_under_length_budget(usize::MAX, 0).len(), 9);
}

#[test]
fn lookup_under_budget_with_crossed_limits_is_empty() {
    let bank = WordBank::build(&LIST).unwrap();
    assert!(bank.lookup_under_length_budget(4, 5).is_empty());
    assert!(bank.lookup_under_length_budget(3, 0).is_empty());
    assert!(bank.lookup_under_length_budget(100, 14).is_empty());
}

#[test]
fn load_error_names_what_went_wrong() {
    assert_eq!(LoadError::UnexpectedWordLength.message(), "Found word with unexpected length");
}
