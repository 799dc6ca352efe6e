use passphrase::bank::WordBank;
use passphrase::error::FitError;
use passphrase::phrase::{
    compose, convert_nums_to_passphrase, draw_digits, generate_passphrase,
    generate_unconstrained, generate_with_max_length, realize_words, Constraints,
};

const WORDS: [&str; 30] = [
    "able",
    "bake",
    "calm",
    "daisy",
    "eagle",
    "fable",
    "galaxy",
    "hammer",
    "island",
    "journey",
    "kitchen",
    "lantern",
    "mountain",
    "notebook",
    "obstacle",
    "paperback",
    "quicksand",
    "raspberry",
    "sandcastle",
    "tablespoon",
    "underworld",
    "vaccination",
    "watermelons",
    "xylophonist",
    "accomplished",
    "breakthrough",
    "cheeseburger",
    "accommodation",
    "communication",
    "determination",
];

fn full_bank() -> WordBank {
    WordBank::build(&WORDS).unwrap()
}

fn constraints(
    word_count: u8,
    capitalize: bool,
    append_digit: bool,
    separator: &str,
    max_total_length: Option<u8>,
) -> Constraints {
    Constraints {
        word_count,
        capitalize,
        append_digit,
        separator: separator.to_string(),
        max_total_length,
    }
}

#[test]
fn three_words_in_exactly_fifteen_bytes() {
    let bank = full_bank();
    for _ in 0..100 {
        let phrase =
            generate_passphrase(&constraints(3, false, false, "-", Some(15)), &bank).unwrap();
        assert_eq!(phrase.len(), 15);
        let tokens: Vec<&str> = phrase.split('-').collect();
        assert_eq!(tokens.len(), 3);
        assert!(tokens.iter().all(|token| WORDS.contains(token)));
    }
}

#[test]
fn two_words_with_digits_at_the_lower_bound() {
    let bank = full_bank();
    for _ in 0..100 {
        let phrase =
            generate_passphrase(&constraints(2, false, true, "", Some(10)), &bank).unwrap();
        assert_eq!(phrase.len(), 10);
        let (first, second) = phrase.split_at(5);
        for token in [first, second] {
            assert_eq!(WORDS.iter().filter(|word| **word == &token[..4]).count(), 1);
            assert!(token.as_bytes()[4].is_ascii_digit());
        }
    }
}

#[test]
fn five_words_of_any_length() {
    let bank = full_bank();
    for _ in 0..100 {
        let phrase = generate_passphrase(&constraints(5, false, false, "-", None), &bank).unwrap();
        let tokens: Vec<&str> = phrase.split('-').collect();
        assert_eq!(tokens.len(), 5);
        for token in tokens {
            assert!((4..=13).contains(&token.len()));
            assert!(WORDS.contains(&token));
        }
    }
}

#[test]
fn every_length_in_reach_is_met_exactly() {
    let bank = full_bank();
    // Four words, a digit each, and ", " between them: 26 to 62 bytes.
    for max_length in 26..=62u8 {
        let phrase =
            generate_passphrase(&constraints(4, true, true, ", ", Some(max_length)), &bank)
                .unwrap();
        assert_eq!(phrase.len(), max_length as usize);
        let tokens: Vec<&str> = phrase.split(", ").collect();
        assert_eq!(tokens.len(), 4);
        for token in tokens {
            let (word, digit) = token.split_at(token.len() - 1);
            assert!(digit.as_bytes()[0].is_ascii_digit());
            assert!(word.as_bytes()[0].is_ascii_uppercase());
            assert!(WORDS.contains(&word.to_lowercase().as_str()));
        }
    }
}

#[test]
fn a_length_below_reach_is_refused() {
    let bank = full_bank();
    assert_eq!(
        generate_passphrase(&constraints(3, false, false, "-", Some(13)), &bank),
        Err(FitError::TooShort)
    );
    assert_eq!(
        generate_passphrase(&constraints(2, false, true, "", Some(9)), &bank),
        Err(FitError::TooShort)
    );
}

#[test]
fn a_length_above_reach_is_refused() {
    let bank = full_bank();
    assert_eq!(
        generate_passphrase(&constraints(3, false, false, "-", Some(42)), &bank),
        Err(FitError::TooLong)
    );
    assert_eq!(
        generate_passphrase(&constraints(2, false, true, "", Some(29)), &bank),
        Err(FitError::TooLong)
    );
}

#[test]
fn a_single_word_has_no_separator() {
    let bank = full_bank();
    let phrase = generate_passphrase(&constraints(1, false, false, "-", Some(9)), &bank).unwrap();
    assert!(["paperback", "quicksand", "raspberry"].contains(&phrase.as_str()));
}

#[test]
fn a_planned_length_without_words_is_refused() {
    let bank = WordBank::build(&["able", "bake"]).unwrap();
    assert_eq!(
        generate_with_max_length(1, 5, &bank, false, false, "-"),
        Err(FitError::NoWordsOfLength)
    );
    assert_eq!(
        generate_passphrase(&constraints(2, false, false, "-", Some(26)), &bank),
        Err(FitError::NoWordsOfLength)
    );
}

#[test]
fn a_sparse_bank_serves_the_lengths_it_has() {
    let bank = WordBank::build(&["able", "bake"]).unwrap();
    let phrase = generate_with_max_length(2, 9, &bank, false, false, "-").unwrap();
    assert_eq!(phrase.len(), 9);
    let tokens: Vec<&str> = phrase.split('-').collect();
    assert_eq!(tokens.len(), 2);
    assert!(tokens.iter().all(|token| ["able", "bake"].contains(token)));
}

#[test]
fn a_sparse_bank_is_enough_without_a_length() {
    let bank = WordBank::build(&["able", "communication"]).unwrap();
    for _ in 0..50 {
        let phrase = generate_unconstrained(6, &bank, false, false, " ").unwrap();
        let tokens: Vec<&str> = phrase.split(' ').collect();
        assert_eq!(tokens.len(), 6);
        assert!(tokens.iter().all(|token| ["able", "communication"].contains(token)));
    }
}

#[test]
fn an_empty_bank_has_no_feasible_words() {
    let bank = WordBank::build(&[]).unwrap();
    assert_eq!(
        generate_unconstrained(5, &bank, false, false, "-"),
        Err(FitError::NoFeasibleWords)
    );
    assert_eq!(
        generate_passphrase(&constraints(5, true, true, "-", None), &bank),
        Err(FitError::NoFeasibleWords)
    );
}

#[test]
fn no_words_without_a_length_is_an_empty_phrase() {
    let bank = full_bank();
    assert_eq!(generate_unconstrained(0, &bank, true, true, "-"), Ok(String::new()));
}

#[test]
fn free_phrases_use_the_whole_bank() {
    let bank = full_bank();
    let phrase = generate_unconstrained(255, &bank, false, false, "-").unwrap();
    let tokens: Vec<&str> = phrase.split('-').collect();
    assert_eq!(tokens.len(), 255);
    assert!(tokens.iter().any(|token| *token != tokens[0]));
}

#[test]
fn realize_gives_a_word_of_each_planned_length() {
    let bank = full_bank();
    let plan = vec![4, 13, 7, 7, 10];
    for _ in 0..50 {
        let words = realize_words(&plan, &bank).unwrap();
        assert_eq!(words.len(), 5);
        for (word, length) in words.iter().zip(&plan) {
            assert_eq!(word.len(), *length as usize);
            assert!(WORDS.contains(word));
        }
    }
}

#[test]
fn realize_of_an_empty_plan_is_empty() {
    let bank = full_bank();
    assert_eq!(realize_words(&Vec::new(), &bank), Ok(Vec::new()));
}

#[test]
fn realize_refuses_a_length_without_words() {
    let bank = WordBank::build(&["able", "daisy"]).unwrap();
    assert_eq!(realize_words(&vec![4, 6, 5], &bank), Err(FitError::NoWordsOfLength));
    assert_eq!(realize_words(&vec![4, 5, 3], &bank), Err(FitError::NoWordsOfLength));
    assert_eq!(realize_words(&vec![14], &bank), Err(FitError::NoWordsOfLength));
    assert_eq!(realize_words(&vec![u32::MAX], &bank), Err(FitError::NoWordsOfLength));
}

#[test]
fn digits_are_drawn_one_per_word() {
    for count in [0usize, 1, 7, 100] {
        let digits = draw_digits(count, true);
        assert_eq!(digits.len(), count);
        assert!(digits.iter().all(|digit| matches!(digit, Some(d) if *d < 10)));
    }
}

#[test]
fn no_digits_are_drawn_where_none_are_asked_for() {
    assert_eq!(draw_digits(3, false), vec![None, None, None]);
    assert_eq!(draw_digits(0, false), Vec::new());
}

#[test]
fn drawn_digits_differ() {
    let digits = draw_digits(500, true);
    assert!(digits.iter().any(|digit| *digit != digits[0]));
}

#[test]
fn compose_decorates_and_joins() {
    let words = vec!["able", "daisy", "galaxy"];
    assert_eq!(compose(&words, &vec![None, None, None], false, "-"), "able-daisy-galaxy");
    assert_eq!(compose(&words, &vec![None, None, None], true, "-"), "Able-Daisy-Galaxy");
    assert_eq!(
        compose(&words, &vec![Some(3), Some(0), Some(9)], false, "-"),
        "able3-daisy0-galaxy9"
    );
    assert_eq!(
        compose(&words, &vec![Some(3), Some(0), Some(9)], true, ", "),
        "Able3, Daisy0, Galaxy9"
    );
    assert_eq!(compose(&words, &vec![Some(1), None, Some(2)], true, ""), "Able1DaisyGalaxy2");
}

#[test]
fn compose_of_one_word_has_no_separator() {
    assert_eq!(compose(&vec!["able"], &vec![Some(5)], true, "--"), "Able5");
}

#[test]
fn compose_of_no_words_is_empty() {
    assert_eq!(compose(&Vec::new(), &Vec::new(), true, "-"), "");
}

#[test]
fn compose_has_the_length_that_the_plan_gives() {
    // 4 + 5 + 6 bytes of words, three digits, two separators of two bytes.
    let words = vec!["able", "daisy", "galaxy"];
    let phrase = compose(&words, &vec![Some(1), Some(2), Some(3)], true, "::");
    assert_eq!(phrase.len(), 15 + 3 + 4);
}

#[test]
fn convert_follows_the_plan() {
    let bank = WordBank::build(&["able", "daisy", "galaxy"]).unwrap();
    assert_eq!(
        convert_nums_to_passphrase(&vec![6, 4, 5, 4], &bank, false, false, "-"),
        Ok(String::from("galaxy-able-daisy-able"))
    );
    assert_eq!(
        convert_nums_to_passphrase(&vec![5, 6], &bank, true, false, ""),
        Ok(String::from("DaisyGalaxy"))
    );
    assert_eq!(convert_nums_to_passphrase(&Vec::new(), &bank, true, true, "-"), Ok(String::new()));
}

#[test]
fn convert_puts_the_digit_before_the_separator() {
    let bank = WordBank::build(&["able", "daisy"]).unwrap();
    let phrase = convert_nums_to_passphrase(&vec![4, 5], &bank, true, true, "-").unwrap();
    let bytes = phrase.as_bytes();
    assert_eq!(phrase.len(), 12);
    assert_eq!(&phrase[..4], "Able");
    assert!(bytes[4].is_ascii_digit());
    assert_eq!(bytes[5], b'-');
    assert_eq!(&phrase[6..11], "Daisy");
    assert!(bytes[11].is_ascii_digit());
}

#[test]
fn convert_refuses_a_length_without_words() {
    let bank = WordBank::build(&["able", "daisy"]).unwrap();
    assert_eq!(
        convert_nums_to_passphrase(&vec![4, 7], &bank, false, false, "-"),
        Err(FitError::NoWordsOfLength)
    );
}

#[test]
fn capitalizing_beyond_ascii_may_miss_the_length() {
    // The one word takes five bytes plain and six capitalized.
    let bank = WordBank::build(&["\u{149}abc"]).unwrap();
    assert_eq!(
        generate_with_max_length(1, 5, &bank, false, false, "-"),
        Ok(String::from("\u{149}abc"))
    );
    let phrase = generate_with_max_length(1, 5, &bank, true, false, "-").unwrap();
    assert_eq!(phrase, "\u{2bc}Nabc");
    assert_eq!(phrase.len(), 6);
}

#[test]
fn fit_errors_name_what_went_wrong() {
    assert_eq!(FitError::TooShort.message(), "Specified max length is too short");
    assert_eq!(FitError::TooLong.message(), "Specified max length is too long");
    assert_eq!(FitError::NoWordsOfLength.message(), "Found no word of a planned length");
    assert_eq!(FitError::NoFeasibleWords.message(), "Found no words to choose from");
}
