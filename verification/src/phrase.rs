//! From a plan to a passphrase: a word for every slot, decorated and joined.
//!
//! Chance enters twice, in the choice of each word and of each digit. Once
//! both are drawn, `compose` is a plain function of them.

use crate::bank::WordBank;
use crate::dice::{random_below, random_digit};
use crate::error::FitError;
use crate::plan::{
    fits, fixed_overhead, generate_nums_with_max_length, in_bounds, max_total, min_total, total,
};
use crate::text::{
    byte_len, decorate_with, decorated, join, joined, lemma_decorated_len, lemma_joined_len,
    total_byte_len, views,
};
use crate::{MAX_WORD_LEN, MIN_WORD_LEN};
use vstd::prelude::*;

verus! {

/// The tokens of a passphrase: each word decorated with the digit beside it.
pub open spec fn tokens_of(
    words: Seq<Seq<char>>,
    digits: Seq<Option<u8>>,
    capitalize: bool,
) -> Seq<Seq<char>> {
    Seq::new(words.len(), |i: int| decorated(words[i], capitalize, digits[i]))
}

/// The passphrase that the words and their digits make.
pub open spec fn composed(
    words: Seq<Seq<char>>,
    digits: Seq<Option<u8>>,
    capitalize: bool,
    separator: Seq<char>,
) -> Seq<char> {
    joined(tokens_of(words, digits, capitalize), separator)
}

/// One entry per word: a decimal digit where digits are appended, nothing
/// where they are not.
pub open spec fn digits_for(digits: Seq<Option<u8>>, count: int, numbers: bool) -> bool {
    &&& digits.len() == count
    &&& forall|i: int|
        0 <= i < count ==> match #[trigger] digits[i] {
            Some(d) => numbers && d < 10,
            None => !numbers,
        }
}

/// `phrase` is composed of `words` and `digits`, each word taken from the
/// bank's bucket for the length that the plan gives its slot.
pub open spec fn spells(
    words: Seq<Seq<char>>,
    digits: Seq<Option<u8>>,
    phrase: Seq<char>,
    lengths: Seq<u32>,
    bank: &WordBank,
    capitalize: bool,
    numbers: bool,
    separator: Seq<char>,
) -> bool {
    &&& words.len() == lengths.len()
    &&& forall|i: int|
        0 <= i < lengths.len() ==> bank.words_of(lengths[i] as int).contains(#[trigger] words[i])
    &&& digits_for(digits, lengths.len() as int, numbers)
    &&& phrase == composed(words, digits, capitalize, separator)
}

/// `phrase` is a passphrase for the plan `lengths`: some choice of words from
/// the bank, and of digits, spells it.
pub open spec fn is_passphrase(
    phrase: Seq<char>,
    lengths: Seq<u32>,
    bank: &WordBank,
    capitalize: bool,
    numbers: bool,
    separator: Seq<char>,
) -> bool {
    exists|words: Seq<Seq<char>>, digits: Seq<Option<u8>>|
        spells(words, digits, phrase, lengths, bank, capitalize, numbers, separator)
}

/// Some slot of the plan asks for a length of which the bank has no word.
pub open spec fn has_gap(lengths: Seq<u32>, bank: &WordBank) -> bool {
    exists|i: int| 0 <= i < lengths.len() && (#[trigger] bank.words_of(lengths[i] as int)).len() == 0
}

/// `phrase` is a passphrase of `words` words, each of any length that a word
/// can have.
pub open spec fn is_free_passphrase(
    phrase: Seq<char>,
    words: int,
    bank: &WordBank,
    capitalize: bool,
    numbers: bool,
    separator: Seq<char>,
) -> bool {
    exists|lengths: Seq<u32>|
        {
            &&& lengths.len() == words
            &&& in_bounds(lengths)
            &&& #[trigger] is_passphrase(phrase, lengths, bank, capitalize, numbers, separator)
        }
}

/// `phrase` is a passphrase of `words` words for a plan that fits
/// `max_length`.
pub open spec fn is_fitted_passphrase(
    phrase: Seq<char>,
    words: int,
    max_length: int,
    bank: &WordBank,
    capitalize: bool,
    numbers: bool,
    separator: Seq<char>,
) -> bool {
    exists|lengths: Seq<u32>|
        {
            &&& fits(lengths, words, max_length, numbers, byte_len(separator) as int)
            &&& #[trigger] is_passphrase(phrase, lengths, bank, capitalize, numbers, separator)
        }
}

/// What generating without a length may return, and when: a passphrase
/// unless the bank is empty.
pub open spec fn is_free_result(
    res: Result<String, FitError>,
    words: int,
    bank: &WordBank,
    capitalize: bool,
    numbers: bool,
    separator: Seq<char>,
) -> bool {
    match res {
        Ok(phrase) => {
            &&& !bank.is_empty()
            &&& is_free_passphrase(phrase@, words, bank, capitalize, numbers, separator)
        },
        Err(FitError::NoFeasibleWords) => bank.is_empty(),
        Err(_) => false,
    }
}

/// What generating for a length may return, and when.
///
/// A length out of reach is refused, below as too short and above as too
/// long. A length within reach gives a passphrase for a plan that fits it,
/// unless the bank lacks words of a planned length, which a bank with words
/// of every length never does. The passphrase itself is as long as asked
/// when the bank's words keep their length capitalized, or are not
/// capitalized at all.
pub open spec fn is_fitted_result(
    res: Result<String, FitError>,
    words: int,
    max_length: int,
    bank: &WordBank,
    capitalize: bool,
    numbers: bool,
    separator: Seq<char>,
) -> bool {
    let shortest = min_total(words, numbers, byte_len(separator) as int);
    let longest = max_total(words, numbers, byte_len(separator) as int);
    match res {
        Ok(phrase) => {
            &&& shortest <= max_length <= longest
            &&& is_fitted_passphrase(
                phrase@,
                words,
                max_length,
                bank,
                capitalize,
                numbers,
                separator,
            )
            &&& (capitalize ==> bank.titlecase_keeps_len()) ==> byte_len(phrase@) == max_length
        },
        Err(FitError::TooShort) => max_length < shortest,
        Err(FitError::TooLong) => max_length > longest,
        Err(FitError::NoWordsOfLength) => shortest <= max_length <= longest && !bank.is_complete(),
        Err(FitError::NoFeasibleWords) => false,
    }
}

/// The tokens are together as long as the plan's sum, plus one byte for each
/// digit.
proof fn lemma_tokens_len(
    words: Seq<Seq<char>>,
    digits: Seq<Option<u8>>,
    lengths: Seq<u32>,
    bank: &WordBank,
    capitalize: bool,
    numbers: bool,
)
    requires
        bank.wf(),
        capitalize ==> bank.titlecase_keeps_len(),
        words.len() == lengths.len(),
        forall|i: int|
            0 <= i < lengths.len() ==> bank.words_of(lengths[i] as int).contains(#[trigger] words[i]),
        digits_for(digits, lengths.len() as int, numbers),
    ensures
        total_byte_len(tokens_of(words, digits, capitalize)) == total(lengths) + (if numbers {
            lengths.len() as int
        } else {
            0
        }),
    decreases lengths.len(),
{
    let tokens = tokens_of(words, digits, capitalize);
    if lengths.len() > 0 {
        let last = lengths.len() - 1;
        let word = words[last];
        let bucket = bank.words_of(lengths[last] as int);
        assert forall|i: int| 0 <= i < last implies bank.words_of(
            lengths.drop_last()[i] as int,
        ).contains(#[trigger] words.drop_last()[i]) by {
            assert(words.drop_last()[i] == words[i]);
        }
        assert forall|i: int| 0 <= i < last implies match #[trigger] digits.drop_last()[i] {
            Some(d) => numbers && d < 10,
            None => !numbers,
        } by {
            assert(digits.drop_last()[i] == digits[i]);
        }
        lemma_tokens_len(
            words.drop_last(),
            digits.drop_last(),
            lengths.drop_last(),
            bank,
            capitalize,
            numbers,
        );
        assert(tokens.drop_last() =~= tokens_of(words.drop_last(), digits.drop_last(), capitalize));
        bank.lemma_word_lengths();
        let k = choose|k: int| 0 <= k < bucket.len() && bucket[k] == word;
        assert(byte_len(bucket[k]) == lengths[last]);
        assert(capitalize ==> crate::text::titlecase_keeps_len(bucket[k]));
        assert(digits[last] is Some <==> numbers);
        lemma_decorated_len(word, capitalize, digits[last]);
        assert(tokens.last() == decorated(word, capitalize, digits[last]));
    }
}

/// A passphrase is as long as its plan says: the planned word lengths, one
/// byte per word where digits are appended, and a separator between
/// neighbours. This holds of a bank whose words keep their length when
/// capitalized, as the words made of the letters `a` to `z` do.
pub proof fn lemma_passphrase_len(
    phrase: Seq<char>,
    lengths: Seq<u32>,
    bank: &WordBank,
    capitalize: bool,
    numbers: bool,
    separator: Seq<char>,
)
    requires
        bank.wf(),
        lengths.len() >= 1,
        capitalize ==> bank.titlecase_keeps_len(),
        is_passphrase(phrase, lengths, bank, capitalize, numbers, separator),
    ensures
        byte_len(phrase) == total(lengths) + fixed_overhead(
            lengths.len() as int,
            numbers,
            byte_len(separator) as int,
        ),
{
    let (words, digits) = choose|words: Seq<Seq<char>>, digits: Seq<Option<u8>>|
        spells(words, digits, phrase, lengths, bank, capitalize, numbers, separator);
    lemma_tokens_len(words, digits, lengths, bank, capitalize, numbers);
    lemma_joined_len(tokens_of(words, digits, capitalize), separator);
}

/// A passphrase for a plan within bounds has one token per slot, joined by
/// the separator and by nothing else, and the word inside each token is
/// between 4 and 13 bytes long.
pub proof fn lemma_passphrase_shape(
    phrase: Seq<char>,
    lengths: Seq<u32>,
    bank: &WordBank,
    capitalize: bool,
    numbers: bool,
    separator: Seq<char>,
)
    requires
        bank.wf(),
        in_bounds(lengths),
        is_passphrase(phrase, lengths, bank, capitalize, numbers, separator),
    ensures
        exists|words: Seq<Seq<char>>, digits: Seq<Option<u8>>|
            {
                &&& #[trigger] tokens_of(words, digits, capitalize).len() == lengths.len()
                &&& phrase == joined(tokens_of(words, digits, capitalize), separator)
                &&& digits_for(digits, lengths.len() as int, numbers)
                &&& forall|i: int|
                    0 <= i < lengths.len() ==> MIN_WORD_LEN <= #[trigger] byte_len(words[i])
                        <= MAX_WORD_LEN
            },
{
    let (words, digits) = choose|words: Seq<Seq<char>>, digits: Seq<Option<u8>>|
        spells(words, digits, phrase, lengths, bank, capitalize, numbers, separator);
    bank.lemma_word_lengths();
    assert forall|i: int| 0 <= i < lengths.len() implies MIN_WORD_LEN <= #[trigger] byte_len(
        words[i],
    ) <= MAX_WORD_LEN by {
        let bucket = bank.words_of(lengths[i] as int);
        let k = choose|k: int| 0 <= k < bucket.len() && bucket[k] == words[i];
        assert(byte_len(bucket[k]) == lengths[i]);
    }
    assert(tokens_of(words, digits, capitalize).len() == lengths.len());
}

/// Draws one word for every slot of the plan, from the bucket of the slot's
/// length.
pub fn realize_words<'a>(nums: &Vec<u32>, bank: &'a WordBank) -> (res: Result<
    Vec<&'a str>,
    FitError,
>)
    ensures
        res is Err <==> has_gap(nums@, bank),
        res matches Err(e) ==> e == FitError::NoWordsOfLength,
        res matches Ok(words) ==> {
            &&& words.len() == nums.len()
            &&& forall|i: int|
                0 <= i < nums.len() ==> bank.words_of(nums[i] as int).contains(
                    #[trigger] words[i]@,
                )
        },
{
    let mut words: Vec<&str> = Vec::new();
    for i in 0..nums.len()
        invariant
            words.len() == i,
            forall|j: int|
                0 <= j < i ==> bank.words_of(nums[j] as int).contains(#[trigger] words[j]@),
            forall|j: int| 0 <= j < i ==> (#[trigger] bank.words_of(nums[j] as int)).len() > 0,
    {
        let bucket = bank.lookup_exact(nums[i] as usize);
        if bucket.len() == 0 {
            return Err(FitError::NoWordsOfLength);
        }
        let pick = random_below(bucket.len());
        words.push(bucket[pick].as_str());
        proof {
            assert(views(bucket@)[pick as int] == bucket@[pick as int]@);
        }
    }
    Ok(words)
}

/// Draws what follows each of `count` words: a digit where digits are
/// appended, nothing where they are not.
pub fn draw_digits(count: usize, numbers: bool) -> (digits: Vec<Option<u8>>)
    ensures
        digits_for(digits@, count as int, numbers),
{
    let mut digits: Vec<Option<u8>> = Vec::new();
    for i in 0..count
        invariant
            digits_for(digits@, i as int, numbers),
    {
        let digit = if numbers {
            Some(random_digit())
        } else {
            None
        };
        digits.push(digit);
    }
    digits
}

/// Makes the passphrase of the given words and digits: each word decorated
/// with the digit beside it, and the separator between neighbours.
pub fn compose(
    words: &Vec<&str>,
    digits: &Vec<Option<u8>>,
    capitalize: bool,
    separator: &str,
) -> (phrase: String)
    requires
        digits.len() == words.len(),
        forall|i: int| 0 <= i < digits.len() ==> (#[trigger] digits[i] matches Some(d) ==> d < 10),
    ensures
        phrase@ == composed(views(words@), digits@, capitalize, separator@),
{
    let mut tokens: Vec<String> = Vec::new();
    for i in 0..words.len()
        invariant
            digits.len() == words.len(),
            forall|j: int|
                0 <= j < digits.len() ==> (#[trigger] digits[j] matches Some(d) ==> d < 10),
            tokens.len() == i,
            forall|j: int|
                0 <= j < i ==> (#[trigger] tokens[j])@ == decorated(
                    words[j]@,
                    capitalize,
                    digits[j],
                ),
    {
        tokens.push(decorate_with(words[i], capitalize, digits[i]));
    }
    proof {
        assert(views(tokens@) =~= tokens_of(views(words@), digits@, capitalize));
    }
    join(&tokens, separator)
}

/// Turns a plan into a passphrase: a word of the planned length for every
/// slot, decorated, and joined by the separator.
pub fn convert_nums_to_passphrase(
    nums: &Vec<u32>,
    bank: &WordBank,
    capitalize: bool,
    numbers: bool,
    separator: &str,
) -> (res: Result<String, FitError>)
    ensures
        res is Err <==> has_gap(nums@, bank),
        res matches Err(e) ==> e == FitError::NoWordsOfLength,
        res matches Ok(phrase) ==> is_passphrase(
            phrase@,
            nums@,
            bank,
            capitalize,
            numbers,
            separator@,
        ),
{
    match realize_words(nums, bank) {
        Ok(words) => {
            let digits = draw_digits(words.len(), numbers);
            let phrase = compose(&words, &digits, capitalize, separator);
            proof {
                assert(spells(
                    views(words@),
                    digits@,
                    phrase@,
                    nums@,
                    bank,
                    capitalize,
                    numbers,
                    separator@,
                ));
            }
            Ok(phrase)
        },
        Err(e) => Err(e),
    }
}

/// A passphrase of `words` words drawn freely from the whole bank.
///
/// It fails only on a bank without words.
pub fn generate_unconstrained(
    words: u8,
    bank: &WordBank,
    capitalize: bool,
    numbers: bool,
    separator: &str,
) -> (res: Result<String, FitError>)
    ensures
        is_free_result(res, words as int, bank, capitalize, numbers, separator@),
{
    let all = bank.lookup_under_length_budget(MAX_WORD_LEN as usize, MIN_WORD_LEN as usize);
    proof {
        use_type_invariant(bank);
        bank.lemma_empty();
        bank.lemma_word_lengths();
        bank.lemma_words_between(MIN_WORD_LEN as int, MAX_WORD_LEN as int);
    }
    if all.len() == 0 {
        return Err(FitError::NoFeasibleWords);
    }
    let mut chosen: Vec<&str> = Vec::new();
    let ghost mut lengths: Seq<u32> = Seq::empty();
    for i in 0..words
        invariant
            all.len() > 0,
            forall|k: int|
                0 <= k < all.len() ==> {
                    let word = #[trigger] views(all@)[k];
                    MIN_WORD_LEN <= byte_len(word) <= MAX_WORD_LEN && bank.holds(word)
                },
            chosen.len() == i,
            lengths.len() == i,
            in_bounds(lengths),
            forall|j: int|
                0 <= j < i ==> bank.words_of(lengths[j] as int).contains(#[trigger] chosen[j]@),
    {
        let pick = random_below(all.len());
        chosen.push(all[pick]);
        proof {
            let word = views(all@)[pick as int];
            assert(word == all[pick as int]@);
            lengths = lengths.push(byte_len(word) as u32);
        }
    }
    let digits = draw_digits(chosen.len(), numbers);
    let phrase = compose(&chosen, &digits, capitalize, separator);
    proof {
        assert(spells(
            views(chosen@),
            digits@,
            phrase@,
            lengths,
            bank,
            capitalize,
            numbers,
            separator@,
        ));
        assert(is_passphrase(phrase@, lengths, bank, capitalize, numbers, separator@));
    }
    Ok(phrase)
}

/// A passphrase of `words` words that is exactly `max_length` bytes long.
pub fn generate_with_max_length(
    words: u8,
    max_length: u8,
    bank: &WordBank,
    capitalize: bool,
    numbers: bool,
    separator: &str,
) -> (res: Result<String, FitError>)
    requires
        words >= 1,
    ensures
        is_fitted_result(
            res,
            words as int,
            max_length as int,
            bank,
            capitalize,
            numbers,
            separator@,
        ),
{
    match generate_nums_with_max_length(words, max_length, numbers, separator) {
        Ok(nums) => {
            let res = convert_nums_to_passphrase(&nums, bank, capitalize, numbers, separator);
            proof {
                use_type_invariant(bank);
                if res is Ok && (capitalize ==> bank.titlecase_keeps_len()) {
                    lemma_passphrase_len(
                        res->Ok_0@,
                        nums@,
                        bank,
                        capitalize,
                        numbers,
                        separator@,
                    );
                }
            }
            res
        },
        Err(e) => Err(e),
    }
}

/// What a passphrase is asked to look like.
#[derive(Debug)]
pub struct Constraints {
    /// How many words the passphrase has; at least one.
    pub word_count: u8,
    /// Whether each word begins with a capital.
    pub capitalize: bool,
    /// Whether each word is followed by a digit.
    pub append_digit: bool,
    /// What stands between two words.
    pub separator: String,
    /// The exact length of the passphrase in bytes, where one is asked for.
    pub max_total_length: Option<u8>,
}

/// A passphrase that meets the constraints, from the words of the bank: of
/// exactly the length asked for, or of free length where none is.
pub fn generate_passphrase(constraints: &Constraints, bank: &WordBank) -> (res: Result<
    String,
    FitError,
>)
    requires
        constraints.word_count >= 1,
    ensures
        match constraints.max_total_length {
            Some(max_length) => is_fitted_result(
                res,
                constraints.word_count as int,
                max_length as int,
                bank,
                constraints.capitalize,
                constraints.append_digit,
                constraints.separator@,
            ),
            None => is_free_result(
                res,
                constraints.word_count as int,
                bank,
                constraints.capitalize,
                constraints.append_digit,
                constraints.separator@,
            ),
        },
{
    match constraints.max_total_length {
        Some(max_length) => generate_with_max_length(
            constraints.word_count,
            max_length,
            bank,
            constraints.capitalize,
            constraints.append_digit,
            constraints.separator.as_str(),
        ),
        None => generate_unconstrained(
            constraints.word_count,
            bank,
            constraints.capitalize,
            constraints.append_digit,
            constraints.separator.as_str(),
        ),
    }
}

} // verus!
