//! The word bank: the words of a list, bucketed by their length in bytes.

use crate::error::LoadError;
use crate::text::{byte_len, lemma_ascii_titlecase_keeps_len, views};
use crate::{MAX_WORD_LEN, MIN_WORD_LEN};
use vstd::prelude::*;

verus! {

/// The words of `words` that are `length` bytes long, in the order in which
/// they stand there.
pub open spec fn of_length(words: Seq<Seq<char>>, length: int) -> Seq<Seq<char>>
    decreases words.len(),
{
    if words.len() == 0 {
        Seq::empty()
    } else {
        let earlier = of_length(words.drop_last(), length);
        if byte_len(words.last()) == length {
            earlier.push(words.last())
        } else {
            earlier
        }
    }
}

/// Every word is between 4 and 13 bytes long.
pub open spec fn all_loadable(words: Seq<Seq<char>>) -> bool {
    forall|i: int|
        0 <= i < words.len() ==> MIN_WORD_LEN <= #[trigger] byte_len(words[i]) <= MAX_WORD_LEN
}

/// What `of_length` selects: words of that length, and all of them.
pub proof fn lemma_of_length(words: Seq<Seq<char>>, length: int)
    ensures
        forall|k: int|
            0 <= k < of_length(words, length).len() ==> byte_len(
                #[trigger] of_length(words, length)[k],
            ) == length && words.contains(of_length(words, length)[k]),
        forall|i: int|
            0 <= i < words.len() && byte_len(#[trigger] words[i]) == length ==> of_length(
                words,
                length,
            ).contains(words[i]),
    decreases words.len(),
{
    if words.len() > 0 {
        let shorter = words.drop_last();
        let earlier = of_length(shorter, length);
        let found = of_length(words, length);
        lemma_of_length(shorter, length);
        assert forall|k: int| 0 <= k < found.len() implies byte_len(#[trigger] found[k]) == length
            && words.contains(found[k]) by {
            if k < earlier.len() {
                let i = choose|i: int| 0 <= i < shorter.len() && shorter[i] == earlier[k];
                assert(words[i] == found[k]);
            } else {
                assert(words[words.len() - 1] == found[k]);
            }
        }
        assert forall|i: int| 0 <= i < words.len() && byte_len(#[trigger] words[i]) == length
            implies found.contains(words[i]) by {
            if i < shorter.len() {
                assert(shorter[i] == words[i]);
                let k = choose|k: int| 0 <= k < earlier.len() && earlier[k] == shorter[i];
                assert(found[k] == words[i]);
            } else {
                assert(found[found.len() - 1] == words[i]);
            }
        }
    }
}

/// Words bucketed by length. Each bucket keeps its words in the order in
/// which the list had them.
pub struct WordBank {
    /// Indexed by length; the buckets below the shortest word stay empty.
    buckets: Vec<Vec<String>>,
}

impl View for WordBank {
    type V = Map<int, Seq<Seq<char>>>;

    /// Each length from 4 to 13, with the words of that length.
    closed spec fn view(&self) -> Map<int, Seq<Seq<char>>> {
        Map::new(
            |length: int| MIN_WORD_LEN <= length <= MAX_WORD_LEN,
            |length: int| views(self.buckets[length]@),
        )
    }
}

impl WordBank {
    /// Every word lies in the bucket of its own length. This holds of every
    /// bank that a program can get hold of.
    #[verifier::type_invariant]
    pub closed spec fn wf(&self) -> bool {
        &&& self.buckets.len() == MAX_WORD_LEN + 1
        &&& forall|length: int|
            0 <= length < MIN_WORD_LEN ==> (#[trigger] self.buckets[length]).len() == 0
        &&& forall|length: int, i: int|
            0 <= length < self.buckets.len() && 0 <= i < self.buckets[length].len() ==> byte_len(
                #[trigger] self.buckets[length][i]@,
            ) == length
    }

    /// The words of exactly `length` bytes; none for a length that no word
    /// can have.
    pub open spec fn words_of(&self, length: int) -> Seq<Seq<char>> {
        if self@.dom().contains(length) {
            self@[length]
        } else {
            Seq::empty()
        }
    }

    /// The words of at most `upto` bytes whose length lies between `min` and
    /// `max`, shortest first.
    pub open spec fn words_up_to(&self, min: int, max: int, upto: int) -> Seq<Seq<char>>
        decreases upto,
    {
        if upto < MIN_WORD_LEN {
            Seq::empty()
        } else {
            let shorter = self.words_up_to(min, max, upto - 1);
            if min <= upto <= max {
                shorter + self.words_of(upto)
            } else {
                shorter
            }
        }
    }

    /// The words whose length lies between `min` and `max`, shortest first.
    pub open spec fn words_between(&self, min: int, max: int) -> Seq<Seq<char>> {
        self.words_up_to(min, max, MAX_WORD_LEN as int)
    }

    /// The bank holds `word`.
    pub open spec fn holds(&self, word: Seq<char>) -> bool {
        self.words_of(byte_len(word) as int).contains(word)
    }

    /// The bank holds no word at all.
    pub open spec fn is_empty(&self) -> bool {
        forall|length: int| (#[trigger] self.words_of(length)).len() == 0
    }

    /// The bank holds a word of every length from 4 to 13.
    pub open spec fn is_complete(&self) -> bool {
        forall|length: int|
            MIN_WORD_LEN <= length <= MAX_WORD_LEN ==> (#[trigger] self.words_of(length)).len() > 0
    }

    /// Every word of the bank is as long capitalized as it is plain.
    pub open spec fn titlecase_keeps_len(&self) -> bool {
        forall|length: int, i: int|
            0 <= i < self.words_of(length).len() ==> crate::text::titlecase_keeps_len(
                #[trigger] self.words_of(length)[i],
            )
    }

    /// Every word of the bank is made of the letters `a` to `z` alone.
    pub open spec fn is_lowercase(&self) -> bool {
        forall|length: int, i: int|
            0 <= i < self.words_of(length).len() ==> crate::text::is_lowercase(
                #[trigger] self.words_of(length)[i],
            )
    }

    /// Words made of the letters `a` to `z` are as long capitalized as they
    /// are plain.
    pub proof fn lemma_lowercase_keeps_len(&self)
        requires
            self.is_lowercase(),
        ensures
            self.titlecase_keeps_len(),
    {
        assert forall|length: int, i: int|
            0 <= i < self.words_of(length).len() implies crate::text::titlecase_keeps_len(
            #[trigger] self.words_of(length)[i],
        ) by {
            let word = self.words_of(length)[i];
            assert(crate::text::is_lowercase(word));
            lemma_ascii_titlecase_keeps_len(word);
        }
    }

    /// The lengths that the bank knows are those from 4 to 13, and a word
    /// found under a length has that length.
    pub proof fn lemma_word_lengths(&self)
        requires
            self.wf(),
        ensures
            forall|length: int|
                self@.dom().contains(length) <==> MIN_WORD_LEN <= length <= MAX_WORD_LEN,
            forall|length: int|
                !(MIN_WORD_LEN <= length <= MAX_WORD_LEN) ==> (#[trigger] self.words_of(
                    length,
                )).len() == 0,
            forall|length: int, i: int|
                0 <= i < self.words_of(length).len() ==> byte_len(
                    #[trigger] self.words_of(length)[i],
                ) == length,
    {
        assert forall|length: int, i: int| 0 <= i < self.words_of(length).len() implies byte_len(
            #[trigger] self.words_of(length)[i],
        ) == length by {
            assert(self.words_of(length)[i] == self.buckets[length][i]@);
        }
    }

    /// What `words_up_to` gathers: words of the bank whose length is within
    /// all three limits, and all of them.
    pub proof fn lemma_words_up_to(&self, min: int, max: int, upto: int)
        requires
            self.wf(),
        ensures
            forall|k: int|
                0 <= k < self.words_up_to(min, max, upto).len() ==> {
                    let word = #[trigger] self.words_up_to(min, max, upto)[k];
                    &&& min <= byte_len(word) <= max
                    &&& byte_len(word) <= upto
                    &&& self.holds(word)
                },
            forall|length: int, i: int|
                min <= length <= max && length <= upto && 0 <= i < self.words_of(length).len()
                    ==> self.words_up_to(min, max, upto).contains(
                    #[trigger] self.words_of(length)[i],
                ),
        decreases upto,
    {
        self.lemma_word_lengths();
        if upto >= MIN_WORD_LEN {
            let shorter = self.words_up_to(min, max, upto - 1);
            let gathered = self.words_up_to(min, max, upto);
            self.lemma_words_up_to(min, max, upto - 1);
            assert forall|k: int| 0 <= k < gathered.len() implies {
                let word = #[trigger] gathered[k];
                &&& min <= byte_len(word) <= max
                &&& byte_len(word) <= upto
                &&& self.holds(word)
            } by {
                if k < shorter.len() {
                    assert(gathered[k] == shorter[k]);
                } else {
                    assert(gathered[k] == self.words_of(upto)[k - shorter.len()]);
                }
            }
            assert forall|length: int, i: int|
                min <= length <= max && length <= upto && 0 <= i < self.words_of(
                    length,
                ).len() implies gathered.contains(#[trigger] self.words_of(length)[i]) by {
                if length < upto {
                    let k = choose|k: int|
                        0 <= k < shorter.len() && shorter[k] == self.words_of(length)[i];
                    assert(gathered[k] == self.words_of(length)[i]);
                } else {
                    assert(gathered[shorter.len() + i] == self.words_of(length)[i]);
                }
            }
        }
    }

    /// What `words_between` gathers: the words of the bank whose length lies
    /// between `min` and `max`, and all of them.
    pub proof fn lemma_words_between(&self, min: int, max: int)
        requires
            self.wf(),
        ensures
            forall|k: int|
                0 <= k < self.words_between(min, max).len() ==> {
                    let word = #[trigger] self.words_between(min, max)[k];
                    &&& min <= byte_len(word) <= max
                    &&& self.holds(word)
                },
            forall|length: int, i: int|
                min <= length <= max && 0 <= i < self.words_of(length).len()
                    ==> self.words_between(min, max).contains(#[trigger] self.words_of(length)[i]),
    {
        self.lemma_word_lengths();
        self.lemma_words_up_to(min, max, MAX_WORD_LEN as int);
    }

    /// The bank is empty exactly when a search over all lengths finds nothing.
    pub proof fn lemma_empty(&self)
        requires
            self.wf(),
        ensures
            self.is_empty() <==> self.words_between(
                MIN_WORD_LEN as int,
                MAX_WORD_LEN as int,
            ).len() == 0,
    {
        let all = self.words_between(MIN_WORD_LEN as int, MAX_WORD_LEN as int);
        self.lemma_word_lengths();
        self.lemma_words_between(MIN_WORD_LEN as int, MAX_WORD_LEN as int);
        if all.len() > 0 {
            assert(self.holds(all[0]));
        }
        if !self.is_empty() {
            let length = choose|length: int| (#[trigger] self.words_of(length)).len() != 0;
            assert(all.contains(self.words_of(length)[0]));
        }
    }

    /// Buckets the words of `wordlist` by length. A word shorter than 4 or
    /// longer than 13 bytes makes the whole list unusable.
    pub fn build(wordlist: &[&str]) -> (res: Result<WordBank, LoadError>)
        ensures
            res is Ok <==> all_loadable(views(wordlist@)),
            res matches Ok(bank) ==> {
                &&& bank.wf()
                &&& forall|length: int|
                    #![trigger bank.words_of(length)]
                    bank.words_of(length) == of_length(views(wordlist@), length)
            },
            res matches Err(e) ==> e == LoadError::UnexpectedWordLength,
    {
        let shortest: usize = MIN_WORD_LEN as usize;
        let longest: usize = MAX_WORD_LEN as usize;
        let mut buckets: Vec<Vec<String>> = Vec::new();
        for length in 0..longest + 1
            invariant
                longest == MAX_WORD_LEN,
                buckets.len() == length,
                forall|l: int| 0 <= l < length ==> (#[trigger] buckets[l]).len() == 0,
        {
            buckets.push(Vec::new());
        }
        let ghost words = views(wordlist@);
        for i in 0..wordlist.len()
            invariant
                shortest == MIN_WORD_LEN,
                longest == MAX_WORD_LEN,
                words == views(wordlist@),
                buckets.len() == longest + 1,
                all_loadable(words.take(i as int)),
                forall|l: int|
                    0 <= l <= longest ==> views(#[trigger] buckets[l]@) == of_length(
                        words.take(i as int),
                        l,
                    ),
        {
            let word = wordlist[i];
            let length = word.as_bytes().len();
            proof {
                assert(words.take(i + 1).drop_last() =~= words.take(i as int));
                assert(words.take(i + 1).last() == word@);
            }
            if length < shortest || length > longest {
                proof {
                    assert(byte_len(words[i as int]) == length);
                }
                return Err(LoadError::UnexpectedWordLength);
            }
            let ghost before = buckets@;
            buckets[length].push(word.to_owned());
            proof {
                assert(views(buckets[length as int]@) =~= views(before[length as int]@).push(
                    word@,
                ));
                assert forall|l: int| 0 <= l <= longest implies views(#[trigger] buckets[l]@)
                    == of_length(words.take(i + 1), l) by {
                    if l != length {
                        assert(buckets[l] == before[l]);
                    }
                }
                assert forall|k: int| 0 <= k < words.take(i + 1).len() implies MIN_WORD_LEN
                    <= #[trigger] byte_len(words.take(i + 1)[k]) <= MAX_WORD_LEN by {
                    if k < i {
                        assert(words.take(i as int)[k] == words.take(i + 1)[k]);
                    }
                }
            }
        }
        proof {
            assert(words.take(wordlist.len() as int) =~= words);
            assert forall|length: int, k: int|
                0 <= length < buckets.len() && 0 <= k < buckets[length].len() implies MIN_WORD_LEN
                <= length && byte_len(#[trigger] buckets[length][k]@) == length by {
                lemma_of_length(words, length);
                let found = of_length(words, length);
                assert(views(buckets[length]@)[k] == buckets[length][k]@);
                assert(byte_len(found[k]) == length);
                assert(words.contains(found[k]));
            }
            assert forall|length: int| 0 <= length < MIN_WORD_LEN implies (
            #[trigger] buckets[length]).len() == 0 by {
                if buckets[length].len() > 0 {
                    assert(byte_len(buckets[length][0]@) == length);
                }
            }
        }
        let bank = WordBank { buckets };
        proof {
            assert forall|length: int|
                #![trigger bank.words_of(length)]
                bank.words_of(length) == of_length(words, length) by {
                if !(MIN_WORD_LEN <= length <= MAX_WORD_LEN) {
                    lemma_of_length(words, length);
                    if of_length(words, length).len() > 0 {
                        assert(words.contains(of_length(words, length)[0]));
                    }
                    assert(of_length(words, length) =~= Seq::empty());
                }
            }
        }
        Ok(bank)
    }

    /// All words of exactly `length` bytes.
    pub fn lookup_exact(&self, length: usize) -> (words: &Vec<String>)
        ensures
            views(words@) == self.words_of(length as int),
    {
        proof {
            use_type_invariant(self);
        }
        if length >= MIN_WORD_LEN as usize && length <= MAX_WORD_LEN as usize {
            &self.buckets[length]
        } else {
            proof {
                assert(views(self.buckets[0]@) =~= Seq::empty());
            }
            &self.buckets[0]
        }
    }

    /// All words whose length lies between `min_word_length` and
    /// `max_word_length`, shortest first.
    pub fn lookup_under_length_budget(&self, max_word_length: usize, min_word_length: usize) -> (words:
        Vec<&str>)
        ensures
            views(words@) == self.words_between(min_word_length as int, max_word_length as int),
    {
        proof {
            use_type_invariant(self);
        }
        let longest: usize = MAX_WORD_LEN as usize;
        let mut words: Vec<&str> = Vec::new();
        let mut length: usize = MIN_WORD_LEN as usize;
        while length <= longest
            invariant
                self.wf(),
                longest == MAX_WORD_LEN,
                MIN_WORD_LEN <= length <= longest + 1,
                views(words@) == self.words_up_to(
                    min_word_length as int,
                    max_word_length as int,
                    length - 1,
                ),
            decreases longest + 1 - length,
        {
            if min_word_length <= length && length <= max_word_length {
                let bucket = &self.buckets[length];
                let ghost shorter = views(words@);
                for i in 0..bucket.len()
                    invariant
                        views(words@) == shorter + views(bucket@).take(i as int),
                {
                    let ghost before = views(words@);
                    words.push(bucket[i].as_str());
                    assert(views(words@) =~= before.push(bucket@[i as int]@));
                    assert(views(bucket@).take(i + 1) =~= views(bucket@).take(i as int).push(
                        bucket@[i as int]@,
                    ));
                }
                assert(views(bucket@).take(bucket.len() as int) =~= views(bucket@));
            }
            length += 1;
        }
        words
    }
}

} // verus!
