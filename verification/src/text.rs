//! Text as the passphrase sees it: sequences of characters, measured in the
//! bytes of their UTF-8 encoding.

use crate::dice::random_digit;
use vstd::prelude::*;
use vstd::string::*;
use vstd::utf8::*;

verus! {

/// The length of `text` in bytes, which is what `str::len` reports.
pub open spec fn byte_len(text: Seq<char>) -> nat {
    encode_utf8(text).len()
}

/// Encoding a concatenation gives the concatenation of the encodings.
pub proof fn lemma_encode_concat(left: Seq<char>, right: Seq<char>)
    ensures
        encode_utf8(left + right) == encode_utf8(left) + encode_utf8(right),
    decreases left.len(),
{
    if left.len() == 0 {
        assert(left + right =~= right);
        assert(encode_utf8(left) + encode_utf8(right) =~= encode_utf8(right));
    } else {
        assert((left + right).drop_first() =~= left.drop_first() + right);
        lemma_encode_concat(left.drop_first(), right);
        assert(encode_utf8(left + right) =~= encode_utf8(left) + encode_utf8(right));
    }
}

/// Byte lengths add up under concatenation.
pub proof fn lemma_byte_len_concat(left: Seq<char>, right: Seq<char>)
    ensures
        byte_len(left + right) == byte_len(left) + byte_len(right),
{
    lemma_encode_concat(left, right);
}

/// Stands for what std's `char::to_uppercase` yields for a character: its
/// uppercase mapping by the Unicode tables, one to three characters, and the
/// character itself where it has none.
pub uninterp spec fn char_uppercase(c: char) -> Seq<char>;

/// The uppercase form of a character. Within ASCII the letters `a` to `z`
/// move to `A` to `Z` and everything else stays; beyond ASCII the Unicode
/// tables decide.
pub open spec fn uppercase(c: char) -> Seq<char> {
    if 'a' <= c && c <= 'z' {
        seq![((c as u8) - 32) as char]
    } else if c <= '\u{7f}' {
        seq![c]
    } else {
        char_uppercase(c)
    }
}

/// `text` with `head` in place of its first character. An empty text has no
/// first character and stays empty.
pub open spec fn with_head(text: Seq<char>, head: Seq<char>) -> Seq<char> {
    if text.len() == 0 {
        text
    } else {
        head + text.drop_first()
    }
}

/// `text` with its first character in uppercase and the rest as it was.
pub open spec fn titlecased(text: Seq<char>) -> Seq<char> {
    if text.len() == 0 {
        text
    } else {
        with_head(text, uppercase(text[0]))
    }
}

/// The character that shows the decimal digit `digit`.
pub open spec fn digit_char(digit: u8) -> char
    recommends
        digit < 10,
{
    (48 + digit) as char
}

/// A word as it appears in the passphrase: capitalized first if asked, then
/// followed by its digit if it has one.
pub open spec fn decorated(word: Seq<char>, capitalize: bool, digit: Option<u8>) -> Seq<char> {
    let cased = if capitalize {
        titlecased(word)
    } else {
        word
    };
    match digit {
        Some(d) => cased.push(digit_char(d)),
        None => cased,
    }
}

/// `token` is `word` decorated, with some decimal digit where one is asked
/// for.
pub open spec fn is_decoration(
    token: Seq<char>,
    word: Seq<char>,
    capitalize: bool,
    append_digit: bool,
) -> bool {
    if append_digit {
        exists|d: u8| d < 10 && token == #[trigger] decorated(word, capitalize, Some(d))
    } else {
        token == decorated(word, capitalize, None)
    }
}

/// The parts in order, with the separator between neighbours and nowhere
/// else.
pub open spec fn joined(parts: Seq<Seq<char>>, separator: Seq<char>) -> Seq<char>
    decreases parts.len(),
{
    if parts.len() == 0 {
        Seq::empty()
    } else if parts.len() == 1 {
        parts[0]
    } else {
        joined(parts.drop_last(), separator) + separator + parts.last()
    }
}

/// The character sequences that a list of strings holds.
pub open spec fn views<T: View<V = Seq<char>>>(strings: Seq<T>) -> Seq<Seq<char>> {
    Seq::new(strings.len(), |i: int| strings[i]@)
}

/// The bytes of all the parts together.
pub open spec fn total_byte_len(parts: Seq<Seq<char>>) -> nat
    decreases parts.len(),
{
    if parts.len() == 0 {
        0
    } else {
        total_byte_len(parts.drop_last()) + byte_len(parts.last())
    }
}

/// `word` is made of the letters `a` to `z` alone.
pub open spec fn is_lowercase(word: Seq<char>) -> bool {
    forall|i: int| 0 <= i < word.len() ==> 'a' <= #[trigger] word[i] && word[i] <= 'z'
}

/// Capitalizing `word` does not change how many bytes it takes.
pub open spec fn titlecase_keeps_len(word: Seq<char>) -> bool {
    byte_len(titlecased(word)) == byte_len(word)
}

/// An ASCII character takes one byte, and so does its uppercase form.
pub proof fn lemma_ascii_char_len(c: char)
    requires
        c <= '\u{7f}',
    ensures
        byte_len(seq![c]) == 1,
        byte_len(uppercase(c)) == 1,
{
    assert(is_ascii_chars(seq![c]));
    assert(is_ascii_chars(uppercase(c)));
    is_ascii_chars_encode_utf8(seq![c]);
    is_ascii_chars_encode_utf8(uppercase(c));
}

/// A word that begins with an ASCII character is as long capitalized as it
/// was before.
pub proof fn lemma_ascii_titlecase_keeps_len(word: Seq<char>)
    requires
        word.len() > 0 ==> word[0] <= '\u{7f}',
    ensures
        titlecase_keeps_len(word),
{
    if word.len() > 0 {
        assert(word =~= seq![word[0]] + word.drop_first());
        lemma_byte_len_concat(seq![word[0]], word.drop_first());
        lemma_byte_len_concat(uppercase(word[0]), word.drop_first());
        lemma_ascii_char_len(word[0]);
    }
}

/// A digit takes one byte.
pub proof fn lemma_digit_len(digit: u8)
    requires
        digit < 10,
    ensures
        byte_len(seq![digit_char(digit)]) == 1,
{
    let text = seq![digit_char(digit)];
    assert(is_ascii_chars(text));
    is_ascii_chars_encode_utf8(text);
}

/// The digit is the last character of a decorated word, and everything
/// before it is the word as it would stand without a digit: capitalizing
/// comes first and never sees the digit.
pub proof fn lemma_digit_comes_last(word: Seq<char>, capitalize: bool, digit: u8)
    ensures
        decorated(word, capitalize, Some(digit)).last() == digit_char(digit),
        decorated(word, capitalize, Some(digit)).drop_last() == decorated(word, capitalize, None),
        decorated(word, true, Some(digit)) == titlecased(word).push(digit_char(digit)),
        decorated(word, false, Some(digit)) == word.push(digit_char(digit)),
{
    let plain = decorated(word, capitalize, None);
    assert(plain.push(digit_char(digit)).drop_last() =~= plain);
}

/// A decorated word is as long as the word, plus one byte for its digit.
pub proof fn lemma_decorated_len(word: Seq<char>, capitalize: bool, digit: Option<u8>)
    requires
        digit matches Some(d) ==> d < 10,
        capitalize ==> titlecase_keeps_len(word),
    ensures
        byte_len(decorated(word, capitalize, digit)) == byte_len(word) + (if digit is Some {
            1nat
        } else {
            0nat
        }),
{
    if let Some(d) = digit {
        let cased = decorated(word, capitalize, None);
        assert(cased.push(digit_char(d)) =~= cased + seq![digit_char(d)]);
        lemma_byte_len_concat(cased, seq![digit_char(d)]);
        lemma_digit_len(d);
    }
}

/// A joined text is as long as its parts and the separators between them.
pub proof fn lemma_joined_len(parts: Seq<Seq<char>>, separator: Seq<char>)
    requires
        parts.len() >= 1,
    ensures
        byte_len(joined(parts, separator)) == total_byte_len(parts) + byte_len(separator) * (
        parts.len() - 1),
    decreases parts.len(),
{
    if parts.len() == 1 {
        assert(total_byte_len(parts.drop_last()) == 0);
        assert(parts.last() == parts[0]);
    } else {
        let earlier = parts.drop_last();
        lemma_joined_len(earlier, separator);
        lemma_byte_len_concat(joined(earlier, separator), separator);
        lemma_byte_len_concat(joined(earlier, separator) + separator, parts.last());
        assert(byte_len(separator) * (parts.len() - 1) == byte_len(separator) * (earlier.len() - 1)
            + byte_len(separator)) by (nonlinear_arith)
            requires
                earlier.len() == parts.len() - 1,
        ;
    }
}

/// The uppercase form of one character, from std's `char::to_uppercase`
/// collected into a `String`.
///
/// Trusted: the result is a function of the character alone, which
/// `char_uppercase` names; for an ASCII small letter it is the ASCII capital,
/// and for any other ASCII character the character itself.
#[verifier::external_body]
fn char_to_uppercase(c: char) -> (upper: String)
    ensures
        upper@ == char_uppercase(c),
        'a' <= c && c <= 'z' ==> upper@ == seq![((c as u8) - 32) as char],
        c <= '\u{7f}' && !('a' <= c && c <= 'z') ==> upper@ == seq![c],
{
    c.to_uppercase().collect()
}

/// std's `String::push` appends the one character to the end of the string.
pub assume_specification[ String::push ](s: &mut String, c: char)
    ensures
        final(s)@ == old(s)@.push(c),
;

/// Puts `head` in place of the first character of `s`.
pub fn replace_first(s: &str, head: &str) -> (text: String)
    ensures
        text@ == with_head(s@, head@),
{
    let count = s.unicode_len();
    if count == 0 {
        return String::new();
    }
    let mut text = head.to_owned();
    text.append(s.substring_char(1, count));
    text
}

/// Puts the first character of `s` in uppercase and leaves the rest as it is.
pub fn titlecase(s: &str) -> (title: String)
    ensures
        title@ == titlecased(s@),
{
    if s.is_empty() {
        return String::new();
    }
    let upper = char_to_uppercase(s.get_char(0));
    replace_first(s, upper.as_str())
}

/// Decorates `word` with the given digit, or with none.
pub fn decorate_with(word: &str, capitalize: bool, digit: Option<u8>) -> (token: String)
    requires
        digit matches Some(d) ==> d < 10,
    ensures
        token@ == decorated(word@, capitalize, digit),
{
    let mut token = if capitalize {
        titlecase(word)
    } else {
        word.to_owned()
    };
    if let Some(d) = digit {
        token.push((48 + d) as char);
    }
    token
}

/// Decorates `word`, drawing the digit at random where one is asked for.
pub fn decorate(word: &str, capitalize: bool, append_digit: bool) -> (token: String)
    ensures
        is_decoration(token@, word@, capitalize, append_digit),
{
    let digit = if append_digit {
        Some(random_digit())
    } else {
        None
    };
    decorate_with(word, capitalize, digit)
}

/// Joins the parts with `separator` between neighbours.
pub fn join(parts: &Vec<String>, separator: &str) -> (phrase: String)
    ensures
        phrase@ == joined(views(parts@), separator@),
{
    let mut phrase = String::new();
    for i in 0..parts.len()
        invariant
            phrase@ == joined(views(parts@).take(i as int), separator@),
    {
        proof {
            let done = views(parts@).take(i + 1);
            assert(done.drop_last() =~= views(parts@).take(i as int));
            assert(done.last() == parts@[i as int]@);
        }
        if i > 0 {
            phrase.append(separator);
        }
        phrase.append(parts[i].as_str());
    }
    proof {
        assert(views(parts@).take(parts.len() as int) =~= views(parts@));
    }
    phrase
}

} // verus!
