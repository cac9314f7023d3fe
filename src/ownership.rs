//! Ownership, borrowing and slices.

use vstd::prelude::*;
use vstd::string::StringExecFns;
use vstd::utf8::{is_ascii_chars, is_ascii_chars_encode_utf8};
use crate::text::{byte_len, find_word_spans, is_last_longest, last_longest_word, word_at, words};

verus! {

/// The longer of two owned strings in bytes, the first on a tie; both are
/// moved in and only the result comes back.
pub fn longest_owned(s1: String, s2: String) -> (r: String)
    ensures
        r@ == if byte_len(s1@) >= byte_len(s2@) { s1@ } else { s2@ },
{
    if s1.as_str().len() >= s2.as_str().len() {
        s1
    } else {
        s2
    }
}

/// Moves "a" and "b2" into `longest_owned` and checks that "b2" comes back.
pub fn string_ownership() {
    let str1 = String::from_str("a");
    let str2 = String::from_str("b2");
    proof {
        reveal_strlit("a");
        reveal_strlit("b2");
        is_ascii_chars_encode_utf8(str1@);
        is_ascii_chars_encode_utf8(str2@);
    }
    let longest = longest_owned(str1, str2);
    assert(longest@ == "b2"@);
}

/// Appends `suffix` to the borrowed `string` and gives its new length in bytes.
pub fn append_and_return_length(string: &mut String, suffix: &str) -> (r: usize)
    ensures
        final(string)@ == old(string)@ + suffix@,
        r == byte_len(final(string)@),
{
    string.append(suffix);
    string.as_str().len()
}

/// Appends twice to one borrowed string, checking the lengths 6 and 9.
pub fn hard_borrowing() {
    let mut input = String::from_str("123");
    proof {
        reveal_strlit("123");
        reveal_strlit("345");
        reveal_strlit("678");
    }
    let first = append_and_return_length(&mut input, "345");
    proof {
        assert(is_ascii_chars(input@));
        is_ascii_chars_encode_utf8(input@);
    }
    assert(first == 6);
    let second = append_and_return_length(&mut input, "678");
    proof {
        assert(is_ascii_chars(input@));
        is_ascii_chars_encode_utf8(input@);
    }
    assert(second == 9);
}

/// The last word of `slice`; `slice` itself when it holds no word.
pub fn last_word(slice: &str) -> (r: &str)
    ensures
        r@ == if words(slice@).len() == 0 { slice@ } else { words(slice@).last() },
{
    let spans = find_word_spans(slice);
    if spans.len() == 0 {
        slice
    } else {
        word_at(slice, &spans, spans.len() - 1)
    }
}

/// The longest word of `sentence` in bytes, the last of them on a tie;
/// `sentence` itself when it holds no word.
pub fn longest_word(sentence: &str) -> (r: &str)
    ensures
        words(sentence@).len() == 0 ==> r@ == sentence@,
        words(sentence@).len() > 0 ==> exists|j: int|
            is_last_longest(words(sentence@), j) && r@ == words(sentence@)[j],
{
    let spans = find_word_spans(sentence);
    if spans.len() == 0 {
        sentence
    } else {
        let j = last_longest_word(sentence, &spans);
        word_at(sentence, &spans, j)
    }
}

} // verus!
