//! Splitting a line into words, and reading numbers.
use vstd::prelude::*;
use vstd::string::{StrSliceExecFns, StringExecFns};

verus! {

/// Whether a character has the Unicode property `White_Space`, as
/// `char::is_whitespace` of the standard library reports it.
pub uninterp spec fn is_white_space(c: char) -> bool;

/// `char::is_whitespace` of the standard library: whether the character has
/// the Unicode property `White_Space`.
pub assume_specification[ char::is_whitespace ](c: char) -> (r: bool)
    ensures
        r == is_white_space(c),
;

/// The words that are complete after the characters of `s`, and the word
/// that is still open: a word is a longest run of characters that are not
/// white space.
pub open spec fn scan_words(s: Seq<char>) -> (Seq<Seq<char>>, Seq<char>)
    decreases s.len(),
{
    if s.len() == 0 {
        (Seq::empty(), Seq::empty())
    } else {
        let (words, open) = scan_words(s.drop_last());
        if !is_white_space(s.last()) {
            (words, open.push(s.last()))
        } else if open.len() > 0 {
            (words.push(open), Seq::empty())
        } else {
            (words, open)
        }
    }
}

/// The words of `s`, in their order.
pub open spec fn split_words(s: Seq<char>) -> Seq<Seq<char>> {
    let (words, open) = scan_words(s);
    if open.len() > 0 {
        words.push(open)
    } else {
        words
    }
}

/// The texts of a list of strings.
pub open spec fn texts(words: Seq<String>) -> Seq<Seq<char>> {
    Seq::new(words.len(), |i: int| words[i]@)
}

/// Splits a line into its words.
pub fn words_of(line: &str) -> (words: Vec<String>)
    ensures
        texts(words@) == split_words(line@),
{
    let mut words: Vec<String> = Vec::new();
    let mut open = String::new();
    let count = line.unicode_len();
    let mut i: usize = 0;
    proof {
        assert(line@.take(0) =~= Seq::<char>::empty());
        assert(texts(words@) =~= Seq::<Seq<char>>::empty());
    }
    while i < count
        invariant
            count == line@.len(),
            0 <= i <= count,
            (texts(words@), open@) == scan_words(line@.take(i as int)),
        decreases count - i,
    {
        let c = line.get_char(i);
        proof {
            let upto = line@.take(i as int + 1);
            assert(upto.drop_last() =~= line@.take(i as int));
            assert(upto.last() == c);
        }
        let ghost before = texts(words@);
        if !c.is_whitespace() {
            open.push(c);
        } else if !open.as_str().is_empty() {
            words.push(open);
            open = String::new();
            proof {
                assert(texts(words@) =~= before.push(words@.last()@));
            }
        }
        i = i + 1;
    }
    proof {
        assert(line@.take(count as int) =~= line@);
    }
    let ghost before = texts(words@);
    if !open.as_str().is_empty() {
        words.push(open);
        proof {
            assert(texts(words@) =~= before.push(words@.last()@));
        }
    }
    words
}

/// Whether `word` is the text `text`.
pub fn is_word(word: &String, text: &str) -> (r: bool)
    ensures
        r == (word@ == text@),
{
    let other = String::from_str(text);
    *word == other
}

/// Whether a character is a decimal digit.
pub open spec fn is_digit(c: char) -> bool {
    '0' <= c <= '9'
}

/// Whether every character is a decimal digit.
pub open spec fn all_digits(s: Seq<char>) -> bool {
    forall|i: int| 0 <= i < s.len() ==> is_digit(#[trigger] s[i])
}

/// The number that a run of decimal digits writes.
pub open spec fn digits_value(s: Seq<char>) -> nat
    decreases s.len(),
{
    if s.len() == 0 {
        0
    } else {
        (10 * digits_value(s.drop_last()) + (s.last() as nat - '0' as nat)) as nat
    }
}

/// The number that a text writes: an optional plus sign, then at least one
/// decimal digit and nothing else, for a value that fits in 64 bits.
pub open spec fn spell_number(s: Seq<char>) -> Option<u64> {
    let digits = if s.len() > 0 && s[0] == '+' {
        s.skip(1)
    } else {
        s
    };
    if digits.len() > 0 && all_digits(digits) && digits_value(digits) <= u64::MAX {
        Some(digits_value(digits) as u64)
    } else {
        None
    }
}

/// A run of digits writes a number at least as large as any of its
/// beginnings does.
pub proof fn lemma_digits_value_grows(s: Seq<char>, n: int)
    requires
        all_digits(s),
        0 <= n <= s.len(),
    ensures
        digits_value(s.take(n)) <= digits_value(s),
    decreases s.len() - n,
{
    if n < s.len() {
        lemma_digits_value_grows(s, n + 1);
        assert(s.take(n + 1).drop_last() =~= s.take(n));
        assert(is_digit(s[n]));
        assert(s.take(n + 1).last() == s[n]);
    } else {
        assert(s.take(n) =~= s);
    }
}

/// Reads a number.
pub fn parse_number(s: &str) -> (r: Option<u64>)
    ensures
        r == spell_number(s@),
{
    let count = s.unicode_len();
    if count == 0 {
        return None;
    }
    let start: usize = if s.get_char(0) == '+' {
        1
    } else {
        0
    };
    if start == count {
        return None;
    }
    let ghost digits = s@.skip(start as int);
    let mut value: u64 = 0;
    let mut i: usize = start;
    proof {
        assert(digits.take(0) =~= Seq::<char>::empty());
        assert(s@.skip(0) =~= s@);
    }
    while i < count
        invariant
            count == s@.len(),
            start < count,
            start <= i <= count,
            digits == s@.skip(start as int),
            digits == (if s@.len() > 0 && s@[0] == '+' {
                s@.skip(1)
            } else {
                s@
            }),
            all_digits(digits.take(i - start)),
            value == digits_value(digits.take(i - start)),
        decreases count - i,
    {
        let c = s.get_char(i);
        proof {
            let upto = digits.take(i - start + 1);
            assert(upto.drop_last() =~= digits.take(i - start));
            assert(upto.last() == c);
            assert(digits[i - start] == c);
        }
        if !('0' <= c && c <= '9') {
            assert(!all_digits(digits));
            return None;
        }
        let d: u64 = (c as u32 - '0' as u32) as u64;
        proof {
            let upto = digits.take(i - start + 1);
            assert forall|j: int| 0 <= j < upto.len() implies is_digit(#[trigger] upto[j]) by {
                if j < i - start {
                    assert(upto[j] == digits.take(i - start)[j]);
                }
            }
            if 10 * value + d > u64::MAX {
                if all_digits(digits) {
                    lemma_digits_value_grows(digits, i - start + 1);
                }
            }
        }
        if value > (u64::MAX - d) / 10 {
            return None;
        }
        value = 10 * value + d;
        i = i + 1;
    }
    proof {
        assert(digits.take(count - start) =~= digits);
    }
    Some(value)
}

/// A character in lower case: the letters `A` to `Z` become `a` to `z`, and
/// every other character stays.
pub open spec fn lower_char(c: char) -> char {
    if 'A' <= c <= 'Z' {
        ((c as u8 + 32) as u8) as char
    } else {
        c
    }
}

/// The words joined without anything between them.
pub open spec fn joined(words: Seq<Seq<char>>) -> Seq<char>
    decreases words.len(),
{
    if words.len() == 0 {
        Seq::empty()
    } else {
        joined(words.drop_last()) + words.last()
    }
}

/// The words in lower case, joined without anything between them.
pub open spec fn joined_lower(words: Seq<Seq<char>>) -> Seq<char> {
    joined(words).map_values(|c: char| lower_char(c))
}

/// A character in lower case.
pub fn lower(c: char) -> (r: char)
    ensures
        r == lower_char(c),
{
    if 'A' <= c && c <= 'Z' {
        ((c as u8) + 32) as char
    } else {
        c
    }
}

/// Appends the characters of `word` in lower case.
pub fn push_lower(s: &mut String, word: &str)
    ensures
        final(s)@ == old(s)@ + word@.map_values(|c: char| lower_char(c)),
{
    let ghost before = s@;
    let count = word.unicode_len();
    let mut i: usize = 0;
    while i < count
        invariant
            count == word@.len(),
            0 <= i <= count,
            s@ == before + word@.take(i as int).map_values(|c: char| lower_char(c)),
        decreases count - i,
    {
        s.push(lower(word.get_char(i)));
        proof {
            assert(s@ =~= before + word@.take(i as int + 1).map_values(|c: char| lower_char(c)));
        }
        i = i + 1;
    }
    proof {
        assert(word@.take(count as int) =~= word@);
    }
}

} // verus!
