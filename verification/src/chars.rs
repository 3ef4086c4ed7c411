//! Classes of characters, and where they stand in a text.

use vstd::prelude::*;

verus! {

/// What `char::is_whitespace` says of a character.
pub uninterp spec fn whitespace(c: char) -> bool;

/// What `char::is_alphanumeric` says of a character.
pub uninterp spec fn alphanumeric(c: char) -> bool;

/// What `char::is_uppercase` says of a character.
pub uninterp spec fn uppercase(c: char) -> bool;

/// What `char::is_lowercase` says of a character.
pub uninterp spec fn lowercase(c: char) -> bool;

/// What `char::to_uppercase` maps a character to.
pub uninterp spec fn upper_of(c: char) -> Seq<char>;

/// What `char::to_lowercase` maps a character to.
pub uninterp spec fn lower_of(c: char) -> Seq<char>;

/// What `str::to_uppercase` makes of a text.
pub uninterp spec fn upper_text(s: Seq<char>) -> Seq<char>;

/// What `str::to_lowercase` makes of a text.
pub uninterp spec fn lower_text(s: Seq<char>) -> Seq<char>;

/// `char::is_whitespace`: whether the character has the Unicode property `White_Space`, which
/// among the first 128 characters holds of the space and of the five characters from the tab to
/// the carriage return.
#[verifier::external_body]
pub(crate) fn is_whitespace(c: char) -> (b: bool)
    ensures
        b == whitespace(c),
        (c as u32) < 128 ==> b == (c == ' ' || 9 <= c as u32 <= 13),
{
    c.is_whitespace()
}

/// `char::is_alphanumeric`: whether the character is a letter or a number.
#[verifier::external_body]
pub(crate) fn is_alphanumeric(c: char) -> (b: bool)
    ensures
        b == alphanumeric(c),
{
    c.is_alphanumeric()
}

/// `char::is_uppercase`: whether the character has the Unicode property `Uppercase`.
#[verifier::external_body]
pub(crate) fn is_uppercase(c: char) -> (b: bool)
    ensures
        b == uppercase(c),
{
    c.is_uppercase()
}

/// `char::is_lowercase`: whether the character has the Unicode property `Lowercase`.
#[verifier::external_body]
pub(crate) fn is_lowercase(c: char) -> (b: bool)
    ensures
        b == lowercase(c),
{
    c.is_lowercase()
}

/// `char::to_uppercase`: the characters that the Unicode uppercase mapping gives for one.
#[verifier::external_body]
pub(crate) fn char_to_uppercase(c: char) -> (out: Vec<char>)
    ensures
        out@ == upper_of(c),
{
    c.to_uppercase().collect()
}

/// `char::to_lowercase`: the characters that the Unicode lowercase mapping gives for one.
#[verifier::external_body]
pub(crate) fn char_to_lowercase(c: char) -> (out: Vec<char>)
    ensures
        out@ == lower_of(c),
{
    c.to_lowercase().collect()
}

/// `str::to_uppercase`: the uppercase form of a whole text.
#[verifier::external_body]
pub(crate) fn text_to_uppercase(s: &str) -> (out: String)
    ensures
        out@ == upper_text(s@),
{
    s.to_uppercase()
}

/// `str::to_lowercase`: the lowercase form of a whole text.
#[verifier::external_body]
pub(crate) fn text_to_lowercase(s: &str) -> (out: String)
    ensures
        out@ == lower_text(s@),
{
    s.to_lowercase()
}

/// A character of a word: a letter, a number or an underscore.
pub open spec fn word_char(c: char) -> bool {
    alphanumeric(c) || c == '_'
}

/// Whether `c` is a character of a word.
pub fn char_is_word(c: char) -> (b: bool)
    ensures
        b == word_char(c),
{
    is_alphanumeric(c) || c == '_'
}

/// How many whitespace characters `s` begins with.
pub open spec fn leading_whitespace(s: Seq<char>) -> int
    decreases s.len(),
{
    if s.len() > 0 && whitespace(s[0]) {
        1 + leading_whitespace(s.skip(1))
    } else {
        0
    }
}

/// How many whitespace characters `s` ends with.
pub open spec fn trailing_whitespace(s: Seq<char>) -> int
    decreases s.len(),
{
    if s.len() > 0 && whitespace(s.last()) {
        1 + trailing_whitespace(s.drop_last())
    } else {
        0
    }
}

/// How many whitespace characters stand in `chars` from `from` on, before another character or
/// the position `to`.
pub fn count_leading_whitespace(chars: &Vec<char>, from: usize, to: usize) -> (n: usize)
    requires
        from <= to <= chars@.len(),
    ensures
        n == leading_whitespace(chars@.subrange(from as int, to as int)),
        n <= to - from,
        forall|i: int| from <= i < from + n ==> whitespace(chars@[i]),
        n < to - from ==> !whitespace(chars@[from + n]),
{
    let mut n: usize = 0;
    let ghost s = chars@.subrange(from as int, to as int);
    assert(s.skip(0) =~= s);
    while n < to - from && is_whitespace(chars[from + n])
        invariant
            from <= to <= chars@.len(),
            n <= to - from,
            s == chars@.subrange(from as int, to as int),
            leading_whitespace(s) == n + leading_whitespace(s.skip(n as int)),
            forall|i: int| from <= i < from + n ==> whitespace(chars@[i]),
        decreases to - from - n,
    {
        assert(s.skip(n as int).skip(1) =~= s.skip(n + 1));
        n += 1;
    }
    n
}

/// How many whitespace characters stand in `chars` right before `to`, back to `from` at most.
pub fn count_trailing_whitespace(chars: &Vec<char>, from: usize, to: usize) -> (n: usize)
    requires
        from <= to <= chars@.len(),
    ensures
        n == trailing_whitespace(chars@.subrange(from as int, to as int)),
        n <= to - from,
{
    let mut n: usize = 0;
    let ghost s = chars@.subrange(from as int, to as int);
    assert(s.take(s.len() as int) =~= s);
    while n < to - from && is_whitespace(chars[to - n - 1])
        invariant
            from <= to <= chars@.len(),
            n <= to - from,
            s == chars@.subrange(from as int, to as int),
            trailing_whitespace(s) == n + trailing_whitespace(s.take(s.len() - n)),
        decreases to - from - n,
    {
        assert(s.take(s.len() - n).drop_last() =~= s.take(s.len() - n - 1));
        n += 1;
    }
    n
}

pub proof fn lemma_leading_whitespace(s: Seq<char>)
    ensures
        0 <= leading_whitespace(s) <= s.len(),
    decreases s.len(),
{
    if s.len() > 0 && whitespace(s[0]) {
        lemma_leading_whitespace(s.skip(1));
    }
}

/// The whitespace that a text begins or ends with is all whitespace, and reaches as far as it can.
pub proof fn whitespace_at_the_ends_is_counted(s: Seq<char>)
    ensures
        0 <= leading_whitespace(s) <= s.len(),
        forall|i: int| 0 <= i < leading_whitespace(s) ==> whitespace(#[trigger] s[i]),
        leading_whitespace(s) < s.len() ==> !whitespace(s[leading_whitespace(s)]),
        0 <= trailing_whitespace(s) <= s.len(),
        forall|i: int|
            s.len() - trailing_whitespace(s) <= i < s.len() ==> whitespace(#[trigger] s[i]),
        trailing_whitespace(s) < s.len() ==> !whitespace(s[s.len() - trailing_whitespace(s) - 1]),
    decreases s.len(),
{
    if s.len() > 0 {
        let rest = s.skip(1);
        let front = s.drop_last();
        whitespace_at_the_ends_is_counted(rest);
        whitespace_at_the_ends_is_counted(front);
        if whitespace(s[0]) {
            assert forall|i: int| 0 <= i < leading_whitespace(s) implies whitespace(
                #[trigger] s[i],
            ) by {
                if i > 0 {
                    assert(rest[i - 1] == s[i]);
                }
            }
            if leading_whitespace(s) < s.len() {
                assert(rest[leading_whitespace(s) - 1] == s[leading_whitespace(s)]);
            }
        }
        if whitespace(s.last()) {
            assert forall|i: int|
                s.len() - trailing_whitespace(s) <= i < s.len() implies whitespace(
                #[trigger] s[i],
            ) by {
                if i < s.len() - 1 {
                    assert(front[i] == s[i]);
                }
            }
        }
    }
}

} // verus!
