//! Words as sequences of characters, and the few string operations the
//! lexicon and the search are built from.
//!
//! A word is modelled by its view, a `Seq<char>`. Its length is the number of
//! characters, never the number of bytes.

use vstd::prelude::*;

verus! {

/// The character sequences of a list of words, in the same order.
pub open spec fn word_views(words: Seq<String>) -> Seq<Seq<char>> {
    words.map_values(|w: String| w@)
}

/// Number of characters of `word`.
pub fn char_count(word: &str) -> (n: usize)
    ensures
        n == word@.len(),
{
    word.unicode_len()
}

/// The characters of `word`, one by one.
pub fn chars_of(word: &str) -> (chars: Vec<char>)
    ensures
        chars@ == word@,
{
    broadcast use vstd::string::group_string_axioms;

    let mut chars: Vec<char> = Vec::new();
    for c in it: word.chars()
        invariant
            it.seq() == word@,
            chars@ == word@.take(it.index()),
    {
        chars.push(c);
    }
    chars
}

/// Whether `word` begins with `prefix`.
pub fn starts_with(word: &[char], prefix: &[char]) -> (found: bool)
    ensures
        found == prefix@.is_prefix_of(word@),
{
    if prefix.len() > word.len() {
        return false;
    }
    let mut k: usize = 0;
    while k < prefix.len()
        invariant
            k <= prefix.len() <= word.len(),
            forall|j: int| 0 <= j < k ==> prefix@[j] == word@[j],
        decreases prefix.len() - k,
    {
        if prefix[k] != word[k] {
            assert(word@.subrange(0, prefix@.len() as int)[k as int] == word@[k as int]);
            return false;
        }
        k += 1;
    }
    assert(prefix@ =~= word@.subrange(0, prefix@.len() as int));
    true
}

/// Appends one character to `text`.
///
/// Trusted: this is `String::push`, which std documents as appending the
/// given `char` to the end of the string and doing nothing else.
#[verifier::external_body]
pub(crate) fn push_char(text: &mut String, c: char)
    ensures
        final(text)@ == old(text)@.push(c),
{
    text.push(c)
}

} // verus!
