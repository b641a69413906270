//! Sanitising a word list: a line is a word when none of its characters is
//! an uppercase letter, a punctuation mark of ASCII, or white space.

use vstd::prelude::*;
use crate::lexicon::lemma_filter_nothing;
use crate::words::{chars_of, word_views};

verus! {

/// What `char::is_uppercase` returns: whether Unicode lists the character
/// as `Uppercase`.
pub uninterp spec fn is_uppercase(c: char) -> bool;

/// Whether `c` is white space, one of the characters that Unicode lists as
/// `White_Space`: the controls from the tabulator to the carriage return, the
/// blank, the next-line control, the no-break blank, the Ogham space mark,
/// the blanks of fixed width from the en quad to the hair space, the line
/// and the paragraph separator, the narrow no-break blank, the medium
/// mathematical blank and the ideographic blank.
pub open spec fn is_whitespace(c: char) -> bool {
    ||| '\u{9}' <= c <= '\u{d}'
    ||| c == ' '
    ||| c == '\u{85}'
    ||| c == '\u{a0}'
    ||| c == '\u{1680}'
    ||| '\u{2000}' <= c <= '\u{200a}'
    ||| c == '\u{2028}'
    ||| c == '\u{2029}'
    ||| c == '\u{202f}'
    ||| c == '\u{205f}'
    ||| c == '\u{3000}'
}

/// Whether `c` is one of the punctuation marks of ASCII:
/// ``! " # $ % & ' ( ) * + , - . /``, ``: ; < = > ? @``, ``[ \ ] ^ _ ` ``
/// or ``{ | } ~``.
pub open spec fn is_ascii_punctuation(c: char) -> bool {
    ||| '!' <= c <= '/'
    ||| ':' <= c <= '@'
    ||| '[' <= c <= '`'
    ||| '{' <= c <= '~'
}

/// The verdict on a character from what it is: it may stand in a word when
/// it is neither an uppercase letter, nor a punctuation mark, nor white
/// space.
pub open spec fn admitted(upper: bool, mark: bool, space: bool) -> bool {
    !upper && !mark && !space
}

/// Whether a character may stand in a word.
pub open spec fn allowed(c: char) -> bool {
    admitted(is_uppercase(c), is_ascii_punctuation(c), is_whitespace(c))
}

/// Whether every character of `line` may stand in a word.
pub open spec fn clean(line: Seq<char>) -> bool {
    forall|i: int| 0 <= i < line.len() ==> allowed(#[trigger] line[i])
}

/// [`clean`] as a predicate on words.
pub open spec fn is_word() -> spec_fn(Seq<char>) -> bool {
    |line: Seq<char>| clean(line)
}

/// Whether `c` is an uppercase letter.
///
/// Trusted: this is `char::is_uppercase`, a table lookup that depends on the
/// character alone.
#[verifier::external_body]
pub(crate) fn char_is_uppercase(c: char) -> (upper: bool)
    ensures
        upper == is_uppercase(c),
{
    c.is_uppercase()
}

/// Whether `c` is white space.
pub fn char_is_whitespace(c: char) -> (space: bool)
    ensures
        space == is_whitespace(c),
{
    ('\u{9}' <= c && c <= '\u{d}') || c == ' ' || c == '\u{85}' || c == '\u{a0}' || c
        == '\u{1680}' || ('\u{2000}' <= c && c <= '\u{200a}') || c == '\u{2028}' || c
        == '\u{2029}' || c == '\u{202f}' || c == '\u{205f}' || c == '\u{3000}'
}

/// The verdict on a character, given whether it is an uppercase letter, a
/// punctuation mark of ASCII, white space.
pub fn may_stand(upper: bool, mark: bool, space: bool) -> (ok: bool)
    ensures
        ok == admitted(upper, mark, space),
{
    !upper && !mark && !space
}

/// Whether `c` is a punctuation mark of ASCII.
pub fn char_is_ascii_punctuation(c: char) -> (mark: bool)
    ensures
        mark == is_ascii_punctuation(c),
{
    ('!' <= c && c <= '/') || (':' <= c && c <= '@') || ('[' <= c && c <= '`') || ('{' <= c && c
        <= '~')
}

/// Whether `line` is a word: no uppercase letter, no punctuation mark of
/// ASCII and no white space in it.
pub fn is_clean(line: &str) -> (ok: bool)
    ensures
        ok == clean(line@),
{
    let letters = chars_of(line);
    let mut i: usize = 0;
    while i < letters.len()
        invariant
            i <= letters.len(),
            letters@ == line@,
            forall|k: int| 0 <= k < i ==> allowed(#[trigger] line@[k]),
        decreases letters.len() - i,
    {
        let c = letters[i];
        let ok = may_stand(
            char_is_uppercase(c),
            char_is_ascii_punctuation(c),
            char_is_whitespace(c),
        );
        if !ok {
            assert(!allowed(line@[i as int]));
            return false;
        }
        i += 1;
    }
    true
}

/// The lines that are words, in their order.
pub fn filter_words(lines: Vec<String>) -> (words: Vec<String>)
    ensures
        word_views(words@) == word_views(lines@).filter(is_word()),
{
    let mut words: Vec<String> = Vec::new();
    let mut i: usize = 0;
    proof {
        lemma_filter_nothing(is_word());
        assert(word_views(lines@.take(0)) =~= Seq::empty());
        assert(word_views(words@) =~= Seq::empty());
    }
    while i < lines.len()
        invariant
            i <= lines.len(),
            word_views(words@) == word_views(lines@.take(i as int)).filter(is_word()),
        decreases lines.len() - i,
    {
        let keep = is_clean(lines[i].as_str());
        proof {
            let seen = word_views(lines@.take(i as int));
            let w = lines@[i as int]@;
            assert(word_views(lines@.take(i + 1)) =~= seen.push(w));
            seen.lemma_filter_push(w, is_word());
            if keep {
                assert(word_views(words@.push(lines@[i as int])) =~= word_views(words@).push(w));
            }
        }
        if keep {
            words.push(lines[i].clone());
        }
        i += 1;
    }
    assert(lines@.take(lines@.len() as int) =~= lines@);
    words
}

} // verus!
