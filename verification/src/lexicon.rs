//! The lexicon: a fixed set of words that answers "which words of length `n`
//! start with prefix `p`".
//!
//! A lexicon is modelled by its entries, the retained words in the order in
//! which they were inserted. Every answer is a filter of that sequence, so two
//! lexicons with the same entries are interchangeable for the search.

use vstd::prelude::*;
use vstd::string::StringExecFns;
use crate::words::{char_count, chars_of, starts_with, word_views};

verus! {

/// Holds of the words whose length is one of `lengths`.
pub open spec fn length_allowed(lengths: Seq<usize>) -> spec_fn(Seq<char>) -> bool {
    |w: Seq<char>| exists|i: int| 0 <= i < lengths.len() && #[trigger] lengths[i] as nat == w.len()
}

/// The words in their order, each only where it stands first.
pub open spec fn first_only(words: Seq<Seq<char>>) -> Seq<Seq<char>>
    decreases words.len(),
{
    if words.len() == 0 {
        Seq::empty()
    } else {
        let front = first_only(words.drop_last());
        if front.contains(words.last()) {
            front
        } else {
            front.push(words.last())
        }
    }
}

/// The words that a lexicon built from `words` keeps, in insertion order:
/// those of an allowed length, each once, where it was first given.
pub open spec fn retained(words: Seq<Seq<char>>, lengths: Seq<usize>) -> Seq<Seq<char>> {
    first_only(words.filter(length_allowed(lengths)))
}

/// Holds of the words of exactly `len` characters that start with `prefix`.
pub open spec fn fits(prefix: Seq<char>, len: nat) -> spec_fn(Seq<char>) -> bool {
    |w: Seq<char>| w.len() == len && prefix.is_prefix_of(w)
}

/// The entries of exactly `len` characters that start with `prefix`, in
/// insertion order.
pub open spec fn matching(entries: Seq<Seq<char>>, prefix: Seq<char>, len: nat) -> Seq<Seq<char>> {
    entries.filter(fits(prefix, len))
}

/// Filtering no words leaves no words.
pub proof fn lemma_filter_nothing(keep: spec_fn(Seq<char>) -> bool)
    ensures
        Seq::<Seq<char>>::empty().filter(keep) == Seq::<Seq<char>>::empty(),
{
    reveal(Seq::filter);
}

/// A word is among the kept ones exactly when it is among the words and
/// is to be kept.
pub proof fn lemma_filter_membership(
    words: Seq<Seq<char>>,
    keep: spec_fn(Seq<char>) -> bool,
    word: Seq<char>,
)
    ensures
        words.filter(keep).contains(word) <==> words.contains(word) && keep(word),
{
    if words.filter(keep).contains(word) {
        let i = choose|i: int| 0 <= i < words.filter(keep).len() && words.filter(keep)[i] == word;
        words.lemma_filter_pred(keep, i);
        words.lemma_filter_contains_rev(keep, word);
    }
    if words.contains(word) && keep(word) {
        let i = choose|i: int| 0 <= i < words.len() && words[i] == word;
        words.lemma_filter_contains(keep, i);
    }
}

/// Keeping some of a list of distinct words leaves distinct words.
pub proof fn lemma_filter_distinct(words: Seq<Seq<char>>, keep: spec_fn(Seq<char>) -> bool)
    requires
        words.no_duplicates(),
    ensures
        words.filter(keep).no_duplicates(),
    decreases words.len(),
{
    if words.len() == 0 {
        lemma_filter_nothing(keep);
        assert(words =~= Seq::empty());
    } else {
        let front = words.drop_last();
        let last = words.last();
        assert(words =~= front.push(last));
        lemma_filter_distinct(front, keep);
        front.lemma_filter_push(last, keep);
        lemma_filter_membership(front, keep, last);
        if front.contains(last) {
            let i = choose|i: int| 0 <= i < front.len() && front[i] == last;
            assert(words[i] == words[words.len() - 1]);
        }
    }
}

/// A further word is kept unless it stands among the kept ones already.
pub proof fn lemma_first_only_push(words: Seq<Seq<char>>, word: Seq<char>)
    ensures
        first_only(words.push(word)) == if first_only(words).contains(word) {
            first_only(words)
        } else {
            first_only(words).push(word)
        },
{
    assert(words.push(word).drop_last() =~= words);
}

/// Keeping first occurrences leaves every word that was given, and none
/// twice.
pub proof fn lemma_first_only(words: Seq<Seq<char>>)
    ensures
        first_only(words).no_duplicates(),
        forall|w: Seq<char>| #[trigger] first_only(words).contains(w) <==> words.contains(w),
    decreases words.len(),
{
    if words.len() > 0 {
        let front = words.drop_last();
        let last = words.last();
        let kept = first_only(front);
        lemma_first_only(front);
        assert forall|w: Seq<char>| #[trigger] first_only(words).contains(w) <==> words.contains(
            w,
        ) by {
            if words.contains(w) {
                let i = choose|i: int| 0 <= i < words.len() && words[i] == w;
                if i < front.len() {
                    assert(front[i] == w);
                    assert(kept.contains(w));
                    let k = choose|k: int| 0 <= k < kept.len() && kept[k] == w;
                    assert(first_only(words)[k] == w);
                } else if !kept.contains(last) {
                    assert(first_only(words)[kept.len() as int] == w);
                }
            }
            if first_only(words).contains(w) {
                let k = choose|k: int| 0 <= k < first_only(words).len() && first_only(words)[k] == w;
                if k < kept.len() {
                    assert(kept[k] == w);
                    assert(kept.contains(w));
                    assert(front.contains(w));
                    let i = choose|i: int| 0 <= i < front.len() && front[i] == w;
                    assert(words[i] == w);
                } else {
                    assert(words[words.len() - 1] == w);
                }
            }
        }
    }
}

/// A lexicon built from the same words in another order answers every query
/// with the same set of words: what is found depends on which words were
/// given, not on where they stood.
pub proof fn lemma_rebuild_answers_alike(
    words: Seq<Seq<char>>,
    reordered: Seq<Seq<char>>,
    lengths: Seq<usize>,
    prefix: Seq<char>,
    len: nat,
)
    requires
        words.to_set() == reordered.to_set(),
    ensures
        matching(retained(words, lengths), prefix, len).to_set() == matching(
            retained(reordered, lengths),
            prefix,
            len,
        ).to_set(),
{
    let first = matching(retained(words, lengths), prefix, len);
    let second = matching(retained(reordered, lengths), prefix, len);
    lemma_first_only(words.filter(length_allowed(lengths)));
    lemma_first_only(reordered.filter(length_allowed(lengths)));
    assert forall|w: Seq<char>| first.to_set().contains(w) == second.to_set().contains(w) by {
        lemma_filter_membership(retained(words, lengths), fits(prefix, len), w);
        lemma_filter_membership(words, length_allowed(lengths), w);
        lemma_filter_membership(retained(reordered, lengths), fits(prefix, len), w);
        lemma_filter_membership(reordered, length_allowed(lengths), w);
        assert(words.contains(w) == words.to_set().contains(w));
        assert(reordered.contains(w) == reordered.to_set().contains(w));
        assert(retained(words, lengths).contains(w) == words.filter(
            length_allowed(lengths),
        ).contains(w));
        assert(retained(reordered, lengths).contains(w) == reordered.filter(
            length_allowed(lengths),
        ).contains(w));
    }
    assert(first.to_set() =~= second.to_set());
}

/// No word is kept twice and no word is found twice, however often it was
/// given.
pub proof fn lemma_answers_distinct(
    words: Seq<Seq<char>>,
    lengths: Seq<usize>,
    prefix: Seq<char>,
    len: nat,
)
    ensures
        retained(words, lengths).no_duplicates(),
        matching(retained(words, lengths), prefix, len).no_duplicates(),
{
    lemma_first_only(words.filter(length_allowed(lengths)));
    lemma_filter_distinct(retained(words, lengths), fits(prefix, len));
}

/// A word is kept exactly when it was given and has an allowed length.
pub proof fn lemma_retained_membership(
    words: Seq<Seq<char>>,
    lengths: Seq<usize>,
    word: Seq<char>,
)
    ensures
        retained(words, lengths).contains(word) <==> words.contains(word) && length_allowed(
            lengths,
        )(word),
{
    lemma_first_only(words.filter(length_allowed(lengths)));
    lemma_filter_membership(words, length_allowed(lengths), word);
    assert(retained(words, lengths).contains(word) == words.filter(
        length_allowed(lengths),
    ).contains(word));
}

/// A word index that the search can query.
pub trait Lexicon: Sized {
    /// The invariant of the index.
    spec fn wf(&self) -> bool;

    /// The retained words, in insertion order.
    spec fn entries(&self) -> Seq<Seq<char>>;

    /// No word is an entry twice.
    proof fn lemma_entries_distinct(&self)
        requires
            self.wf(),
        ensures
            self.entries().no_duplicates(),
    ;

    /// Builds the index from `words`, keeping those whose length is in
    /// `lengths`, each once, where it is first given.
    fn initialize(words: Vec<String>, lengths: Vec<usize>) -> (lexicon: Self)
        ensures
            lexicon.wf(),
            lexicon.entries() == retained(word_views(words@), lengths@),
            lexicon.entries().no_duplicates(),
    ;

    /// The retained words of exactly `word_len` characters that start with
    /// `prefix`, in insertion order and each once. An empty answer is an
    /// ordinary outcome.
    fn words_with_prefix(&self, prefix: &String, word_len: usize) -> (found: Vec<String>)
        requires
            self.wf(),
        ensures
            word_views(found@) == matching(self.entries(), prefix@, word_len as nat),
            word_views(found@).no_duplicates(),
    ;
}

/// Whether `word` stands in `list`.
pub fn contains_word(list: &Vec<String>, word: &String) -> (found: bool)
    ensures
        found == word_views(list@).contains(word@),
{
    let mut i: usize = 0;
    while i < list.len()
        invariant
            i <= list.len(),
            forall|j: int| 0 <= j < i ==> (#[trigger] list@[j])@ != word@,
        decreases list.len() - i,
    {
        if list[i] == *word {
            assert(word_views(list@)[i as int] == word@);
            return true;
        }
        i += 1;
    }
    assert forall|j: int| 0 <= j < word_views(list@).len() implies word_views(list@)[j]
        != word@ by {
        assert(word_views(list@)[j] == list@[j]@);
    }
    false
}

/// Whether `n` occurs in `lengths`.
pub fn contains_length(lengths: &Vec<usize>, n: usize) -> (found: bool)
    ensures
        found == exists|i: int| 0 <= i < lengths@.len() && #[trigger] lengths@[i] == n,
{
    let mut i: usize = 0;
    while i < lengths.len()
        invariant
            i <= lengths.len(),
            forall|j: int| 0 <= j < i ==> #[trigger] lengths@[j] != n,
        decreases lengths.len() - i,
    {
        if lengths[i] == n {
            return true;
        }
        i += 1;
    }
    false
}

/// A lexicon kept as a flat list and scanned on every query.
#[derive(Debug, Clone, PartialEq, Eq)]
pub struct VecLexicon {
    words: Vec<String>,
}

/// The first `n` of `words`, one after the other, with a comma and a blank
/// between each two.
pub open spec fn joined(words: Seq<Seq<char>>, n: nat) -> Seq<char>
    decreases n,
{
    if n == 0 {
        Seq::empty()
    } else if n == 1 {
        words[0]
    } else {
        joined(words, (n - 1) as nat) + seq![',', ' '] + words[n - 1]
    }
}

impl VecLexicon {
    /// The entries in insertion order, separated by a comma and a blank.
    pub fn to_text(&self) -> (text: String)
        ensures
            text@ == joined(self.entries(), self.entries().len()),
    {
        let mut text = String::new();
        let mut i: usize = 0;
        assert(text@ =~= joined(self.entries(), 0));
        while i < self.words.len()
            invariant
                i <= self.words.len(),
                text@ == joined(self.entries(), i as nat),
            decreases self.words.len() - i,
        {
            if i > 0 {
                proof {
                    reveal_strlit(", ");
                }
                text.append(", ");
                assert(", "@ =~= seq![',', ' ']);
            }
            text.append(self.words[i].as_str());
            assert(self.entries()[i as int] == self.words@[i as int]@);
            assert(text@ =~= joined(self.entries(), (i + 1) as nat));
            i += 1;
        }
        text
    }
}

impl Lexicon for VecLexicon {
    open spec fn wf(&self) -> bool {
        self.entries().no_duplicates()
    }

    closed spec fn entries(&self) -> Seq<Seq<char>> {
        word_views(self.words@)
    }

    proof fn lemma_entries_distinct(&self) {
    }

    fn initialize(words: Vec<String>, lengths: Vec<usize>) -> (lexicon: Self) {
        let mut kept: Vec<String> = Vec::new();
        let mut i: usize = 0;
        proof {
            lemma_filter_nothing(length_allowed(lengths@));
            assert(word_views(words@.take(0)) =~= Seq::empty());
            assert(word_views(kept@) =~= Seq::empty());
        }
        while i < words.len()
            invariant
                i <= words.len(),
                word_views(kept@) == retained(word_views(words@.take(i as int)), lengths@),
            decreases words.len() - i,
        {
            let n = char_count(words[i].as_str());
            let keep = contains_length(&lengths, n) && !contains_word(&kept, &words[i]);
            proof {
                let seen = word_views(words@.take(i as int));
                let w = words@[i as int]@;
                assert(word_views(words@.take(i + 1)) =~= seen.push(w));
                seen.lemma_filter_push(w, length_allowed(lengths@));
                lemma_first_only_push(seen.filter(length_allowed(lengths@)), w);
                if keep {
                    assert(word_views(kept@.push(words@[i as int])) =~= word_views(kept@).push(w));
                }
            }
            if keep {
                kept.push(words[i].clone());
            }
            i += 1;
        }
        proof {
            assert(words@.take(words@.len() as int) =~= words@);
            lemma_answers_distinct(word_views(words@), lengths@, Seq::empty(), 0);
        }
        VecLexicon { words: kept }
    }

    fn words_with_prefix(&self, prefix: &String, word_len: usize) -> (found: Vec<String>) {
        let wanted = chars_of(prefix.as_str());
        let mut found: Vec<String> = Vec::new();
        let mut i: usize = 0;
        proof {
            lemma_filter_distinct(self.entries(), fits(prefix@, word_len as nat));
            lemma_filter_nothing(fits(prefix@, word_len as nat));
            assert(word_views(self.words@.take(0)) =~= Seq::empty());
            assert(word_views(found@) =~= Seq::empty());
        }
        while i < self.words.len()
            invariant
                i <= self.words.len(),
                wanted@ == prefix@,
                word_views(found@) == matching(
                    word_views(self.words@.take(i as int)),
                    prefix@,
                    word_len as nat,
                ),
            decreases self.words.len() - i,
        {
            let letters = chars_of(self.words[i].as_str());
            let hit = letters.len() == word_len && starts_with(
                letters.as_slice(),
                wanted.as_slice(),
            );
            proof {
                let seen = word_views(self.words@.take(i as int));
                let w = self.words@[i as int]@;
                assert(word_views(self.words@.take(i + 1)) =~= seen.push(w));
                seen.lemma_filter_push(w, fits(prefix@, word_len as nat));
                assert(hit == fits(prefix@, word_len as nat)(w));
                if hit {
                    assert(word_views(found@.push(self.words@[i as int])) =~= word_views(
                        found@,
                    ).push(w));
                }
            }
            if hit {
                found.push(self.words[i].clone());
            }
            i += 1;
        }
        assert(self.words@.take(self.words@.len() as int) =~= self.words@);
        found
    }
}

} // verus!
