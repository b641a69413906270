//! The prefix-indexed lexicon: every prefix of every retained word, the
//! empty one included, is the key of the list of words that start with it.

use vstd::prelude::*;
use vstd::hash_map::StringHashMap;
use crate::lexicon::{
    contains_length, contains_word, fits, lemma_answers_distinct, lemma_filter_distinct,
    lemma_filter_membership, lemma_filter_nothing, lemma_first_only_push, length_allowed,
    matching, retained, Lexicon,
};
use crate::words::{char_count, chars_of, push_char, word_views};

verus! {

/// Holds of the words that start with `prefix`.
pub open spec fn starts(prefix: Seq<char>) -> spec_fn(Seq<char>) -> bool {
    |w: Seq<char>| prefix.is_prefix_of(w)
}

/// Holds of the words of `len` characters.
pub open spec fn has_len(len: nat) -> spec_fn(Seq<char>) -> bool {
    |w: Seq<char>| w.len() == len
}

/// The words filed under `prefix`: none where the prefix is no key.
pub open spec fn bucket_of(
    index: Map<Seq<char>, usize>,
    buckets: Seq<Vec<String>>,
    prefix: Seq<char>,
) -> Seq<Seq<char>> {
    if index.contains_key(prefix) {
        word_views(buckets[index[prefix] as int]@)
    } else {
        Seq::empty()
    }
}

/// Every key leads to a bucket that holds a word, and no two keys to the
/// same one.
pub open spec fn indexed(index: Map<Seq<char>, usize>, buckets: Seq<Vec<String>>) -> bool {
    &&& forall|p: Seq<char>|
        index.contains_key(p) ==> #[trigger] index[p] < buckets.len() && buckets[index[p] as int]@.len()
            > 0
    &&& forall|p: Seq<char>, q: Seq<char>|
        index.contains_key(p) && index.contains_key(q) && #[trigger] index[p] == #[trigger] index[q]
            ==> p == q
}

/// What is filed under `prefix` once `entries` are registered in full and
/// `word` under its prefixes of fewer than `upto` characters.
pub open spec fn filed(entries: Seq<Seq<char>>, word: Seq<char>, upto: int, prefix: Seq<char>) -> Seq<
    Seq<char>,
> {
    if prefix.is_prefix_of(word) && prefix.len() < upto {
        entries.filter(starts(prefix)).push(word)
    } else {
        entries.filter(starts(prefix))
    }
}

/// The buckets hold `entries` in full, and `word` under its prefixes of
/// fewer than `upto` characters.
pub open spec fn registered(
    index: Map<Seq<char>, usize>,
    buckets: Seq<Vec<String>>,
    entries: Seq<Seq<char>>,
    word: Seq<char>,
    upto: int,
) -> bool {
    forall|p: Seq<char>| #[trigger] bucket_of(index, buckets, p) == filed(entries, word, upto, p)
}

/// Filtering by prefix and then by length is filtering by both at once.
pub proof fn lemma_bucket_matching(entries: Seq<Seq<char>>, prefix: Seq<char>, len: nat)
    ensures
        entries.filter(starts(prefix)).filter(has_len(len)) == matching(entries, prefix, len),
    decreases entries.len(),
{
    if entries.len() == 0 {
        lemma_filter_nothing(starts(prefix));
        lemma_filter_nothing(has_len(len));
        lemma_filter_nothing(fits(prefix, len));
        assert(entries =~= Seq::empty());
    } else {
        let front = entries.drop_last();
        let w = entries.last();
        lemma_bucket_matching(front, prefix, len);
        assert(entries =~= front.push(w));
        front.lemma_filter_push(w, starts(prefix));
        front.lemma_filter_push(w, fits(prefix, len));
        if starts(prefix)(w) {
            front.filter(starts(prefix)).lemma_filter_push(w, has_len(len));
        }
    }
}

/// Every word starts with the empty prefix.
pub proof fn lemma_all_start_empty(entries: Seq<Seq<char>>)
    ensures
        entries.filter(starts(Seq::empty())) == entries,
    decreases entries.len(),
{
    if entries.len() == 0 {
        lemma_filter_nothing(starts(Seq::empty()));
        assert(entries =~= Seq::empty());
    } else {
        let front = entries.drop_last();
        let w = entries.last();
        lemma_all_start_empty(front);
        assert(entries =~= front.push(w));
        front.lemma_filter_push(w, starts(Seq::empty()));
        assert(Seq::<char>::empty() =~= w.subrange(0, 0));
    }
}

/// A lexicon indexed by prefix: a query looks its prefix up and keeps the
/// words of the wanted length.
pub struct HashMapLexicon {
    /// From each prefix to the number of its bucket.
    index: StringHashMap<usize>,
    /// The buckets, each in insertion order.
    buckets: Vec<Vec<String>>,
}

impl HashMapLexicon {
    /// The prefixes under which words are filed.
    pub closed spec fn prefixes(&self) -> Set<Seq<char>> {
        self.index@.dom()
    }

    /// Number of prefixes under which words are filed, the empty one
    /// included.
    pub fn prefix_count(&self) -> (n: usize)
        requires
            self.wf(),
        ensures
            n == self.prefixes().len(),
    {
        self.index.len()
    }

    /// Words are filed under a prefix exactly when some entry starts with it.
    pub proof fn lemma_prefixes(&self, prefix: Seq<char>)
        requires
            self.wf(),
        ensures
            self.prefixes().contains(prefix) <==> exists|i: int|
                0 <= i < self.entries().len() && prefix.is_prefix_of(#[trigger] self.entries()[i]),
    {
        let entries = self.entries();
        let under = entries.filter(starts(prefix));
        assert(bucket_of(self.index@, self.buckets@, prefix) == filed(
            entries,
            Seq::empty(),
            0,
            prefix,
        ));
        if self.prefixes().contains(prefix) {
            assert(self.index@[prefix] < self.buckets@.len());
            assert(under.len() > 0);
            entries.lemma_filter_pred(starts(prefix), 0);
            assert(under.contains(under[0]));
            entries.lemma_filter_contains_rev(starts(prefix), under[0]);
            let i = choose|i: int| 0 <= i < entries.len() && entries[i] == under[0];
            assert(prefix.is_prefix_of(entries[i]));
        }
        if exists|i: int| 0 <= i < entries.len() && prefix.is_prefix_of(#[trigger] entries[i]) {
            let i = choose|i: int| 0 <= i < entries.len() && prefix.is_prefix_of(
                #[trigger] entries[i],
            );
            entries.lemma_filter_contains(starts(prefix), i);
            assert(under.len() > 0);
        }
    }
}

impl Lexicon for HashMapLexicon {
    closed spec fn wf(&self) -> bool {
        &&& indexed(self.index@, self.buckets@)
        &&& registered(self.index@, self.buckets@, self.entries(), Seq::empty(), 0)
        &&& self.entries().no_duplicates()
    }

    closed spec fn entries(&self) -> Seq<Seq<char>> {
        bucket_of(self.index@, self.buckets@, Seq::empty())
    }

    proof fn lemma_entries_distinct(&self) {
    }

    fn initialize(words: Vec<String>, lengths: Vec<usize>) -> (lexicon: Self) {
        let mut index: StringHashMap<usize> = StringHashMap::new();
        let mut buckets: Vec<Vec<String>> = Vec::new();
        let ghost mut kept: Seq<Seq<char>> = Seq::empty();
        let mut i: usize = 0;
        proof {
            lemma_filter_nothing(length_allowed(lengths@));
            assert(word_views(words@.take(0)) =~= Seq::empty());
            assert forall|p: Seq<char>| #[trigger]
                bucket_of(index@, buckets@, p) == filed(kept, Seq::empty(), 0, p) by {
                lemma_filter_nothing(starts(p));
            }
        }
        while i < words.len()
            invariant
                i <= words.len(),
                indexed(index@, buckets@),
                registered(index@, buckets@, kept, Seq::empty(), 0),
                kept == retained(word_views(words@.take(i as int)), lengths@),
            decreases words.len() - i,
        {
            let letters = chars_of(words[i].as_str());
            let keep = contains_length(&lengths, letters.len()) && !is_filed(
                &index,
                &buckets,
                &words[i],
                Ghost(kept),
            );
            proof {
                let seen = word_views(words@.take(i as int));
                let w = words@[i as int]@;
                assert(word_views(words@.take(i + 1)) =~= seen.push(w));
                seen.lemma_filter_push(w, length_allowed(lengths@));
                lemma_first_only_push(seen.filter(length_allowed(lengths@)), w);
            }
            if keep {
                register_word(&mut index, &mut buckets, &words[i], &letters, Ghost(kept));
                proof {
                    kept = kept.push(words@[i as int]@);
                }
            }
            i += 1;
        }
        assert(words@.take(words@.len() as int) =~= words@);
        proof {
            lemma_all_start_empty(kept);
            assert(bucket_of(index@, buckets@, Seq::empty()) == filed(
                kept,
                Seq::empty(),
                0,
                Seq::empty(),
            ));
            lemma_answers_distinct(word_views(words@), lengths@, Seq::empty(), 0);
        }
        HashMapLexicon { index, buckets }
    }

    fn words_with_prefix(&self, prefix: &String, word_len: usize) -> (found: Vec<String>) {
        let mut found: Vec<String> = Vec::new();
        proof {
            lemma_filter_distinct(self.entries(), fits(prefix@, word_len as nat));
            lemma_bucket_matching(self.entries(), prefix@, word_len as nat);
            lemma_filter_nothing(has_len(word_len as nat));
            assert(bucket_of(self.index@, self.buckets@, prefix@) == filed(
                self.entries(),
                Seq::empty(),
                0,
                prefix@,
            ));
            assert(word_views(found@) =~= Seq::empty());
        }
        match self.index.get(prefix.as_str()) {
            None => {},
            Some(at) => {
                let bucket = &self.buckets[*at];
                let ghost filed_here = word_views(bucket@);
                let mut i: usize = 0;
                assert(filed_here.take(0) =~= Seq::empty());
                while i < bucket.len()
                    invariant
                        i <= bucket.len(),
                        filed_here == word_views(bucket@),
                        word_views(found@) == filed_here.take(i as int).filter(
                            has_len(word_len as nat),
                        ),
                    decreases bucket.len() - i,
                {
                    let hit = char_count(bucket[i].as_str()) == word_len;
                    proof {
                        let seen = filed_here.take(i as int);
                        let w = bucket@[i as int]@;
                        assert(filed_here.take(i + 1) =~= seen.push(w));
                        seen.lemma_filter_push(w, has_len(word_len as nat));
                        if hit {
                            assert(word_views(found@.push(bucket@[i as int])) =~= word_views(
                                found@,
                            ).push(w));
                        }
                    }
                    if hit {
                        found.push(bucket[i].clone());
                    }
                    i += 1;
                }
                assert(filed_here.take(bucket@.len() as int) =~= filed_here);
            },
        }
        found
    }
}

/// Whether `word` is filed already, that is, whether it is an entry.
fn is_filed(
    index: &StringHashMap<usize>,
    buckets: &Vec<Vec<String>>,
    word: &String,
    Ghost(entries): Ghost<Seq<Seq<char>>>,
) -> (found: bool)
    requires
        indexed(index@, buckets@),
        registered(index@, buckets@, entries, Seq::empty(), 0),
    ensures
        found == entries.contains(word@),
{
    proof {
        assert(bucket_of(index@, buckets@, word@) == filed(entries, Seq::empty(), 0, word@));
        lemma_filter_membership(entries, starts(word@), word@);
        assert(word@.is_prefix_of(word@)) by {
            assert(word@ =~= word@.subrange(0, word@.len() as int));
        }
    }
    match index.get(word.as_str()) {
        None => false,
        Some(at) => contains_word(&buckets[*at], word),
    }
}

/// Files `word` under each of its prefixes, from the empty one to the word
/// itself.
fn register_word(
    index: &mut StringHashMap<usize>,
    buckets: &mut Vec<Vec<String>>,
    word: &String,
    letters: &Vec<char>,
    Ghost(entries): Ghost<Seq<Seq<char>>>,
)
    requires
        letters@ == word@,
        indexed(old(index)@, old(buckets)@),
        registered(old(index)@, old(buckets)@, entries, Seq::empty(), 0),
    ensures
        indexed(final(index)@, final(buckets)@),
        registered(final(index)@, final(buckets)@, entries.push(word@), Seq::empty(), 0),
{
    let mut prefix = String::new();
    let mut k: usize = 0;
    proof {
        assert(prefix@ =~= word@.take(0));
        assert forall|p: Seq<char>| #[trigger]
            bucket_of(index@, buckets@, p) == filed(entries, word@, 0, p) by {
            assert(bucket_of(index@, buckets@, p) == filed(entries, Seq::empty(), 0, p));
        }
    }
    file_under(index, buckets, &prefix, word, Ghost(entries), Ghost(0));
    while k < letters.len()
        invariant
            k <= letters.len(),
            letters@ == word@,
            prefix@ == word@.take(k as int),
            indexed(index@, buckets@),
            registered(index@, buckets@, entries, word@, k + 1),
        decreases letters.len() - k,
    {
        push_char(&mut prefix, letters[k]);
        k += 1;
        assert(prefix@ =~= word@.take(k as int));
        file_under(index, buckets, &prefix, word, Ghost(entries), Ghost(k as int));
    }
    proof {
        assert forall|p: Seq<char>| #[trigger]
            bucket_of(index@, buckets@, p) == filed(entries.push(word@), Seq::empty(), 0, p) by {
            assert(bucket_of(index@, buckets@, p) == filed(entries, word@, k + 1, p));
            entries.lemma_filter_push(word@, starts(p));
        }
    }
}

/// Files `word` under `prefix`, its prefix of `upto` characters.
fn file_under(
    index: &mut StringHashMap<usize>,
    buckets: &mut Vec<Vec<String>>,
    prefix: &String,
    word: &String,
    Ghost(entries): Ghost<Seq<Seq<char>>>,
    Ghost(upto): Ghost<int>,
)
    requires
        0 <= upto <= word@.len(),
        prefix@ == word@.take(upto),
        indexed(old(index)@, old(buckets)@),
        registered(old(index)@, old(buckets)@, entries, word@, upto),
    ensures
        indexed(final(index)@, final(buckets)@),
        registered(final(index)@, final(buckets)@, entries, word@, upto + 1),
{
    let ghost index0 = index@;
    let ghost buckets0 = buckets@;
    proof {
        assert(prefix@ =~= word@.subrange(0, upto));
        assert(bucket_of(index0, buckets0, prefix@) == filed(entries, word@, upto, prefix@));
    }
    let slot: Option<usize> = match index.get(prefix.as_str()) {
        Some(at) => Some(*at),
        None => None,
    };
    match slot {
        Some(at) => {
            buckets[at].push(word.clone());
            proof {
                assert forall|p: Seq<char>| #[trigger]
                    bucket_of(index@, buckets@, p) == filed(entries, word@, upto + 1, p) by {
                    assert(bucket_of(index0, buckets0, p) == filed(entries, word@, upto, p));
                    if p == prefix@ {
                        assert(word_views(buckets@[at as int]@) =~= word_views(
                            buckets0[at as int]@,
                        ).push(word@));
                    } else {
                        if p.is_prefix_of(word@) && p.len() == upto {
                            assert(p =~= word@.take(upto));
                        }
                        if index0.contains_key(p) {
                            assert(index0[p] != at);
                        }
                    }
                }
            }
        },
        None => {
            let at = buckets.len();
            let mut fresh: Vec<String> = Vec::new();
            fresh.push(word.clone());
            index.insert(prefix.clone(), at);
            buckets.push(fresh);
            proof {
                assert forall|p: Seq<char>| #[trigger]
                    bucket_of(index@, buckets@, p) == filed(entries, word@, upto + 1, p) by {
                    assert(bucket_of(index0, buckets0, p) == filed(entries, word@, upto, p));
                    if p == prefix@ {
                        assert(word_views(buckets@[at as int]@) =~= Seq::empty().push(word@));
                    } else {
                        if p.is_prefix_of(word@) && p.len() == upto {
                            assert(p =~= word@.take(upto));
                        }
                        if index0.contains_key(p) {
                            assert(index0[p] < buckets0.len());
                        }
                    }
                }
            }
        },
    }
}

} // verus!
