//! The order in which candidate rows are tried: best score first, ties
//! broken by the larger key, then by the later word.

use vstd::prelude::*;
use vstd::relations::{sorted_by, total_ordering};
use vstd::seq_lib::lemma_sorted_unique;
use itertools::Itertools;
use crate::words::word_views;

verus! {

/// A candidate row with the two numbers it is ranked by.
pub struct Move {
    /// The least number of completions over the columns, once the row is placed.
    pub score: nat,
    /// The tie-break key drawn for the row.
    pub key: int,
    /// The row itself.
    pub word: Seq<char>,
}

/// The model of an executable move.
pub open spec fn move_view(m: (usize, i32, String)) -> Move {
    Move { score: m.0 as nat, key: m.1 as int, word: m.2@ }
}

/// The models of a list of executable moves, in the same order.
pub open spec fn move_views(moves: Seq<(usize, i32, String)>) -> Seq<Move> {
    moves.map_values(|m: (usize, i32, String)| move_view(m))
}

/// The words of a list of moves, in the same order.
pub open spec fn move_words(moves: Seq<Move>) -> Seq<Seq<char>> {
    moves.map_values(|m: Move| m.word)
}

/// Dictionary order on words, strict: at the first position where the two
/// differ the smaller code point decides, and a proper prefix comes first.
pub open spec fn word_lt(a: Seq<char>, b: Seq<char>) -> bool
    decreases a.len(),
{
    if b.len() == 0 {
        false
    } else if a.len() == 0 {
        true
    } else if a[0] != b[0] {
        (a[0] as int) < (b[0] as int)
    } else {
        word_lt(a.drop_first(), b.drop_first())
    }
}

/// Whether `a` comes no later than `b` when moves are listed upwards: by
/// score, then by key, then by word.
pub open spec fn ascends(a: Move, b: Move) -> bool {
    ||| a.score < b.score
    ||| a.score == b.score && a.key < b.key
    ||| a.score == b.score && a.key == b.key && (a.word == b.word || word_lt(a.word, b.word))
}

/// [`ascends`] as a relation.
pub open spec fn upwards() -> spec_fn(Move, Move) -> bool {
    |a: Move, b: Move| ascends(a, b)
}

/// Whether `a` is tried no later than `b`: the reverse of [`ascends`].
pub open spec fn best_first() -> spec_fn(Move, Move) -> bool {
    |a: Move, b: Move| ascends(b, a)
}

/// The words of `moves` in the order in which they are tried.
pub open spec fn ranked(moves: Seq<Move>) -> Seq<Seq<char>> {
    move_words(moves.sort_by(best_first()))
}

/// No word comes before itself, and of two words at most one comes before
/// the other.
pub proof fn lemma_word_lt_asymmetric(a: Seq<char>, b: Seq<char>)
    ensures
        !(word_lt(a, b) && word_lt(b, a)),
    decreases a.len(),
{
    if a.len() > 0 && b.len() > 0 && a[0] == b[0] {
        lemma_word_lt_asymmetric(a.drop_first(), b.drop_first());
    }
}

/// Two different words are ordered one way or the other.
pub proof fn lemma_word_lt_connected(a: Seq<char>, b: Seq<char>)
    ensures
        a == b || word_lt(a, b) || word_lt(b, a),
    decreases a.len(),
{
    if a.len() == 0 || b.len() == 0 {
        if a.len() == 0 && b.len() == 0 {
            assert(a =~= b);
        }
    } else if a[0] == b[0] {
        lemma_word_lt_connected(a.drop_first(), b.drop_first());
        if a.drop_first() == b.drop_first() {
            assert(a =~= seq![a[0]] + a.drop_first());
            assert(b =~= seq![b[0]] + b.drop_first());
        }
    }
}

/// Dictionary order is transitive.
pub proof fn lemma_word_lt_transitive(a: Seq<char>, b: Seq<char>, c: Seq<char>)
    requires
        word_lt(a, b),
        word_lt(b, c),
    ensures
        word_lt(a, c),
    decreases a.len(),
{
    if a.len() > 0 && a[0] == b[0] && b[0] == c[0] {
        lemma_word_lt_transitive(a.drop_first(), b.drop_first(), c.drop_first());
    }
}

/// Listing moves upwards, and listing them best first, are total orders: any
/// list of moves has exactly one arrangement in each.
pub proof fn lemma_orders_total()
    ensures
        total_ordering(upwards()),
        total_ordering(best_first()),
{
    assert forall|x: Move, y: Move| ascends(x, y) && ascends(y, x) implies x == y by {
        lemma_word_lt_asymmetric(x.word, y.word);
    }
    assert forall|x: Move, y: Move| ascends(x, y) || ascends(y, x) by {
        lemma_word_lt_connected(x.word, y.word);
    }
    assert forall|x: Move, y: Move, z: Move| ascends(x, y) && ascends(y, z) implies ascends(
        x,
        z,
    ) by {
        if x.score == y.score && y.score == z.score && x.key == y.key && y.key == z.key
            && x.word != y.word && y.word != z.word {
            lemma_word_lt_transitive(x.word, y.word, z.word);
        }
    }
    let up = upwards();
    let down = best_first();
    assert forall|x: Move, y: Move| #[trigger] up(x, y) && #[trigger] up(y, x) implies x == y by {
        assert(ascends(x, y) && ascends(y, x));
    }
    assert forall|x: Move, y: Move| #[trigger] down(x, y) && #[trigger] down(y, x) implies x
        == y by {
        assert(ascends(x, y) && ascends(y, x));
    }
    assert forall|x: Move, y: Move| #[trigger] up(x, y) || #[trigger] up(y, x) by {
        assert(ascends(x, y) || ascends(y, x));
    }
    assert forall|x: Move, y: Move| #[trigger] down(x, y) || #[trigger] down(y, x) by {
        assert(ascends(x, y) || ascends(y, x));
    }
    assert forall|x: Move, y: Move, z: Move| #[trigger] up(x, y) && #[trigger] up(y, z) implies up(
        x,
        z,
    ) by {
        assert(ascends(x, y) && ascends(y, z));
    }
    assert forall|x: Move, y: Move, z: Move| #[trigger] down(x, y) && #[trigger] down(
        y,
        z,
    ) implies down(x, z) by {
        assert(ascends(z, y) && ascends(y, x));
    }
}

/// Whether `word` is the word of one of `moves`.
pub open spec fn has_word(moves: Seq<Move>, word: Seq<char>) -> bool {
    exists|j: int| 0 <= j < moves.len() && (#[trigger] moves[j]).word == word
}

/// Ranking rearranges: the ranked words are as many as the moves, every
/// ranked word is the word of a move, and the word of every move is ranked.
pub proof fn lemma_ranked_rearranges(moves: Seq<Move>)
    ensures
        ranked(moves).len() == moves.len(),
        forall|k: int| 0 <= k < moves.len() ==> has_word(moves, #[trigger] ranked(moves)[k]),
        forall|j: int| 0 <= j < moves.len() ==> ranked(moves).contains((#[trigger] moves[j]).word),
{
    broadcast use vstd::seq_lib::group_to_multiset_ensures;

    lemma_orders_total();
    moves.lemma_sort_by_ensures(best_first());
    let sorted = moves.sort_by(best_first());
    assert(sorted.len() == moves.len()) by {
        assert(sorted.to_multiset().len() == moves.to_multiset().len());
    }
    assert forall|k: int| 0 <= k < moves.len() implies has_word(
        moves,
        #[trigger] ranked(moves)[k],
    ) by {
        assert(sorted.contains(sorted[k]));
        assert(moves.contains(sorted[k]));
        let j = choose|j: int| 0 <= j < moves.len() && moves[j] == sorted[k];
        assert(moves[j].word == ranked(moves)[k]);
    }
    assert forall|j: int| 0 <= j < moves.len() implies ranked(moves).contains(
        (#[trigger] moves[j]).word,
    ) by {
        assert(moves.contains(moves[j]));
        assert(sorted.to_multiset().count(moves[j]) > 0);
        assert(sorted.contains(moves[j]));
        let k = choose|k: int| 0 <= k < sorted.len() && sorted[k] == moves[j];
        assert(ranked(moves)[k] == moves[j].word);
    }
}

/// The moves, sorted upwards.
///
/// Trusted: this is `Itertools::sorted`, which collects the items and sorts
/// them with the stable `slice::sort` by their `Ord`. So the result holds the
/// same moves as the argument, each as often, in ascending order. For a tuple
/// std compares the fields in turn, integers by value and strings byte by
/// byte, which for UTF-8 is code point by code point: the order of
/// [`ascends`].
#[verifier::external_body]
pub(crate) fn sorted_upwards(moves: Vec<(usize, i32, String)>) -> (sorted: Vec<
    (usize, i32, String),
>)
    ensures
        move_views(sorted@).to_multiset() == move_views(moves@).to_multiset(),
        sorted_by(move_views(sorted@), upwards()),
{
    moves.into_iter().sorted().collect()
}

/// The words of `moves` in the order in which the search tries them: highest
/// score first, among equal scores the highest key first, among equal keys
/// the later word in dictionary order first.
pub fn rank_moves(moves: Vec<(usize, i32, String)>) -> (words: Vec<String>)
    ensures
        word_views(words@) == ranked(move_views(moves@)),
{
    let ghost given = move_views(moves@);
    let sorted = sorted_upwards(moves);
    let ghost up = move_views(sorted@);
    let ghost down = up.reverse();
    proof {
        lemma_orders_total();
        up.lemma_reverse_to_multiset();
        given.lemma_sort_by_ensures(best_first());
        assert(sorted_by(down, best_first())) by {
            assert forall|i: int, j: int| 0 <= i < j < down.len() implies #[trigger] best_first()(
                down[i],
                down[j],
            ) by {
                assert(upwards()(up[up.len() - 1 - j], up[up.len() - 1 - i]));
            }
        }
        lemma_sorted_unique(down, given.sort_by(best_first()), best_first());
    }
    let mut words: Vec<String> = Vec::new();
    let mut left: usize = sorted.len();
    while left > 0
        invariant
            left <= sorted.len(),
            up == move_views(sorted@),
            down == up.reverse(),
            words@.len() == sorted.len() - left,
            word_views(words@) == move_words(down).take(sorted.len() - left),
        decreases left,
    {
        left -= 1;
        let ghost before = words@;
        let word = sorted[left].2.clone();
        words.push(word);
        proof {
            let k = sorted.len() - 1 - left;
            assert(up.len() == sorted.len());
            assert(down[k] == up[left as int]);
            assert(up[left as int].word == word@);
            assert(words@ == before.push(word));
            assert(word_views(before) == move_words(down).take(k));
            assert forall|j: int| 0 <= j < k + 1 implies word_views(words@)[j] == move_words(
                down,
            ).take(k + 1)[j] by {
                if j < k {
                    assert(word_views(before)[j] == move_words(down).take(k)[j]);
                    assert(words@[j] == before[j]);
                }
            }
            assert(word_views(words@) =~= move_words(down).take(k + 1));
        }
    }
    assert(word_views(words@) =~= move_words(down));
    words
}

} // verus!
