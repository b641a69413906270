//! Column feasibility: how many lexicon words can still complete each column
//! of a partially filled box, and the score that a candidate row gets from it.

use vstd::prelude::*;
use crate::lexicon::{matching, Lexicon};
use crate::ranking::Move;
use crate::tiebreak::{row_seed, tie_break_key};
use crate::word_box::{column, Grid, WordBox};
use crate::words::word_views;

verus! {

/// Number of entries of `row_dim` characters that start with what `rows`
/// spell down column `i`.
pub open spec fn completions(
    entries: Seq<Seq<char>>,
    rows: Seq<Seq<char>>,
    row_dim: nat,
    i: int,
) -> nat {
    matching(entries, column(rows, i), row_dim).len()
}

/// The least number of completions over the columns `0..cols`.
pub open spec fn least_completions(
    entries: Seq<Seq<char>>,
    rows: Seq<Seq<char>>,
    row_dim: nat,
    cols: nat,
) -> nat
    decreases cols,
{
    if cols == 0 {
        0
    } else if cols == 1 {
        completions(entries, rows, row_dim, 0)
    } else {
        let before = least_completions(entries, rows, row_dim, (cols - 1) as nat);
        let last = completions(entries, rows, row_dim, cols - 1);
        if last < before {
            last
        } else {
            before
        }
    }
}

/// Whether every column of `grid` still has a completion.
pub open spec fn columns_open(entries: Seq<Seq<char>>, grid: Grid) -> bool {
    forall|i: int|
        0 <= i < grid.col_dim ==> #[trigger] completions(entries, grid.rows, grid.row_dim, i) > 0
}

/// Holds of the words that leave a completion for every column when placed
/// as the next row of `grid`.
pub open spec fn feasible(entries: Seq<Seq<char>>, grid: Grid) -> spec_fn(Seq<char>) -> bool {
    |w: Seq<char>| columns_open(entries, grid.with_row(w))
}

/// The score of `word` as the next row of `grid`: the least number of
/// completions that it leaves to a column.
pub open spec fn score(entries: Seq<Seq<char>>, grid: Grid, word: Seq<char>) -> nat {
    least_completions(entries, grid.rows.push(word), grid.row_dim, grid.col_dim)
}

/// The entries that can be the next row of `grid`, in insertion order: those
/// of the row length that leave every column open.
pub open spec fn feasible_rows(entries: Seq<Seq<char>>, grid: Grid) -> Seq<Seq<char>> {
    matching(entries, Seq::empty(), grid.col_dim).filter(feasible(entries, grid))
}

/// The moves made of `rows`: each with its score, and with the key of its
/// position.
pub open spec fn keyed(entries: Seq<Seq<char>>, grid: Grid, rows: Seq<Seq<char>>) -> Seq<Move> {
    Seq::new(
        rows.len(),
        |j: int|
            Move {
                score: score(entries, grid, rows[j]),
                key: tie_break_key(row_seed(grid.rows.len()), j as nat),
                word: rows[j],
            },
    )
}

/// The least number of completions is below that of every column, and is
/// that of some column.
pub proof fn lemma_least_completions(
    entries: Seq<Seq<char>>,
    rows: Seq<Seq<char>>,
    row_dim: nat,
    cols: nat,
)
    requires
        cols >= 1,
    ensures
        forall|i: int|
            0 <= i < cols ==> least_completions(entries, rows, row_dim, cols)
                <= #[trigger] completions(entries, rows, row_dim, i),
        exists|i: int|
            0 <= i < cols && least_completions(entries, rows, row_dim, cols)
                == #[trigger] completions(entries, rows, row_dim, i),
    decreases cols,
{
    if cols > 1 {
        lemma_least_completions(entries, rows, row_dim, (cols - 1) as nat);
        let before = least_completions(entries, rows, row_dim, (cols - 1) as nat);
        let last = completions(entries, rows, row_dim, cols - 1);
        if last < before {
            assert(least_completions(entries, rows, row_dim, cols) == completions(
                entries,
                rows,
                row_dim,
                cols - 1,
            ));
        } else {
            let i = choose|i: int|
                0 <= i < cols - 1 && before == #[trigger] completions(entries, rows, row_dim, i);
            assert(least_completions(entries, rows, row_dim, cols) == completions(
                entries,
                rows,
                row_dim,
                i,
            ));
        }
    } else {
        assert(least_completions(entries, rows, row_dim, cols) == completions(
            entries,
            rows,
            row_dim,
            0,
        ));
    }
}

/// A word is feasible exactly when its score is not zero.
pub proof fn lemma_feasible_score(entries: Seq<Seq<char>>, grid: Grid, word: Seq<char>)
    requires
        grid.col_dim >= 1,
    ensures
        feasible(entries, grid)(word) <==> score(entries, grid, word) > 0,
{
    let rows = grid.rows.push(word);
    lemma_least_completions(entries, rows, grid.row_dim, grid.col_dim);
    assert(grid.with_row(word).rows == rows);
    if score(entries, grid, word) > 0 {
        assert forall|i: int| 0 <= i < grid.col_dim implies #[trigger] completions(
            entries,
            rows,
            grid.row_dim,
            i,
        ) > 0 by {}
    } else {
        let i = choose|i: int|
            0 <= i < grid.col_dim && least_completions(entries, rows, grid.row_dim, grid.col_dim)
                == #[trigger] completions(entries, rows, grid.row_dim, i);
        assert(completions(entries, grid.with_row(word).rows, grid.row_dim, i) == 0);
    }
}

/// The number of completions of every column of a box with rows `rows`.
pub fn column_choices<L: Lexicon>(
    rows: &Vec<String>,
    row_dim: usize,
    col_dim: usize,
    lexicon: &L,
) -> (counts: Vec<usize>)
    requires
        lexicon.wf(),
        forall|r: int| 0 <= r < rows@.len() ==> (#[trigger] rows@[r])@.len() == col_dim,
    ensures
        counts@.len() == col_dim,
        forall|i: int|
            0 <= i < col_dim ==> #[trigger] counts@[i] == completions(
                lexicon.entries(),
                word_views(rows@),
                row_dim as nat,
                i,
            ),
{
    let mut counts: Vec<usize> = Vec::new();
    let mut i: usize = 0;
    while i < col_dim
        invariant
            i <= col_dim,
            lexicon.wf(),
            forall|r: int| 0 <= r < rows@.len() ==> (#[trigger] rows@[r])@.len() == col_dim,
            counts@.len() == i,
            forall|k: int|
                0 <= k < i ==> #[trigger] counts@[k] == completions(
                    lexicon.entries(),
                    word_views(rows@),
                    row_dim as nat,
                    k,
                ),
        decreases col_dim - i,
    {
        let prefix = WordBox::take_ith_characters(rows.as_slice(), i);
        let choice = lexicon.words_with_prefix(&prefix, row_dim);
        assert(choice@.len() == word_views(choice@).len());
        counts.push(choice.len());
        i += 1;
    }
    counts
}

/// The smallest of `counts`.
pub fn smallest(counts: &Vec<usize>) -> (least: usize)
    requires
        counts@.len() >= 1,
    ensures
        forall|i: int| 0 <= i < counts@.len() ==> least <= #[trigger] counts@[i],
        exists|i: int| 0 <= i < counts@.len() && least == #[trigger] counts@[i],
{
    let mut least: usize = counts[0];
    let mut i: usize = 1;
    while i < counts.len()
        invariant
            1 <= i <= counts.len(),
            forall|k: int| 0 <= k < i ==> least <= #[trigger] counts@[k],
            exists|k: int| 0 <= k < i && least == #[trigger] counts@[k],
        decreases counts.len() - i,
    {
        if counts[i] < least {
            least = counts[i];
        }
        i += 1;
    }
    least
}

} // verus!
