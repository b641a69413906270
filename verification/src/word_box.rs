//! The grid under construction: its dimensions and the rows placed so far.

use vstd::prelude::*;
use vstd::string::StringExecFns;
use crate::lexicon::{fits, lemma_filter_membership, lemma_filter_nothing, matching, Lexicon};
use crate::ranking::{has_word, lemma_ranked_rearranges, move_views, rank_moves, ranked};
use crate::scoring::{
    column_choices, columns_open, completions, feasible, feasible_rows, keyed,
    lemma_feasible_score, lemma_least_completions, score, smallest,
};
use crate::tiebreak::{generator_after, next_key, row_seed, seed_for_row, seed_generator};
use crate::words::{push_char, word_views};

verus! {

/// The mathematical model of a [`WordBox`].
pub struct Grid {
    /// Target number of rows.
    pub row_dim: nat,
    /// Target number of columns, the length of every row word.
    pub col_dim: nat,
    /// The rows placed so far, top to bottom.
    pub rows: Seq<Seq<char>>,
}

impl Grid {
    /// Both dimensions are at least one, no more rows are placed than the
    /// grid has, and every placed row spans all columns.
    pub open spec fn wf(self) -> bool {
        &&& self.row_dim >= 1
        &&& self.col_dim >= 1
        &&& self.rows.len() <= self.row_dim
        &&& forall|r: int| 0 <= r < self.rows.len() ==> (#[trigger] self.rows[r]).len() == self.col_dim
    }

    /// Every row is placed.
    pub open spec fn is_done(self) -> bool {
        self.rows.len() == self.row_dim
    }

    /// The same grid with `word` appended as the next row.
    pub open spec fn with_row(self, word: Seq<char>) -> Grid {
        Grid { row_dim: self.row_dim, col_dim: self.col_dim, rows: self.rows.push(word) }
    }
}

/// The `i`-th character of every word of `rows`, top to bottom.
pub open spec fn column(rows: Seq<Seq<char>>, i: int) -> Seq<char> {
    Seq::new(rows.len(), |r: int| rows[r][i])
}

/// The rows that the search tries next on `grid`, in the order in which it
/// tries them: the feasible rows, best first.
pub open spec fn next_rows(entries: Seq<Seq<char>>, grid: Grid) -> Seq<Seq<char>> {
    ranked(keyed(entries, grid, feasible_rows(entries, grid)))
}

/// Whether `word` can be the next row of `grid`: it is an entry, it spans
/// the columns, and with it placed every column still has a completion.
pub open spec fn can_follow(entries: Seq<Seq<char>>, grid: Grid, word: Seq<char>) -> bool {
    &&& entries.contains(word)
    &&& word.len() == grid.col_dim
    &&& columns_open(entries, grid.with_row(word))
}

/// The rows that are tried next are the words that can follow, whatever
/// their order: no feasible entry is left out and nothing else is tried.
pub proof fn lemma_next_rows_membership(entries: Seq<Seq<char>>, grid: Grid, word: Seq<char>)
    ensures
        next_rows(entries, grid).contains(word) <==> can_follow(entries, grid, word),
        next_rows(entries, grid).len() == feasible_rows(entries, grid).len(),
{
    let offered = matching(entries, Seq::empty(), grid.col_dim);
    let rows = feasible_rows(entries, grid);
    let moves = keyed(entries, grid, rows);
    lemma_ranked_rearranges(moves);
    lemma_filter_membership(entries, fits(Seq::empty(), grid.col_dim), word);
    lemma_filter_membership(offered, feasible(entries, grid), word);
    assert(Seq::<char>::empty().is_prefix_of(word)) by {
        assert(Seq::<char>::empty() =~= word.subrange(0, 0));
    }
    if next_rows(entries, grid).contains(word) {
        let k = choose|k: int|
            0 <= k < next_rows(entries, grid).len() && next_rows(entries, grid)[k] == word;
        assert(has_word(moves, next_rows(entries, grid)[k]));
        let j = choose|j: int| 0 <= j < moves.len() && (#[trigger] moves[j]).word == word;
        assert(rows[j] == word);
    }
    if rows.contains(word) {
        let j = choose|j: int| 0 <= j < rows.len() && rows[j] == word;
        assert(moves[j].word == word);
    }
}

/// The glyph shown for a cell of a row that is not placed yet.
pub const BLANK: char = '_';

/// Line `r` of the picture of `grid`: the row placed there, or blanks where
/// none is placed yet, and a line feed.
pub open spec fn line(grid: Grid, r: int) -> Seq<char> {
    if r < grid.rows.len() {
        grid.rows[r].push('\n')
    } else {
        Seq::new(grid.col_dim, |j: int| BLANK).push('\n')
    }
}

/// The first `lines` lines of the picture of `grid`, one after the other.
pub open spec fn rendered(grid: Grid, lines: nat) -> Seq<char>
    decreases lines,
{
    if lines == 0 {
        Seq::empty()
    } else {
        rendered(grid, (lines - 1) as nat) + line(grid, lines - 1)
    }
}

/// A partially filled word box. Extending it gives a new box and leaves the
/// old one as it was.
#[derive(Debug, Clone, PartialEq, Eq)]
pub struct WordBox {
    /// Number of rows.
    row_dim: usize,
    /// Number of columns.
    col_dim: usize,
    /// The words for each row.
    rows: Vec<String>,
}

impl View for WordBox {
    type V = Grid;

    closed spec fn view(&self) -> Grid {
        Grid {
            row_dim: self.row_dim as nat,
            col_dim: self.col_dim as nat,
            rows: word_views(self.rows@),
        }
    }
}

impl WordBox {
    /// The invariant of a word box, that of its model.
    pub open spec fn wf(&self) -> bool {
        self@.wf()
    }

    /// An empty box of `row_dim` rows and `col_dim` columns. A box needs at
    /// least one row and one column: with a zero dimension there is none.
    pub fn new(row_dim: usize, col_dim: usize) -> (made: Option<WordBox>)
        ensures
            made is None <==> row_dim == 0 || col_dim == 0,
            made matches Some(b) ==> b.wf() && b@ == (Grid {
                row_dim: row_dim as nat,
                col_dim: col_dim as nat,
                rows: Seq::empty(),
            }),
    {
        if row_dim == 0 || col_dim == 0 {
            return None;
        }
        let made = WordBox { row_dim, col_dim, rows: Vec::new() };
        assert(made@.rows =~= Seq::empty());
        Some(made)
    }

    /// Number of rows of the box.
    pub fn row_dim(&self) -> (n: usize)
        ensures
            n == self@.row_dim,
    {
        self.row_dim
    }

    /// Number of columns of the box.
    pub fn col_dim(&self) -> (n: usize)
        ensures
            n == self@.col_dim,
    {
        self.col_dim
    }

    /// The rows placed so far, top to bottom.
    pub fn rows(&self) -> (rows: &Vec<String>)
        ensures
            word_views(rows@) == self@.rows,
    {
        &self.rows
    }

    /// The picture of the box: one line for each of its rows, the placed ones
    /// spelled out and the others blank.
    pub fn to_text(&self) -> (text: String)
        requires
            self.wf(),
        ensures
            text@ == rendered(self@, self@.row_dim),
    {
        let mut text = String::new();
        let mut r: usize = 0;
        assert(text@ =~= rendered(self@, 0));
        while r < self.row_dim
            invariant
                r <= self.row_dim,
                self.wf(),
                text@ == rendered(self@, r as nat),
            decreases self.row_dim - r,
        {
            let ghost before = text@;
            if r < self.rows.len() {
                text.append(self.rows[r].as_str());
                assert(self@.rows[r as int] == self.rows@[r as int]@);
            } else {
                let mut j: usize = 0;
                while j < self.col_dim
                    invariant
                        j <= self.col_dim,
                        text@ == before + Seq::new(j as nat, |k: int| BLANK),
                    decreases self.col_dim - j,
                {
                    push_char(&mut text, BLANK);
                    j += 1;
                    assert(text@ =~= before + Seq::new(j as nat, |k: int| BLANK));
                }
            }
            push_char(&mut text, '\n');
            assert(text@ =~= before + line(self@, r as int));
            r += 1;
        }
        text
    }

    /// Whether every row is placed.
    pub fn is_done(&self) -> (done: bool)
        ensures
            done == self@.is_done(),
    {
        self.rows.len() == self.row_dim
    }

    /// The word read down position `i` of `words`.
    pub fn take_ith_characters(words: &[String], i: usize) -> (down: String)
        requires
            forall|r: int| 0 <= r < words@.len() ==> i < (#[trigger] words@[r])@.len(),
        ensures
            down@ == column(word_views(words@), i as int),
    {
        let mut down = String::new();
        let mut r: usize = 0;
        while r < words.len()
            invariant
                r <= words.len(),
                forall|k: int| 0 <= k < words@.len() ==> i < (#[trigger] words@[k])@.len(),
                down@ == column(word_views(words@), i as int).take(r as int),
            decreases words.len() - r,
        {
            let c = words[r].as_str().get_char(i);
            push_char(&mut down, c);
            assert(down@ =~= column(word_views(words@), i as int).take(r + 1));
            r += 1;
        }
        assert(down@ =~= column(word_views(words@), i as int));
        down
    }

    /// The rows that the search tries next, in the order in which it tries
    /// them.
    ///
    /// A candidate is a lexicon word of the row length. It is dropped when,
    /// once placed, some column has no completion left. The others are ranked
    /// by their score, the least number of completions over the columns,
    /// highest first; ties go by a key drawn from a generator that is seeded
    /// with the number of rows placed, then by the word.
    pub fn next_moves<L: Lexicon>(&self, lexicon: &L) -> (moves: Vec<String>)
        requires
            self.wf(),
            lexicon.wf(),
        ensures
            word_views(moves@) == next_rows(lexicon.entries(), self@),
            forall|word: Seq<char>| #[trigger]
                word_views(moves@).contains(word) <==> can_follow(lexicon.entries(), self@, word),
    {
        proof {
            assert forall|word: Seq<char>| #[trigger]
                next_rows(lexicon.entries(), self@).contains(word) <==> can_follow(
                    lexicon.entries(),
                    self@,
                    word,
                ) by {
                lemma_next_rows_membership(lexicon.entries(), self@, word);
            }
        }
        let ghost entries = lexicon.entries();
        let ghost grid = self@;
        let ghost seed = row_seed(grid.rows.len());
        let nothing = String::new();
        let candidates = lexicon.words_with_prefix(&nothing, self.col_dim);
        let ghost offered = word_views(candidates@);
        let mut rows: Vec<String> = self.rows.clone();
        let mut generator = seed_generator(seed_for_row(rows.len()));
        let mut scored: Vec<(usize, i32, String)> = Vec::new();
        let mut n: usize = 0;
        proof {
            assert(rows@ =~= self.rows@);
            assert(nothing@ =~= Seq::<char>::empty());
            assert forall|k: int| 0 <= k < candidates@.len() implies (#[trigger] candidates@[k])@.len()
                == grid.col_dim by {
                assert(offered[k] == candidates@[k]@);
                entries.lemma_filter_pred(fits(Seq::empty(), grid.col_dim), k);
            }
            lemma_filter_nothing(feasible(entries, grid));
            assert(offered.take(0) =~= Seq::empty());
            assert(move_views(scored@) =~= keyed(entries, grid, Seq::empty()));
        }
        while n < candidates.len()
            invariant
                n <= candidates.len(),
                self.wf(),
                lexicon.wf(),
                entries == lexicon.entries(),
                grid == self@,
                seed == row_seed(grid.rows.len()),
                offered == word_views(candidates@),
                forall|k: int|
                    0 <= k < candidates@.len() ==> (#[trigger] candidates@[k])@.len()
                        == grid.col_dim,
                rows@ == self.rows@,
                generator == generator_after(seed, scored@.len()),
                move_views(scored@) == keyed(
                    entries,
                    grid,
                    offered.take(n as int).filter(feasible(entries, grid)),
                ),
            decreases candidates.len() - n,
        {
            let word = candidates[n].clone();
            rows.push(candidates[n].clone());
            proof {
                assert(word_views(rows@) =~= grid.rows.push(word@));
                assert forall|r: int| 0 <= r < rows@.len() implies (#[trigger] rows@[r])@.len()
                    == self.col_dim by {
                    if r < self.rows@.len() {
                        assert(grid.rows[r] == self.rows@[r]@);
                    }
                }
            }
            let tot_choices = column_choices(&rows, self.row_dim, self.col_dim, lexicon);
            rows.pop();
            assert(rows@ =~= self.rows@);
            let heuristic = smallest(&tot_choices);
            proof {
                let placed = grid.rows.push(word@);
                lemma_least_completions(entries, placed, grid.row_dim, grid.col_dim);
                let at = choose|i: int|
                    0 <= i < tot_choices@.len() && heuristic == #[trigger] tot_choices@[i];
                let least_at = choose|i: int|
                    0 <= i < grid.col_dim && score(entries, grid, word@) == #[trigger] completions(
                        entries,
                        placed,
                        grid.row_dim,
                        i,
                    );
                assert(tot_choices@[at] == completions(entries, placed, grid.row_dim, at));
                assert(tot_choices@[least_at] == completions(
                    entries,
                    placed,
                    grid.row_dim,
                    least_at,
                ));
                assert(heuristic == score(entries, grid, word@));
                lemma_feasible_score(entries, grid, word@);
                let seen = offered.take(n as int);
                assert(offered.take(n + 1) =~= seen.push(word@));
                seen.lemma_filter_push(word@, feasible(entries, grid));
            }
            if heuristic != 0 {
                let ghost kept = offered.take(n as int).filter(feasible(entries, grid));
                let ghost before = scored@;
                let key = next_key(&mut generator, Ghost(seed), Ghost(scored@.len() as nat));
                scored.push((heuristic, key, word));
                proof {
                    let longer = keyed(entries, grid, kept.push(word@));
                    assert(move_views(before).len() == kept.len());
                    assert forall|j: int| 0 <= j < longer.len() implies move_views(scored@)[j]
                        == longer[j] by {
                        if j < kept.len() {
                            assert(move_views(before)[j] == keyed(entries, grid, kept)[j]);
                            assert(kept.push(word@)[j] == kept[j]);
                        }
                    }
                    assert(move_views(scored@) =~= longer);
                }
            }
            n += 1;
        }
        assert(offered.take(candidates@.len() as int) =~= offered);
        rank_moves(scored)
    }

    /// The box with `word` placed as the next row.
    pub fn add_word(&self, word: String) -> (longer: WordBox)
        requires
            self.wf(),
            !self@.is_done(),
            word@.len() == self@.col_dim,
        ensures
            longer.wf(),
            longer@ == self@.with_row(word@),
    {
        let mut rows: Vec<String> = self.rows.clone();
        assert(rows@ =~= self.rows@);
        rows.push(word);
        let longer = WordBox { row_dim: self.row_dim, col_dim: self.col_dim, rows };
        assert(longer@.rows =~= self@.rows.push(word@));
        longer
    }
}

} // verus!
