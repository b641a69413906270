//! The backtracking search: fill the box row by row, trying the feasible rows
//! best first, and give the first complete box that is reached.

use vstd::prelude::*;
use crate::lexicon::{fits, lemma_filter_membership, matching, Lexicon};
use crate::scoring::{columns_open, completions};
use crate::word_box::{
    can_follow, column, lemma_next_rows_membership, next_rows, Grid, WordBox,
};

verus! {

/// What the search gives from `grid`: the grid itself where it is complete,
/// else the first solution found below one of its next rows, taken in their
/// order; `None` where there is none.
pub open spec fn solve(entries: Seq<Seq<char>>, grid: Grid) -> Option<Grid>
    decreases grid.row_dim - grid.rows.len(), 1nat, 0nat,
{
    if grid.is_done() {
        Some(grid)
    } else if grid.rows.len() > grid.row_dim {
        None
    } else {
        first_solution(entries, grid, next_rows(entries, grid), 0)
    }
}

/// The first solution found below one of `moves[from..]`, each placed as the
/// next row of `grid`.
pub open spec fn first_solution(
    entries: Seq<Seq<char>>,
    grid: Grid,
    moves: Seq<Seq<char>>,
    from: nat,
) -> Option<Grid>
    decreases grid.row_dim - grid.rows.len(), 0nat, moves.len() - from,
{
    if from >= moves.len() || grid.rows.len() >= grid.row_dim {
        None
    } else {
        match solve(entries, grid.with_row(moves[from as int])) {
            Some(solution) => Some(solution),
            None => first_solution(entries, grid, moves, from + 1),
        }
    }
}

/// The model of what a search gave.
pub open spec fn grid_of(found: Option<WordBox>) -> Option<Grid> {
    match found {
        Some(word_box) => Some(word_box@),
        None => None,
    }
}

/// The grid of the first `k` rows of `grid`.
pub open spec fn upto(grid: Grid, k: int) -> Grid {
    Grid { row_dim: grid.row_dim, col_dim: grid.col_dim, rows: grid.rows.take(k) }
}

/// Row `k`, counted from one, of `solution` was a sound choice: it is an
/// entry, and with it placed every column still had a completion.
pub open spec fn placed_well(entries: Seq<Seq<char>>, solution: Grid, k: int) -> bool {
    &&& entries.contains(solution.rows[k - 1])
    &&& columns_open(entries, upto(solution, k))
}

/// `solution` is a complete box of the dimensions of `start`, begins with the
/// rows of `start`, and each of its later rows was a sound choice.
pub open spec fn grown_from(entries: Seq<Seq<char>>, start: Grid, solution: Grid) -> bool {
    &&& solution.wf()
    &&& solution.is_done()
    &&& solution.row_dim == start.row_dim
    &&& solution.col_dim == start.col_dim
    &&& start.rows.len() <= solution.rows.len()
    &&& solution.rows.take(start.rows.len() as int) == start.rows
    &&& forall|k: int|
        start.rows.len() < k <= solution.rows.len() ==> #[trigger] placed_well(entries, solution, k)
}

/// Every row that the search tries next is an entry of the row length, and
/// leaves a completion to every column.
pub proof fn lemma_next_rows_feasible(entries: Seq<Seq<char>>, grid: Grid, k: int)
    requires
        0 <= k < next_rows(entries, grid).len(),
    ensures
        entries.contains(next_rows(entries, grid)[k]),
        next_rows(entries, grid)[k].len() == grid.col_dim,
        columns_open(entries, grid.with_row(next_rows(entries, grid)[k])),
{
    let word = next_rows(entries, grid)[k];
    assert(next_rows(entries, grid).contains(word));
    lemma_next_rows_membership(entries, grid, word);
}

/// What the search gives is grown from the grid it started on.
pub proof fn lemma_solve_grows(entries: Seq<Seq<char>>, grid: Grid, solution: Grid)
    requires
        grid.wf(),
        solve(entries, grid) == Some(solution),
    ensures
        grown_from(entries, grid, solution),
    decreases grid.row_dim - grid.rows.len(), 1nat, 0nat,
{
    if grid.is_done() {
        assert(solution.rows.take(grid.rows.len() as int) =~= grid.rows);
    } else {
        lemma_first_solution_grows(entries, grid, 0, solution);
    }
}

/// What the search gives below one of the next rows of a grid is grown from
/// that grid.
pub proof fn lemma_first_solution_grows(
    entries: Seq<Seq<char>>,
    grid: Grid,
    from: nat,
    solution: Grid,
)
    requires
        grid.wf(),
        !grid.is_done(),
        first_solution(entries, grid, next_rows(entries, grid), from) == Some(solution),
    ensures
        grown_from(entries, grid, solution),
    decreases grid.row_dim - grid.rows.len(), 0nat, next_rows(entries, grid).len() - from,
{
    let moves = next_rows(entries, grid);
    let word = moves[from as int];
    let longer = grid.with_row(word);
    if solve(entries, longer) == Some(solution) {
        lemma_next_rows_feasible(entries, grid, from as int);
        assert(longer.wf());
        lemma_solve_grows(entries, longer, solution);
        let placed = grid.rows.len() as int;
        assert(solution.rows.take(placed + 1) == grid.rows.push(word));
        assert(solution.rows.take(placed) =~= grid.rows) by {
            assert(solution.rows.take(placed + 1).take(placed) =~= solution.rows.take(placed));
            assert(grid.rows.push(word).take(placed) =~= grid.rows);
        }
        assert(placed_well(entries, solution, placed + 1)) by {
            assert(solution.rows[placed] == solution.rows.take(placed + 1)[placed]);
            assert(upto(solution, placed + 1) == longer);
        }
    } else {
        lemma_first_solution_grows(entries, grid, from + 1, solution);
    }
}

/// A solution found from an empty box is a word box: every row is an entry
/// of the row length, and every column read downwards is an entry of the
/// column length.
pub proof fn lemma_solution_rows_and_columns(
    entries: Seq<Seq<char>>,
    grid: Grid,
    solution: Grid,
)
    requires
        grid.wf(),
        grid.rows.len() == 0,
        solve(entries, grid) == Some(solution),
    ensures
        solution.rows.len() == grid.row_dim,
        forall|i: int|
            0 <= i < grid.row_dim ==> entries.contains(#[trigger] solution.rows[i])
                && solution.rows[i].len() == grid.col_dim,
        forall|j: int|
            0 <= j < grid.col_dim ==> entries.contains(#[trigger] column(solution.rows, j))
                && column(solution.rows, j).len() == grid.row_dim,
{
    lemma_solve_grows(entries, grid, solution);
    assert forall|i: int| 0 <= i < grid.row_dim implies entries.contains(
        #[trigger] solution.rows[i],
    ) && solution.rows[i].len() == grid.col_dim by {
        assert(placed_well(entries, solution, i + 1));
    }
    assert forall|j: int| 0 <= j < grid.col_dim implies entries.contains(
        #[trigger] column(solution.rows, j),
    ) && column(solution.rows, j).len() == grid.row_dim by {
        lemma_closed_column_is_entry(entries, solution, j);
    }
}

/// In a complete box that was grown by sound choices, every column is an
/// entry of the column length.
pub proof fn lemma_closed_column_is_entry(entries: Seq<Seq<char>>, solution: Grid, j: int)
    requires
        solution.is_done(),
        solution.row_dim >= 1,
        placed_well(entries, solution, solution.rows.len() as int),
        0 <= j < solution.col_dim,
    ensures
        entries.contains(column(solution.rows, j)),
        column(solution.rows, j).len() == solution.row_dim,
{
    let down = column(solution.rows, j);
    let whole = upto(solution, solution.rows.len() as int);
    assert(whole.rows =~= solution.rows);
    assert(completions(entries, whole.rows, whole.row_dim, j) > 0);
    let ends = matching(entries, down, solution.row_dim);
    let end = ends[0];
    entries.lemma_filter_pred(fits(down, solution.row_dim), 0);
    assert(down =~= end);
    assert(ends.contains(end));
    entries.lemma_filter_contains_rev(fits(down, solution.row_dim), end);
}

/// Every box on the way to a solution kept all its columns open: for each
/// number of rows from the first placed one to the last, the completion
/// counts of the box of that many rows are all positive.
pub proof fn lemma_solution_path_open(
    entries: Seq<Seq<char>>,
    grid: Grid,
    solution: Grid,
    k: int,
    i: int,
)
    requires
        grid.wf(),
        solve(entries, grid) == Some(solution),
        grid.rows.len() < k <= grid.row_dim,
        0 <= i < grid.col_dim,
    ensures
        completions(entries, solution.rows.take(k), grid.row_dim, i) > 0,
{
    lemma_solve_grows(entries, grid, solution);
    assert(placed_well(entries, solution, k));
    let part = upto(solution, k);
    assert(columns_open(entries, part));
    assert(completions(entries, part.rows, part.row_dim, i) > 0);
}

/// `full` completes `start` with entries: it has the dimensions of `start`
/// and all its rows, it begins with the rows of `start`, every further row is
/// an entry that spans the columns, and, where a row was added, every column
/// read downwards is an entry.
pub open spec fn completes(entries: Seq<Seq<char>>, start: Grid, full: Grid) -> bool {
    &&& full.row_dim == start.row_dim
    &&& full.col_dim == start.col_dim
    &&& full.rows.len() == start.row_dim
    &&& start.rows.len() <= full.rows.len()
    &&& full.rows.take(start.rows.len() as int) == start.rows
    &&& forall|r: int|
        start.rows.len() <= r < full.rows.len() ==> entries.contains(#[trigger] full.rows[r])
            && full.rows[r].len() == full.col_dim
    &&& start.rows.len() < full.rows.len() ==> forall|j: int|
        0 <= j < full.col_dim ==> entries.contains(#[trigger] column(full.rows, j))
}

/// What the search gives completes the grid it started on.
pub proof fn lemma_solution_completes(entries: Seq<Seq<char>>, grid: Grid, solution: Grid)
    requires
        grid.wf(),
        solve(entries, grid) == Some(solution),
    ensures
        completes(entries, grid, solution),
{
    lemma_solve_grows(entries, grid, solution);
    assert forall|r: int| grid.rows.len() <= r < solution.rows.len() implies entries.contains(
        #[trigger] solution.rows[r],
    ) && solution.rows[r].len() == solution.col_dim by {
        assert(placed_well(entries, solution, r + 1));
    }
    if grid.rows.len() < solution.rows.len() {
        assert(placed_well(entries, solution, solution.rows.len() as int));
        assert forall|j: int| 0 <= j < solution.col_dim implies entries.contains(
            #[trigger] column(solution.rows, j),
        ) by {
            lemma_closed_column_is_entry(entries, solution, j);
        }
    }
}

/// Where one of `moves[from..]` leads to a solution, a solution is found
/// below them.
pub proof fn lemma_first_solution_found(
    entries: Seq<Seq<char>>,
    grid: Grid,
    moves: Seq<Seq<char>>,
    from: nat,
    at: int,
)
    requires
        grid.rows.len() < grid.row_dim,
        from <= at < moves.len(),
        solve(entries, grid.with_row(moves[at])) is Some,
    ensures
        first_solution(entries, grid, moves, from) is Some,
    decreases at - from,
{
    if from < at && solve(entries, grid.with_row(moves[from as int])) is None {
        lemma_first_solution_found(entries, grid, moves, from + 1, at);
    }
}

/// The search misses nothing: from a grid that entries can complete, it
/// finds a solution.
pub proof fn lemma_completion_found(entries: Seq<Seq<char>>, grid: Grid, full: Grid)
    requires
        grid.wf(),
        completes(entries, grid, full),
    ensures
        solve(entries, grid) is Some,
    decreases grid.row_dim - grid.rows.len(),
{
    if !grid.is_done() {
        let placed = grid.rows.len() as int;
        let word = full.rows[placed];
        let longer = grid.with_row(word);
        assert(full.rows.take(placed + 1) =~= grid.rows.push(word)) by {
            assert forall|r: int| 0 <= r < placed implies full.rows[r] == grid.rows[r] by {
                assert(full.rows.take(placed)[r] == grid.rows[r]);
            }
        }
        assert forall|i: int| 0 <= i < grid.col_dim implies #[trigger] completions(
            entries,
            longer.rows,
            longer.row_dim,
            i,
        ) > 0 by {
            let begun = column(longer.rows, i);
            let down = column(full.rows, i);
            assert(begun =~= down.subrange(0, placed + 1)) by {
                assert forall|r: int| 0 <= r <= placed implies begun[r] == down[r] by {
                    assert(full.rows.take(placed + 1)[r] == longer.rows[r]);
                }
            }
            lemma_filter_membership(entries, fits(begun, grid.row_dim), down);
        }
        assert(can_follow(entries, grid, word));
        lemma_next_rows_membership(entries, grid, word);
        let moves = next_rows(entries, grid);
        let at = choose|at: int| 0 <= at < moves.len() && moves[at] == word;
        lemma_completion_found(entries, longer, full);
        lemma_first_solution_found(entries, grid, moves, 0, at);
    }
}

/// The search succeeds exactly where it can: it gives a solution if and only
/// if entries can complete the grid, whatever the order in which the rows are
/// tried.
pub proof fn lemma_solved_iff_completable(entries: Seq<Seq<char>>, grid: Grid)
    requires
        grid.wf(),
    ensures
        solve(entries, grid) is Some <==> exists|full: Grid| completes(entries, grid, full),
{
    if solve(entries, grid) is Some {
        lemma_solution_completes(entries, grid, solve(entries, grid)->0);
    }
    if exists|full: Grid| completes(entries, grid, full) {
        let full = choose|full: Grid| completes(entries, grid, full);
        lemma_completion_found(entries, grid, full);
    }
}

/// Searches for a complete box from `wb`: tries the next rows in their order
/// and gives the first solution found below one of them.
///
/// The outcome is a function of the entries of the lexicon and of the box, so
/// that the same search gives the same solution again. `None` says that no
/// arrangement of lexicon words completes the box; the search has then tried
/// every feasible row at every node.
pub fn solve_word_box<L: Lexicon>(wb: WordBox, lexicon: &L) -> (found: Option<WordBox>)
    requires
        wb.wf(),
        lexicon.wf(),
    ensures
        grid_of(found) == solve(lexicon.entries(), wb@),
        found is Some <==> exists|full: Grid| completes(lexicon.entries(), wb@, full),
        found matches Some(solution) ==> solution.wf() && grown_from(
            lexicon.entries(),
            wb@,
            solution@,
        ) && completes(lexicon.entries(), wb@, solution@),
    decreases wb@.row_dim - wb@.rows.len(),
{
    let ghost entries = lexicon.entries();
    proof {
        lemma_solved_iff_completable(entries, wb@);
        if solve(entries, wb@) is Some {
            lemma_solve_grows(entries, wb@, solve(entries, wb@)->0);
            lemma_solution_completes(entries, wb@, solve(entries, wb@)->0);
        }
    }
    if wb.is_done() {
        return Some(wb);
    }
    let choices = wb.next_moves(lexicon);
    let ghost moves = next_rows(entries, wb@);
    let mut c: usize = 0;
    while c < choices.len()
        invariant
            c <= choices.len(),
            wb.wf(),
            lexicon.wf(),
            !wb@.is_done(),
            entries == lexicon.entries(),
            moves == next_rows(entries, wb@),
            moves == crate::words::word_views(choices@),
            first_solution(entries, wb@, moves, c as nat) == solve(entries, wb@),
        decreases choices.len() - c,
    {
        proof {
            lemma_next_rows_feasible(entries, wb@, c as int);
            assert(moves[c as int] == choices@[c as int]@);
        }
        let longer = wb.add_word(choices[c].clone());
        let found = solve_word_box(longer, lexicon);
        if found.is_some() {
            proof {
                lemma_solved_iff_completable(entries, wb@);
                lemma_solve_grows(entries, wb@, found.unwrap()@);
                lemma_solution_completes(entries, wb@, found.unwrap()@);
            }
            return found;
        }
        c += 1;
    }
    None
}

} // verus!
