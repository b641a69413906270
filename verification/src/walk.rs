//! The search as a walk, one node at a time, for a caller that wants to do
//! something at every node, such as drawing it.
//!
//! A walk keeps the path from the box it started on to the node it is at,
//! and at every level of the path the rows that can follow and how many of
//! them were entered. A step either finds the node complete, or goes to the
//! next node that the search visits: the first child of the node, or, where
//! it has none, the next child of the nearest level above that has one left.

use vstd::prelude::*;
use crate::lexicon::{fits, matching, Lexicon};
use crate::scoring::feasible;
use crate::search::{first_solution, lemma_next_rows_feasible, solve};
use crate::word_box::{lemma_next_rows_membership, next_rows, Grid, WordBox};
use crate::words::word_views;

verus! {

/// The model of one level of the path.
pub struct Level {
    /// The grid at this level.
    pub grid: Grid,
    /// The rows that can follow it, in the order in which they are tried.
    pub moves: Seq<Seq<char>>,
    /// How many of them were entered; the last of these is on the path.
    pub entered: nat,
}

/// The model of a [`Walk`].
pub struct Trail {
    /// The grid that the walk started on.
    pub start: Grid,
    /// The levels above the node, from the start downwards.
    pub levels: Seq<Level>,
    /// The node that the walk is at.
    pub node: Grid,
    /// Whether every node was visited without finding a solution.
    pub over: bool,
}

/// What a step came to.
#[derive(Debug, Clone, Copy, PartialEq, Eq)]
pub enum Progress {
    /// The walk went on to another node.
    Visiting,
    /// The node that the walk is at is complete: it is the solution.
    Found,
    /// Every node was visited and none is complete.
    Exhausted,
}

/// Goes to the next child of the lowest level that has one left, and drops
/// the levels below it: the levels that remain and the child, or no levels
/// and no child where no level has one left.
pub open spec fn advance(levels: Seq<Level>) -> (Seq<Level>, Option<Grid>)
    decreases levels.len(),
{
    if levels.len() == 0 {
        (levels, None)
    } else {
        let top = levels.last();
        if top.entered < top.moves.len() {
            (
                levels.drop_last().push(
                    Level { grid: top.grid, moves: top.moves, entered: top.entered + 1 },
                ),
                Some(top.grid.with_row(top.moves[top.entered as int])),
            )
        } else {
            advance(levels.drop_last())
        }
    }
}

/// The level that a node opens: its next rows, none of them entered yet.
pub open spec fn opened(entries: Seq<Seq<char>>, node: Grid) -> Level {
    Level { grid: node, moves: next_rows(entries, node), entered: 0 }
}

/// One step of the walk: where it leads and what it came to.
pub open spec fn stepped(entries: Seq<Seq<char>>, trail: Trail) -> (Trail, Progress) {
    if trail.over {
        (trail, Progress::Exhausted)
    } else if trail.node.is_done() {
        (trail, Progress::Found)
    } else {
        let next = advance(trail.levels.push(opened(entries, trail.node)));
        match next.1 {
            Some(child) => (
                Trail { start: trail.start, levels: next.0, node: child, over: false },
                Progress::Visiting,
            ),
            None => (
                Trail { start: trail.start, levels: Seq::empty(), node: trail.node, over: true },
                Progress::Exhausted,
            ),
        }
    }
}

/// What the search gives from the grid of a level, given what it gives from
/// the child that is on the path.
pub open spec fn passed_up(entries: Seq<Seq<char>>, level: Level, below: Grid) -> Option<Grid> {
    match solve(entries, below) {
        Some(solution) => Some(solution),
        None => first_solution(entries, level.grid, level.moves, level.entered),
    }
}

/// The level is a node of the search with `below` as the child that was
/// entered last.
pub open spec fn level_sound(entries: Seq<Seq<char>>, level: Level, below: Grid) -> bool {
    &&& level.grid.wf()
    &&& !level.grid.is_done()
    &&& level.moves == next_rows(entries, level.grid)
    &&& 1 <= level.entered <= level.moves.len()
    &&& below == level.grid.with_row(level.moves[level.entered - 1])
    &&& solve(entries, level.grid) == passed_up(entries, level, below)
}

/// Every level is sound, each with the grid of the level below it as its
/// child, and the lowest with `below`.
pub open spec fn chain(entries: Seq<Seq<char>>, levels: Seq<Level>, below: Grid) -> bool
    decreases levels.len(),
{
    if levels.len() == 0 {
        true
    } else {
        level_sound(entries, levels.last(), below) && chain(
            entries,
            levels.drop_last(),
            levels.last().grid,
        )
    }
}

/// The grid at the top of the path.
pub open spec fn head(trail: Trail) -> Grid {
    if trail.levels.len() == 0 {
        trail.node
    } else {
        trail.levels[0].grid
    }
}

/// The invariant of a walk over a lexicon with these entries: the path
/// leads from the start to the node through next rows, and what was entered
/// and left behind holds no solution.
pub open spec fn sound(entries: Seq<Seq<char>>, trail: Trail) -> bool {
    &&& trail.start.wf()
    &&& trail.over ==> solve(entries, trail.start) is None
    &&& !trail.over ==> trail.node.wf() && chain(entries, trail.levels, trail.node) && head(trail)
        == trail.start
}

/// The level is a node of the search whose entered children hold no
/// solution.
pub open spec fn ready(entries: Seq<Seq<char>>, level: Level) -> bool {
    &&& level.grid.wf()
    &&& !level.grid.is_done()
    &&& level.moves == next_rows(entries, level.grid)
    &&& level.entered <= level.moves.len()
    &&& solve(entries, level.grid) == first_solution(
        entries,
        level.grid,
        level.moves,
        level.entered,
    )
}

/// Advancing keeps the path sound, and where no child is left anywhere the
/// search gives nothing from the top of the path.
pub proof fn lemma_advance(entries: Seq<Seq<char>>, levels: Seq<Level>)
    requires
        levels.len() > 0,
        ready(entries, levels.last()),
        chain(entries, levels.drop_last(), levels.last().grid),
    ensures
        match advance(levels).1 {
            Some(child) => child.wf() && chain(entries, advance(levels).0, child) && advance(
                levels,
            ).0.len() > 0 && advance(levels).0[0].grid == levels[0].grid,
            None => advance(levels).0.len() == 0 && solve(entries, levels[0].grid) is None,
        },
    decreases levels.len(),
{
    let top = levels.last();
    let rest = levels.drop_last();
    if top.entered < top.moves.len() {
        let child = top.grid.with_row(top.moves[top.entered as int]);
        let again = Level { grid: top.grid, moves: top.moves, entered: top.entered + 1 };
        let out = rest.push(again);
        lemma_next_rows_feasible(entries, top.grid, top.entered as int);
        assert(child.wf());
        assert(level_sound(entries, again, child));
        assert(out.last() == again);
        assert(out.drop_last() =~= rest);
        assert(chain(entries, out, child));
    } else if rest.len() > 0 {
        let upper = rest.last();
        assert(level_sound(entries, upper, top.grid));
        assert(ready(entries, upper));
        lemma_advance(entries, rest);
    }
}

/// A solution found below the path is what the search gives from its top.
pub proof fn lemma_chain_found(
    entries: Seq<Seq<char>>,
    levels: Seq<Level>,
    below: Grid,
    solution: Grid,
)
    requires
        levels.len() > 0,
        chain(entries, levels, below),
        solve(entries, below) == Some(solution),
    ensures
        solve(entries, levels[0].grid) == Some(solution),
    decreases levels.len(),
{
    if levels.len() > 1 {
        lemma_chain_found(entries, levels.drop_last(), levels.last().grid, solution);
    }
}

/// A step keeps the walk sound, and it ends as the search does: where it
/// finds the node complete, the node is what the search gives from the
/// start, and where it finds the walk exhausted, the search gives nothing.
pub proof fn lemma_step_sound(entries: Seq<Seq<char>>, trail: Trail)
    requires
        sound(entries, trail),
    ensures
        sound(entries, stepped(entries, trail).0),
        stepped(entries, trail).0.start == trail.start,
        stepped(entries, trail).1 is Found ==> solve(entries, trail.start) == Some(trail.node),
        stepped(entries, trail).1 is Exhausted ==> solve(entries, trail.start) is None,
{
    if !trail.over {
        if trail.node.is_done() {
            if trail.levels.len() > 0 {
                lemma_chain_found(entries, trail.levels, trail.node, trail.node);
            }
        } else {
            let level = opened(entries, trail.node);
            let levels = trail.levels.push(level);
            assert(levels.last() == level);
            assert(levels.drop_last() =~= trail.levels);
            assert(ready(entries, level));
            lemma_advance(entries, levels);
            assert(levels[0].grid == trail.start);
        }
    }
}

/// The most nodes that a search over `n` entries can visit from a node with
/// `rows` rows still to place: the node, and below each of at most `n`
/// children as many as from a node with one row less to place.
pub open spec fn span(n: nat, rows: nat) -> nat
    decreases rows,
{
    if rows == 0 {
        1
    } else {
        1 + n * span(n, (rows - 1) as nat)
    }
}

/// The number of rows still to place in `grid`.
pub open spec fn missing(grid: Grid) -> nat {
    if grid.rows.len() <= grid.row_dim {
        (grid.row_dim - grid.rows.len()) as nat
    } else {
        0
    }
}

/// The most nodes still to visit below the children of `level` that were
/// not entered yet.
pub open spec fn ahead(n: nat, level: Level) -> nat {
    if level.entered <= level.moves.len() && missing(level.grid) >= 1 {
        ((level.moves.len() - level.entered) * span(n, (missing(level.grid) - 1) as nat)) as nat
    } else {
        0
    }
}

/// The most nodes still to visit below the children of `levels` that were
/// not entered yet.
pub open spec fn ahead_of_all(n: nat, levels: Seq<Level>) -> nat
    decreases levels.len(),
{
    if levels.len() == 0 {
        0
    } else {
        ahead_of_all(n, levels.drop_last()) + ahead(n, levels.last())
    }
}

/// A bound on the number of nodes that the walk has still to visit, the one
/// it is at included.
pub open spec fn left(entries: Seq<Seq<char>>, trail: Trail) -> nat {
    ahead_of_all(entries.len(), trail.levels) + span(entries.len(), missing(trail.node))
}

/// No more rows can follow than there are entries.
pub proof fn lemma_moves_bounded(entries: Seq<Seq<char>>, grid: Grid)
    ensures
        next_rows(entries, grid).len() <= entries.len(),
{
    lemma_next_rows_membership(entries, grid, Seq::empty());
    entries.lemma_filter_len(fits(Seq::empty(), grid.col_dim));
    matching(entries, Seq::empty(), grid.col_dim).lemma_filter_len(feasible(entries, grid));
}

/// Advancing leaves no more to visit than was ahead before.
pub proof fn lemma_advance_shortens(entries: Seq<Seq<char>>, levels: Seq<Level>)
    requires
        levels.len() > 0,
        ready(entries, levels.last()),
        chain(entries, levels.drop_last(), levels.last().grid),
    ensures
        advance(levels).1 matches Some(child) ==> ahead_of_all(entries.len(), advance(levels).0)
            + span(entries.len(), missing(child)) <= ahead_of_all(entries.len(), levels),
    decreases levels.len(),
{
    let n = entries.len();
    let top = levels.last();
    let rest = levels.drop_last();
    if top.entered < top.moves.len() {
        let child = top.grid.with_row(top.moves[top.entered as int]);
        let again = Level { grid: top.grid, moves: top.moves, entered: top.entered + 1 };
        let out = rest.push(again);
        let below = span(n, (missing(top.grid) - 1) as nat);
        let open = (top.moves.len() - top.entered) as int;
        assert(out.last() == again);
        assert(out.drop_last() =~= rest);
        assert(missing(child) == missing(top.grid) - 1);
        assert(open * below == (open - 1) * below + below) by (nonlinear_arith);
        assert((open - 1) * below >= 0) by (nonlinear_arith)
            requires
                open >= 1,
                below >= 0,
        ;
        assert(ahead(n, top) == ahead(n, again) + below);
    } else if rest.len() > 0 {
        let upper = rest.last();
        assert(level_sound(entries, upper, top.grid));
        assert(ready(entries, upper));
        lemma_advance_shortens(entries, rest);
    }
}

/// A step that goes on to another node leaves fewer nodes to visit: a walk
/// comes to its end.
pub proof fn lemma_step_shortens(entries: Seq<Seq<char>>, trail: Trail)
    requires
        sound(entries, trail),
        stepped(entries, trail).1 is Visiting,
    ensures
        left(entries, stepped(entries, trail).0) < left(entries, trail),
{
    let n = entries.len();
    let level = opened(entries, trail.node);
    let levels = trail.levels.push(level);
    let below = span(n, (missing(trail.node) - 1) as nat);
    let wide = level.moves.len();
    assert(levels.last() == level);
    assert(levels.drop_last() =~= trail.levels);
    assert(ready(entries, level));
    lemma_moves_bounded(entries, trail.node);
    assert(wide * below <= n * below) by (nonlinear_arith)
        requires
            wide <= n,
            below >= 0,
    ;
    assert(ahead(n, level) == wide * below);
    assert(span(n, missing(trail.node)) == 1 + n * below);
    lemma_advance_shortens(entries, levels);
}

/// One level of the path of a walk.
struct Frame {
    /// The box at this level.
    node: WordBox,
    /// Its next rows.
    choices: Vec<String>,
    /// How many of them were entered.
    entered: usize,
}

/// A search that is carried out one node at a time.
pub struct Walk {
    /// The grid that the walk started on.
    start: Ghost<Grid>,
    /// The levels above the node.
    frames: Vec<Frame>,
    /// The node that the walk is at.
    node: WordBox,
    /// Whether the walk is exhausted.
    over: bool,
}

/// The model of a frame.
spec fn level_of(frame: Frame) -> Level {
    Level { grid: frame.node@, moves: word_views(frame.choices@), entered: frame.entered as nat }
}

/// The models of the frames, in their order.
spec fn levels_of(frames: Seq<Frame>) -> Seq<Level> {
    frames.map_values(|frame: Frame| level_of(frame))
}

impl View for Walk {
    type V = Trail;

    closed spec fn view(&self) -> Trail {
        Trail {
            start: self.start@,
            levels: levels_of(self.frames@),
            node: self.node@,
            over: self.over,
        }
    }
}

impl Walk {
    /// A walk that is at `word_box` and has visited nothing yet.
    pub fn start(word_box: WordBox) -> (walk: Walk)
        requires
            word_box.wf(),
        ensures
            walk@ == (Trail {
                start: word_box@,
                levels: Seq::empty(),
                node: word_box@,
                over: false,
            }),
            forall|entries: Seq<Seq<char>>| #[trigger] sound(entries, walk@),
    {
        let walk = Walk { start: Ghost(word_box@), frames: Vec::new(), node: word_box, over: false };
        assert(walk@.levels =~= Seq::empty());
        walk
    }

    /// The node that the walk is at.
    pub fn current(&self) -> (node: &WordBox)
        ensures
            node@ == self@.node,
    {
        &self.node
    }

    /// Takes one step: finds the node complete, or goes to the next node
    /// that the search visits, or finds that none is left.
    pub fn step<L: Lexicon>(&mut self, lexicon: &L) -> (progress: Progress)
        requires
            lexicon.wf(),
            sound(lexicon.entries(), old(self)@),
        ensures
            final(self)@ == stepped(lexicon.entries(), old(self)@).0,
            progress == stepped(lexicon.entries(), old(self)@).1,
            sound(lexicon.entries(), final(self)@),
            progress is Found ==> solve(lexicon.entries(), old(self)@.start) == Some(
                final(self)@.node,
            ),
            progress is Exhausted ==> solve(lexicon.entries(), old(self)@.start) is None,
            progress is Visiting ==> left(lexicon.entries(), final(self)@) < left(
                lexicon.entries(),
                old(self)@,
            ),
    {
        let ghost entries = lexicon.entries();
        let ghost before = self@;
        proof {
            lemma_step_sound(entries, before);
            if stepped(entries, before).1 is Visiting {
                lemma_step_shortens(entries, before);
            }
        }
        if self.over {
            return Progress::Exhausted;
        }
        if self.node.is_done() {
            return Progress::Found;
        }
        let choices = self.node.next_moves(lexicon);
        let ghost first = opened(entries, before.node);
        let ghost all = before.levels.push(first);
        proof {
            assert(all.last() == first);
            assert(all.drop_last() =~= before.levels);
        }
        if choices.len() > 0 {
            proof {
                lemma_next_rows_feasible(entries, before.node, 0);
            }
            let mut node = self.node.add_word(choices[0].clone());
            std::mem::swap(&mut self.node, &mut node);
            self.frames.push(Frame { node, choices, entered: 1 });
            proof {
                assert(self@.levels =~= advance(all).0);
            }
            return Progress::Visiting;
        }
        let ghost mut below = before.node;
        while self.frames.len() > 0
            invariant
                lexicon.wf(),
                entries == lexicon.entries(),
                self.start@ == before.start,
                self.node@ == before.node,
                !self.over,
                advance(levels_of(self.frames@)) == advance(all),
                chain(entries, levels_of(self.frames@), below),
                before == old(self)@,
                !before.over,
                !before.node.is_done(),
                all == before.levels.push(opened(entries, before.node)),
                sound(entries, stepped(entries, before).0),
                stepped(entries, before).1 is Visiting ==> left(entries, stepped(entries, before).0)
                    < left(entries, before),
            decreases self.frames.len(),
        {
            let ghost levels = levels_of(self.frames@);
            let mut top = self.frames.pop().unwrap();
            proof {
                assert(levels.last() == level_of(top));
                assert(levels_of(self.frames@) =~= levels.drop_last());
                assert(level_sound(entries, levels.last(), below));
            }
            if top.entered < top.choices.len() {
                proof {
                    lemma_next_rows_feasible(entries, top.node@, top.entered as int);
                }
                self.node = top.node.add_word(top.choices[top.entered].clone());
                top.entered = top.entered + 1;
                self.frames.push(top);
                proof {
                    assert(advance(levels).1 == Some(self.node@));
                    assert(self@.levels =~= advance(levels).0);
                    assert(self@ == stepped(entries, before).0);
                }
                return Progress::Visiting;
            }
            proof {
                below = top.node@;
            }
        }
        self.over = true;
        proof {
            assert(levels_of(self.frames@) =~= Seq::empty());
            assert(self@.levels =~= Seq::<Level>::empty());
        }
        Progress::Exhausted
    }
}

} // verus!
