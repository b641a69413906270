//! Word boxes: rectangular grids of letters whose rows and columns are all
//! dictionary words, found by a pruned backtracking search over a lexicon.
//!
//! A [`Lexicon`] answers which of its words of a given length start with a
//! given prefix. [`solve_word_box`] fills a [`WordBox`] row by row: at every
//! node it keeps the lexicon words that leave each column a completion,
//! tries them best first, and backtracks where a branch is exhausted. A
//! [`Walk`] carries out the same search one node at a time.

pub mod hash_lexicon;
pub mod lexicon;
pub mod ranking;
pub mod sanitize;
pub mod scoring;
pub mod search;
pub mod tiebreak;
pub mod walk;
pub mod word_box;
pub mod words;

pub use crate::hash_lexicon::HashMapLexicon;
pub use crate::lexicon::{Lexicon, VecLexicon};
pub use crate::sanitize::filter_words;
pub use crate::search::solve_word_box;
pub use crate::walk::{Progress, Walk};
pub use crate::word_box::WordBox;
