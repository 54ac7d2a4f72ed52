//! The contract shared by every solving strategy.

use vstd::prelude::*;

use crate::puzzle::Puzzle;
use crate::words::{views_of, word_matches};

verus! {

/// A solver owns an index built from a dictionary and answers puzzles from
/// it. `word_set` is the set of words the index holds; for a lowercase
/// puzzle, `solve` returns exactly the held words that answer it, so any two
/// solvers holding the same words agree on every such puzzle.
pub trait Solver {
    /// The set of words held by this solver's index.
    spec fn word_set(&self) -> Set<Seq<char>>;

    /// The solver's index is well formed, as its constructor leaves it.
    spec fn wf(&self) -> bool;

    /// Returns the held words that answer the puzzle.
    fn solve(&self, puzzle: &Puzzle) -> (result: Vec<String>)
        requires
            self.wf(),
        ensures
            puzzle.is_lowercase() ==> views_of(result@).to_set() == self.word_set().filter(
                |w: Seq<char>| word_matches(*puzzle, w),
            ),
    ;
}

} // verus!
