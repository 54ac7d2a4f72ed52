//! The baseline strategy: scan every retained word and test it directly
//! against the puzzle, character by character.

use vstd::prelude::*;
use vstd::string::StrSliceExecFns;

use crate::puzzle::Puzzle;
use crate::solver::Solver;
use crate::words::{
    filter_min_length, lemma_filter_push, lemma_filter_to_set, lemma_views_push, long_enough,
    retained, views_of, word_matches, MIN_LENGTH,
};

verus! {

/// Solves a puzzle by iterating over every word in a dictionary and seeing
/// whether that word is valid.
pub struct NaiveSolver {
    words: Vec<String>,
}

impl NaiveSolver {
    /// The retained dictionary, in its original order.
    pub closed spec fn dict(self) -> Seq<Seq<char>> {
        views_of(self.words@)
    }

    /// Retains only the words of at least `MIN_LENGTH` characters.
    pub fn new(word_list: Vec<String>) -> (solver: NaiveSolver)
        ensures
            solver.wf(),
            solver.dict() == retained(views_of(word_list@)),
            solver.word_set() == retained(views_of(word_list@)).to_set(),
    {
        let solver = NaiveSolver { words: filter_min_length(&word_list) };
        proof {
            broadcast use vstd::seq_lib::group_filter_ensures;

        }
        solver
    }

    /// A word is valid when each of its characters is the center letter or
    /// an outer letter, and the center letter occurs at least once.
    pub fn word_is_valid(&self, puzzle: &Puzzle, word: &str) -> (valid: bool)
        ensures
            valid == word_matches(*puzzle, word@),
    {
        let len = word.unicode_len();
        let mut has_center = false;
        let mut i: usize = 0;
        while i < len
            invariant
                len == word@.len(),
                i <= len,
                forall|k: int| 0 <= k < i ==> puzzle.allows(#[trigger] word@[k]),
                has_center == word@.take(i as int).contains(puzzle.center_letter),
            decreases len - i,
        {
            let c = word.get_char(i);
            proof {
                assert(word@.take(i + 1).drop_last() =~= word@.take(i as int));
                assert(word@.take(i + 1).last() == c);
                if word@.take(i as int).contains(puzzle.center_letter) {
                    let k = choose|k: int|
                        0 <= k < i && word@.take(i as int)[k] == puzzle.center_letter;
                    assert(word@.take(i + 1)[k] == puzzle.center_letter);
                }
            }
            if c == puzzle.center_letter {
                has_center = true;
                proof {
                    assert(word@.take(i + 1)[i as int] == c);
                }
            } else {
                if !puzzle.has_outer_letter(c) {
                    proof {
                        assert(!puzzle.allows(word@[i as int]));
                    }
                    return false;
                }
                proof {
                    if word@.take(i + 1).contains(puzzle.center_letter) {
                        let k = choose|k: int|
                            0 <= k <= i && #[trigger] word@.take(i + 1)[k]
                                == puzzle.center_letter;
                        assert(k < i);
                        assert(word@.take(i as int)[k] == puzzle.center_letter);
                    }
                }
            }
            i = i + 1;
        }
        proof {
            assert(word@.take(len as int) =~= word@);
        }
        has_center
    }
}

impl Solver for NaiveSolver {
    /// The set of retained words.
    closed spec fn word_set(&self) -> Set<Seq<char>> {
        self.dict().to_set()
    }

    /// Every retained word is long enough.
    closed spec fn wf(&self) -> bool {
        forall|i: int| 0 <= i < self.dict().len() ==> long_enough(#[trigger] self.dict()[i])
    }

    /// Scans the retained words in order, keeping each valid one.
    fn solve(&self, puzzle: &Puzzle) -> (result: Vec<String>)
        ensures
            views_of(result@) == self.dict().filter(|w: Seq<char>| word_matches(*puzzle, w)),
    {
        let mut result: Vec<String> = Vec::new();
        let mut i: usize = 0;
        while i < self.words.len()
            invariant
                self.wf(),
                i <= self.words@.len(),
                views_of(result@) == views_of(self.words@.take(i as int)).filter(
                    |w: Seq<char>| word_matches(*puzzle, w),
                ),
            decreases self.words@.len() - i,
        {
            let word = &self.words[i];
            proof {
                assert(self.words@.take(i + 1).drop_last() =~= self.words@.take(i as int));
                lemma_views_push(self.words@.take(i as int), *word);
                assert(views_of(self.words@.take(i + 1)) =~= views_of(
                    self.words@.take(i as int),
                ).push(word@));
                lemma_filter_push(
                    views_of(self.words@.take(i as int)),
                    |w: Seq<char>| word_matches(*puzzle, w),
                    word@,
                );
                assert(self.dict()[i as int] == word@);
            }
            if word.as_str().unicode_len() < MIN_LENGTH {
                i = i + 1;
                continue ;
            }
            let ghost prev = result@;
            if self.word_is_valid(puzzle, word.as_str()) {
                result.push(word.clone());
                proof {
                    lemma_views_push(prev, *word);
                }
            }
            i = i + 1;
        }
        proof {
            assert(self.words@.take(self.words@.len() as int) =~= self.words@);
            lemma_filter_to_set(self.dict(), |w: Seq<char>| word_matches(*puzzle, w));
        }
        result
    }
}

} // verus!
