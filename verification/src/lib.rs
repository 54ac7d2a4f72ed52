//! Solvers for the "Spelling Bee" word puzzle: given one mandatory center
//! letter and six outer letters, find every dictionary word of at least four
//! characters that uses only those letters and contains the center letter.
//!
//! Four strategies answer the same contract — a linear scan, a trie walk, a
//! flat bitmask filter, and a block-partitioned bitmask filter — and are
//! proved to return the same set of words.

mod puzzle;
mod solver;
mod strutil;
mod trie;
mod words;

mod bitmask;
mod blocks;
mod codec;
mod laws;
mod naive;

pub use bitmask::BitmaskSolver;
pub use codec::{
    center_mask, forbidden_mask, letter_bit, letter_index, mask_matches, mask_test, word_mask,
};
pub use blocks::BitmaskBlockSolver;
pub use laws::{
    lemma_answer_properties, lemma_block_size_invariance, lemma_solver_equivalence,
    lemma_word_mask_char_set,
};
pub use naive::NaiveSolver;
pub use puzzle::{is_lowercase_letter, Puzzle};
pub use solver::Solver;
pub use trie::TrieSolver;
pub use words::{all_allowed, long_enough, retained, views_of, word_matches, MIN_LENGTH};
