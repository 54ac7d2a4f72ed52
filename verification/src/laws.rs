//! The guarantees that hold across the solving strategies, stated and
//! proved once over the solvers' contracts.

use vstd::prelude::*;

use crate::codec::{letter_bit, mask_matches, word_mask};
use crate::puzzle::Puzzle;
use crate::solver::Solver;
use crate::words::{
    all_allowed, lemma_filter_membership, lemma_filter_multiset_eq, long_enough, retained,
    word_matches, MIN_LENGTH,
};

verus! {

/// Equivalence: two solvers holding the same retained words return, for a
/// lowercase puzzle, the same set of answers — whatever their strategies.
/// `ra` and `rb` stand for the word sequences the two `solve` calls
/// return, as the solvers' postconditions describe them.
pub proof fn lemma_solver_equivalence<A: Solver, B: Solver>(
    a: &A,
    b: &B,
    p: Puzzle,
    ra: Seq<Seq<char>>,
    rb: Seq<Seq<char>>,
)
    requires
        a.word_set() == b.word_set(),
        p.is_lowercase(),
        ra.to_set() == a.word_set().filter(|w: Seq<char>| word_matches(p, w)),
        rb.to_set() == b.word_set().filter(|w: Seq<char>| word_matches(p, w)),
    ensures
        ra.to_set() == rb.to_set(),
{
}

/// Minimum length, mandatory center letter, and letter containment: a word
/// that a solver built over `dictionary` may return — a retained word that
/// answers the puzzle — has at least `MIN_LENGTH` characters, contains the
/// center letter at least once, uses only the puzzle's letters, and comes
/// from the dictionary.
pub proof fn lemma_answer_properties(dictionary: Seq<Seq<char>>, p: Puzzle, w: Seq<char>)
    requires
        retained(dictionary).to_set().filter(|x: Seq<char>| word_matches(p, x)).contains(w),
    ensures
        w.len() >= MIN_LENGTH,
        w.contains(p.center_letter),
        all_allowed(p, w),
        dictionary.contains(w),
{
    lemma_filter_membership(dictionary, |x: Seq<char>| long_enough(x), w);
}

/// A letter occurring in a word contributes no bit beyond the word's mask.
proof fn lemma_letter_in_mask(w: Seq<char>, c: char)
    requires
        w.contains(c),
    ensures
        letter_bit(c) | word_mask(w) == word_mask(w),
    decreases w.len(),
{
    let a = word_mask(w.drop_last());
    let b = letter_bit(w.last());
    if w.last() == c {
        assert(b | (a | b) == a | b) by (bit_vector);
    } else {
        let k = choose|k: int| 0 <= k < w.len() && #[trigger] w[k] == c;
        assert(w.drop_last()[k] == c);
        assert(w.drop_last().contains(c));
        lemma_letter_in_mask(w.drop_last(), c);
        let l = letter_bit(c);
        assert((l | a == a) ==> (l | (a | b) == a | b)) by (bit_vector);
    }
}

/// If every character of `w1` occurs in `w2`, then `w1`'s mask adds no bit
/// to `w2`'s.
proof fn lemma_word_mask_absorb(w1: Seq<char>, w2: Seq<char>)
    requires
        forall|c: char| w1.contains(c) ==> w2.contains(c),
    ensures
        word_mask(w1) | word_mask(w2) == word_mask(w2),
    decreases w1.len(),
{
    let m = word_mask(w2);
    if w1.len() == 0 {
        assert(0u32 | m == m) by (bit_vector);
    } else {
        assert forall|c: char| w1.drop_last().contains(c) implies w2.contains(c) by {
            let k = choose|k: int| 0 <= k < w1.drop_last().len() && #[trigger] w1.drop_last()[k] == c;
            assert(w1[k] == c);
            assert(w1.contains(c));
        }
        lemma_word_mask_absorb(w1.drop_last(), w2);
        assert(w1[w1.len() - 1] == w1.last());
        assert(w1.contains(w1.last()));
        lemma_letter_in_mask(w2, w1.last());
        let a = word_mask(w1.drop_last());
        let b = letter_bit(w1.last());
        assert((a | m == m && b | m == m) ==> ((a | b) | m == m)) by (bit_vector);
    }
}

/// Mask idempotence: a word's mask depends only on which characters occur
/// in the word, so permuting its characters or repeating them changes
/// nothing.
pub proof fn lemma_word_mask_char_set(w1: Seq<char>, w2: Seq<char>)
    requires
        forall|c: char| w1.contains(c) <==> w2.contains(c),
    ensures
        word_mask(w1) == word_mask(w2),
{
    lemma_word_mask_absorb(w1, w2);
    lemma_word_mask_absorb(w2, w1);
    let a = word_mask(w1);
    let b = word_mask(w2);
    assert((a | b == b && b | a == a) ==> a == b) by (bit_vector);
}

/// Block-size invariance: a block solver, whatever its block size, returns
/// exactly the words the flat bitmask solver returns over the same
/// dictionary, occurrence for occurrence — for every puzzle, lowercase or
/// not. `rflat` and `rblock` stand for the word sequences the two `solve`
/// calls return, as the solvers' postconditions describe them; the block
/// solver's stored dictionary is a permutation of the flat solver's.
pub proof fn lemma_block_size_invariance(
    flat_dict: Seq<Seq<char>>,
    block_dict: Seq<Seq<char>>,
    p: Puzzle,
    rflat: Seq<Seq<char>>,
    rblock: Seq<Seq<char>>,
)
    requires
        block_dict.to_multiset() == flat_dict.to_multiset(),
        rflat == flat_dict.filter(|w: Seq<char>| mask_matches(word_mask(w), p)),
        rblock == block_dict.filter(|w: Seq<char>| mask_matches(word_mask(w), p)),
    ensures
        rblock.to_multiset() == rflat.to_multiset(),
{
    lemma_filter_multiset_eq(block_dict, flat_dict, |w: Seq<char>| mask_matches(word_mask(w), p));
}

} // verus!
