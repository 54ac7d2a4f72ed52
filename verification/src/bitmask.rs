//! The bit-parallel strategy: one precomputed mask per retained word, and a
//! two-bit-test check per word at query time.

use vstd::prelude::*;
use vstd::string::StrSliceExecFns;

use crate::codec::{
    center_mask, forbidden_mask, lemma_mask_matches, letter_bit, mask_matches, word_mask,
};
use crate::puzzle::Puzzle;
use crate::solver::Solver;
use crate::words::{
    lemma_filter_congruence, lemma_filter_push, lemma_filter_to_set, long_enough, retained,
    views_of, word_matches, MIN_LENGTH,
};

verus! {

/// A retained word together with the union mask of its letters. The mask is
/// always recomputed from the word, never derived from another mask.
pub(crate) struct BitmaskedWord {
    pub(crate) mask: u32,
    pub(crate) word: String,
}

/// The words carried by a sequence of masked words, in order.
pub(crate) open spec fn masked_views(s: Seq<BitmaskedWord>) -> Seq<Seq<char>> {
    s.map_values(|b: BitmaskedWord| b.word@)
}

/// Each mask is the mask of its word, and each word is long enough.
pub(crate) open spec fn masked_words_wf(s: Seq<BitmaskedWord>) -> bool {
    forall|i: int|
        0 <= i < s.len() ==> (#[trigger] s[i]).mask == word_mask(s[i].word@) && long_enough(
            s[i].word@,
        )
}

/// Mapping a pushed masked word is the push of the mapped sequence.
pub(crate) proof fn lemma_masked_views_push(s: Seq<BitmaskedWord>, b: BitmaskedWord)
    ensures
        masked_views(s.push(b)) =~= masked_views(s).push(b.word@),
{
}

/// Solves a puzzle by testing two bit conditions per retained word against
/// precomputed letter masks.
pub struct BitmaskSolver {
    bitmasks: Vec<BitmaskedWord>,
}

impl BitmaskSolver {
    /// The retained dictionary, in its original order.
    pub closed spec fn dict(self) -> Seq<Seq<char>> {
        masked_views(self.bitmasks@)
    }

    /// Retains the words of at least `MIN_LENGTH` characters, precomputing
    /// each word's mask.
    pub fn new(dictionary: Vec<String>) -> (solver: BitmaskSolver)
        ensures
            solver.wf(),
            solver.dict() == retained(views_of(dictionary@)),
            solver.word_set() == retained(views_of(dictionary@)).to_set(),
    {
        let mut bitmasks: Vec<BitmaskedWord> = Vec::new();
        let mut i: usize = 0;
        while i < dictionary.len()
            invariant
                i <= dictionary@.len(),
                masked_words_wf(bitmasks@),
                masked_views(bitmasks@) == views_of(dictionary@.take(i as int)).filter(
                    |w: Seq<char>| long_enough(w),
                ),
            decreases dictionary@.len() - i,
        {
            let word = &dictionary[i];
            proof {
                assert(dictionary@.take(i + 1).drop_last() =~= dictionary@.take(i as int));
                crate::words::lemma_views_push(dictionary@.take(i as int), *word);
                assert(views_of(dictionary@.take(i + 1)) =~= views_of(
                    dictionary@.take(i as int),
                ).push(word@));
                lemma_filter_push(
                    views_of(dictionary@.take(i as int)),
                    |w: Seq<char>| long_enough(w),
                    word@,
                );
            }
            let ghost prev = bitmasks@;
            if word.as_str().unicode_len() >= MIN_LENGTH {
                let masked = BitmaskedWord {
                    mask: BitmaskSolver::bitmask_word(word.as_str()),
                    word: word.clone(),
                };
                proof {
                    lemma_masked_views_push(prev, masked);
                }
                bitmasks.push(masked);
            }
            i = i + 1;
        }
        proof {
            assert(dictionary@.take(dictionary@.len() as int) =~= dictionary@);
        }
        BitmaskSolver { bitmasks }
    }

    /// The single-bit mask of one character: one distinct bit per lowercase
    /// letter, and the reserved bit for everything else.
    pub fn bitmask_letter(letter: &char) -> (m: u32)
        ensures
            m == letter_bit(*letter),
    {
        match letter {
            'a' => 1 << 0,
            'b' => 1 << 1,
            'c' => 1 << 2,
            'd' => 1 << 3,
            'e' => 1 << 4,
            'f' => 1 << 5,
            'g' => 1 << 6,
            'h' => 1 << 7,
            'i' => 1 << 8,
            'j' => 1 << 9,
            'k' => 1 << 10,
            'l' => 1 << 11,
            'm' => 1 << 12,
            'n' => 1 << 13,
            'o' => 1 << 14,
            'p' => 1 << 15,
            'q' => 1 << 16,
            'r' => 1 << 17,
            's' => 1 << 18,
            't' => 1 << 19,
            'u' => 1 << 20,
            'v' => 1 << 21,
            'w' => 1 << 22,
            'x' => 1 << 23,
            'y' => 1 << 24,
            'z' => 1 << 25,
            _ => 1 << 26,
        }
    }

    /// The union of the letter bits of the word's characters.
    pub fn bitmask_word(word: &str) -> (m: u32)
        ensures
            m == word_mask(word@),
    {
        let len = word.unicode_len();
        let mut mask: u32 = 0;
        let mut i: usize = 0;
        while i < len
            invariant
                len == word@.len(),
                i <= len,
                mask == word_mask(word@.take(i as int)),
            decreases len - i,
        {
            let c = word.get_char(i);
            proof {
                assert(word@.take(i + 1).drop_last() =~= word@.take(i as int));
                assert(word@.take(i + 1).last() == word@[i as int]);
            }
            mask = mask | BitmaskSolver::bitmask_letter(&c);
            i = i + 1;
        }
        proof {
            assert(word@.take(len as int) =~= word@);
        }
        mask
    }
}

impl Solver for BitmaskSolver {
    /// The set of retained words.
    closed spec fn word_set(&self) -> Set<Seq<char>> {
        self.dict().to_set()
    }

    /// Every stored mask belongs to its word.
    closed spec fn wf(&self) -> bool {
        masked_words_wf(self.bitmasks@)
    }

    /// Tests every word's mask against the puzzle's center and forbidden
    /// masks; returns the words passing both tests, in retained order.
    fn solve(&self, puzzle: &Puzzle) -> (result: Vec<String>)
        ensures
            views_of(result@) == self.dict().filter(
                |w: Seq<char>| mask_matches(word_mask(w), *puzzle),
            ),
    {
        let center_letter_mask = BitmaskSolver::bitmask_letter(&puzzle.center_letter);
        let mut forbidden_letter_mask: u32 = center_letter_mask;
        proof {
            let a = center_mask(*puzzle);
            assert(a | 0u32 == a) by (bit_vector);
            assert(word_mask(puzzle.outer_letters@.take(0)) == 0u32);
        }
        let mut i: usize = 0;
        while i < 6
            invariant
                i <= 6,
                forbidden_letter_mask == center_mask(*puzzle) | word_mask(
                    puzzle.outer_letters@.take(i as int),
                ),
            decreases 6 - i,
        {
            let ghost a = center_mask(*puzzle);
            let ghost b = word_mask(puzzle.outer_letters@.take(i as int));
            let ghost c = letter_bit(puzzle.outer_letters@[i as int]);
            proof {
                assert(puzzle.outer_letters@.take(i + 1).drop_last() =~= puzzle.outer_letters@.take(
                    i as int,
                ));
                assert((a | b) | c == a | (b | c)) by (bit_vector);
            }
            forbidden_letter_mask = forbidden_letter_mask | BitmaskSolver::bitmask_letter(
                &puzzle.outer_letters[i],
            );
            i = i + 1;
        }
        proof {
            assert(puzzle.outer_letters@.take(6) =~= puzzle.outer_letters@);
        }
        forbidden_letter_mask = !forbidden_letter_mask;
        let ghost pred = |w: Seq<char>| mask_matches(word_mask(w), *puzzle);
        let mut result: Vec<String> = Vec::new();
        let mut j: usize = 0;
        while j < self.bitmasks.len()
            invariant
                self.wf(),
                j <= self.bitmasks@.len(),
                center_letter_mask == center_mask(*puzzle),
                forbidden_letter_mask == forbidden_mask(*puzzle),
                pred == (|w: Seq<char>| mask_matches(word_mask(w), *puzzle)),
                views_of(result@) == masked_views(self.bitmasks@.take(j as int)).filter(pred),
            decreases self.bitmasks@.len() - j,
        {
            let masked = &self.bitmasks[j];
            proof {
                assert(self.bitmasks@.take(j + 1).drop_last() =~= self.bitmasks@.take(j as int));
                lemma_masked_views_push(self.bitmasks@.take(j as int), *masked);
                assert(masked_views(self.bitmasks@.take(j + 1)) =~= masked_views(
                    self.bitmasks@.take(j as int),
                ).push(masked.word@));
                lemma_filter_push(masked_views(self.bitmasks@.take(j as int)), pred, masked.word@);
            }
            let ghost prev = result@;
            if (masked.mask & center_letter_mask != 0) && (masked.mask & forbidden_letter_mask
                == 0) {
                result.push(masked.word.clone());
                proof {
                    crate::words::lemma_views_push(prev, masked.word);
                }
            }
            j = j + 1;
        }
        proof {
            assert(self.bitmasks@.take(self.bitmasks@.len() as int) =~= self.bitmasks@);
            if puzzle.is_lowercase() {
                assert forall|k: int| 0 <= k < self.dict().len() implies pred(#[trigger] self.dict()[k])
                    == word_matches(*puzzle, self.dict()[k]) by {
                    lemma_mask_matches(*puzzle, self.dict()[k]);
                }
                lemma_filter_congruence(
                    self.dict(),
                    pred,
                    |w: Seq<char>| word_matches(*puzzle, w),
                );
                lemma_filter_to_set(self.dict(), |w: Seq<char>| word_matches(*puzzle, w));
            }
        }
        result
    }
}

} // verus!
