//! The block-partitioned bitmask strategy: the retained dictionary is
//! sorted, split into fixed-size blocks, and each block carries two
//! aggregate masks that let a query reject the whole block cheaply.

use vstd::prelude::*;

use crate::bitmask::{
    lemma_masked_views_push, masked_views, masked_words_wf, BitmaskSolver, BitmaskedWord,
};
use crate::codec::{
    center_mask, forbidden_mask, lemma_mask_matches, letter_bit, mask_matches, mask_test,
    word_mask,
};
use crate::puzzle::Puzzle;
use crate::solver::Solver;
use crate::words::{
    filter_min_length, lemma_filter_congruence, lemma_filter_empty, lemma_filter_push,
    lemma_filter_to_set, lemma_multiset_eq_to_set, lemma_views_add, lemma_views_multiset,
    long_enough, retained, views_of, word_matches,
};

verus! {

/// The intersection of the masks of a sequence of words: the bits of the
/// letters present in every word.
pub(crate) open spec fn and_masks(ws: Seq<Seq<char>>) -> u32
    decreases ws.len(),
{
    if ws.len() == 0 {
        0xffff_ffffu32
    } else {
        and_masks(ws.drop_last()) & word_mask(ws.last())
    }
}

/// The union of the masks of a sequence of words: the bits of the letters
/// present in at least one word.
pub(crate) open spec fn or_masks(ws: Seq<Seq<char>>) -> u32
    decreases ws.len(),
{
    if ws.len() == 0 {
        0u32
    } else {
        or_masks(ws.drop_last()) | word_mask(ws.last())
    }
}

/// The intersection of the masks lies inside each word's mask.
proof fn lemma_and_masks_sub(ws: Seq<Seq<char>>, i: int)
    requires
        0 <= i < ws.len(),
    ensures
        and_masks(ws) & word_mask(ws[i]) == and_masks(ws),
    decreases ws.len(),
{
    let a = and_masks(ws.drop_last());
    let b = word_mask(ws.last());
    if i == ws.len() - 1 {
        assert((a & b) & b == a & b) by (bit_vector);
    } else {
        lemma_and_masks_sub(ws.drop_last(), i);
        let x = word_mask(ws.drop_last()[i]);
        assert((a & x == a) ==> ((a & b) & x == a & b)) by (bit_vector);
    }
}

/// Each word's mask lies inside the union of the masks.
proof fn lemma_or_masks_sup(ws: Seq<Seq<char>>, i: int)
    requires
        0 <= i < ws.len(),
    ensures
        word_mask(ws[i]) & or_masks(ws) == word_mask(ws[i]),
    decreases ws.len(),
{
    let a = or_masks(ws.drop_last());
    let b = word_mask(ws.last());
    if i == ws.len() - 1 {
        assert(b & (a | b) == b) by (bit_vector);
    } else {
        lemma_or_masks_sup(ws.drop_last(), i);
        let x = word_mask(ws.drop_last()[i]);
        assert((x & a == x) ==> (x & (a | b) == x)) by (bit_vector);
    }
}

/// One block: the two aggregate masks and the block's masked words, built
/// from a contiguous run of the sorted retained dictionary.
pub(crate) struct BitmaskBlock {
    /// Mask of the characters present in every word of the block.
    pub(crate) common_chars_mask: u32,
    /// Mask of the characters present in at least one word of the block.
    pub(crate) missing_chars_mask: u32,
    /// The words present in the block.
    pub(crate) words: Vec<BitmaskedWord>,
}

/// The block's masks are the fold of its words' masks, and each word
/// carries its own mask.
pub(crate) open spec fn block_wf(b: BitmaskBlock) -> bool {
    &&& masked_words_wf(b.words@)
    &&& b.common_chars_mask == and_masks(masked_views(b.words@))
    &&& b.missing_chars_mask == or_masks(masked_views(b.words@))
}

impl BitmaskBlock {
    /// The words this block holds, in order.
    pub(crate) open spec fn view_words(self) -> Seq<Seq<char>> {
        masked_views(self.words@)
    }

    /// Builds a block from the words at `start..end`, folding their masks
    /// into the two aggregates.
    fn new(words: &Vec<String>, start: usize, end: usize) -> (block: BitmaskBlock)
        requires
            start <= end <= words@.len(),
            forall|k: int| start <= k < end ==> long_enough((#[trigger] words@[k])@),
        ensures
            block_wf(block),
            block.view_words() == views_of(words@.subrange(start as int, end as int)),
    {
        let mut common_chars_mask: u32 = !0;
        let mut missing_chars_mask: u32 = 0;
        let mut masked_words: Vec<BitmaskedWord> = Vec::new();
        proof {
            assert(!0u32 == 0xffff_ffffu32) by (bit_vector);
        }
        let mut k: usize = start;
        while k < end
            invariant
                start <= k <= end <= words@.len(),
                forall|j: int| start <= j < end ==> long_enough((#[trigger] words@[j])@),
                masked_words_wf(masked_words@),
                masked_views(masked_words@) == views_of(words@.subrange(start as int, k as int)),
                common_chars_mask == and_masks(masked_views(masked_words@)),
                missing_chars_mask == or_masks(masked_views(masked_words@)),
            decreases end - k,
        {
            let word = &words[k];
            let masked_word = BitmaskedWord {
                mask: BitmaskSolver::bitmask_word(word.as_str()),
                word: word.clone(),
            };
            proof {
                assert(words@.subrange(start as int, k + 1).drop_last() =~= words@.subrange(
                    start as int,
                    k as int,
                ));
                crate::words::lemma_views_push(
                    words@.subrange(start as int, k as int),
                    *word,
                );
                assert(views_of(words@.subrange(start as int, k + 1)) =~= views_of(
                    words@.subrange(start as int, k as int),
                ).push(word@));
                lemma_masked_views_push(masked_words@, masked_word);
            }
            missing_chars_mask = missing_chars_mask | masked_word.mask;
            common_chars_mask = common_chars_mask & masked_word.mask;
            let ghost prevw = masked_words@;
            masked_words.push(masked_word);
            proof {
                let vs = masked_views(masked_words@);
                assert(vs == masked_views(prevw).push(masked_word.word@));
                assert(vs.drop_last() =~= masked_views(prevw));
                assert(vs.last() == masked_word.word@);
            }
            k = k + 1;
        }
        BitmaskBlock { common_chars_mask, missing_chars_mask, words: masked_words }
    }

    /// Returns the block's words that pass the two-bit test, or `None` when
    /// there are none — in particular when one of the aggregate masks
    /// already rules the whole block out.
    fn matches(&self, center_letter_mask: u32, forbidden_letter_mask: u32) -> (r: Option<
        Vec<String>,
    >)
        requires
            block_wf(*self),
        ensures
            (match r {
                Some(found) => views_of(found@) == self.view_words().filter(
                    |w: Seq<char>| mask_test(word_mask(w), center_letter_mask, forbidden_letter_mask),
                ) && found@.len() > 0,
                None => self.view_words().filter(
                    |w: Seq<char>| mask_test(word_mask(w), center_letter_mask, forbidden_letter_mask),
                ).len() == 0,
            }),
    {
        let ghost pred = |w: Seq<char>|
            mask_test(word_mask(w), center_letter_mask, forbidden_letter_mask);
        if (self.common_chars_mask & forbidden_letter_mask) != 0 {
            proof {
                let ws = self.view_words();
                assert forall|i: int| 0 <= i < ws.len() implies !pred(#[trigger] ws[i]) by {
                    lemma_and_masks_sub(ws, i);
                    let c = and_masks(ws);
                    let m = word_mask(ws[i]);
                    let f = forbidden_letter_mask;
                    assert((c & m == c && c & f != 0) ==> m & f != 0) by (bit_vector);
                }
                lemma_filter_empty(self.view_words(), pred);
            }
            return None;
        }
        if (self.missing_chars_mask & center_letter_mask) == 0 {
            proof {
                let ws = self.view_words();
                assert forall|i: int| 0 <= i < ws.len() implies !pred(#[trigger] ws[i]) by {
                    lemma_or_masks_sup(ws, i);
                    let o = or_masks(ws);
                    let m = word_mask(ws[i]);
                    let c = center_letter_mask;
                    assert((m & o == m && o & c == 0) ==> m & c == 0) by (bit_vector);
                }
                lemma_filter_empty(self.view_words(), pred);
            }
            return None;
        }
        let mut result: Vec<String> = Vec::new();
        let mut i: usize = 0;
        while i < self.words.len()
            invariant
                block_wf(*self),
                i <= self.words@.len(),
                pred == (|w: Seq<char>|
                    mask_test(word_mask(w), center_letter_mask, forbidden_letter_mask)),
                views_of(result@) == masked_views(self.words@.take(i as int)).filter(pred),
            decreases self.words@.len() - i,
        {
            let masked = &self.words[i];
            proof {
                assert(self.words@.take(i + 1).drop_last() =~= self.words@.take(i as int));
                lemma_masked_views_push(self.words@.take(i as int), *masked);
                assert(masked_views(self.words@.take(i + 1)) =~= masked_views(
                    self.words@.take(i as int),
                ).push(masked.word@));
                lemma_filter_push(masked_views(self.words@.take(i as int)), pred, masked.word@);
            }
            let ghost prev = result@;
            if (masked.mask & center_letter_mask != 0) && (masked.mask & forbidden_letter_mask
                == 0) {
                result.push(masked.word.clone());
                proof {
                    crate::words::lemma_views_push(prev, masked.word);
                }
            }
            i = i + 1;
        }
        proof {
            assert(self.words@.take(self.words@.len() as int) =~= self.words@);
        }
        if result.len() == 0 {
            return None;
        }
        Some(result)
    }
}

/// The words of a sequence of blocks, block by block, in order.
pub(crate) open spec fn blocks_words(bs: Seq<BitmaskBlock>) -> Seq<Seq<char>>
    decreases bs.len(),
{
    if bs.len() == 0 {
        Seq::empty()
    } else {
        blocks_words(bs.drop_last()) + bs.last().view_words()
    }
}

/// Every block of the sequence is well formed.
pub(crate) open spec fn blocks_wf(bs: Seq<BitmaskBlock>) -> bool {
    forall|i: int| 0 <= i < bs.len() ==> block_wf(#[trigger] bs[i])
}

/// How `blocks_words` acts on a sequence extended by one block.
proof fn lemma_blocks_words_push(bs: Seq<BitmaskBlock>, b: BitmaskBlock)
    ensures
        blocks_words(bs.push(b)) == blocks_words(bs) + b.view_words(),
{
    assert(bs.push(b).drop_last() =~= bs);
}

/// Like the flat bitmask strategy, but the retained dictionary is sorted
/// and split into fixed-size blocks whose aggregate masks reject whole
/// blocks before any word is inspected.
pub struct BitmaskBlockSolver {
    blocks: Vec<BitmaskBlock>,
}

impl BitmaskBlockSolver {
    /// The retained dictionary as this solver stores it: sorted, block by
    /// block.
    pub closed spec fn dict(self) -> Seq<Seq<char>> {
        blocks_words(self.blocks@)
    }

    /// Retains the words of at least `MIN_LENGTH` characters, sorts them,
    /// and splits them into blocks of `chunk_size` words (the last block
    /// may be shorter). The retained words are kept unchanged up to order.
    pub fn new(dictionary: Vec<String>, chunk_size: usize) -> (solver: BitmaskBlockSolver)
        requires
            chunk_size > 0,
        ensures
            solver.wf(),
            solver.dict().to_multiset() == retained(views_of(dictionary@)).to_multiset(),
            solver.word_set() == retained(views_of(dictionary@)).to_set(),
    {
        let mut sorted = filter_min_length(&dictionary);
        let ghost kept = sorted@;
        sort_strings(&mut sorted);
        proof {
            lemma_views_multiset(sorted@, kept);
            broadcast use vstd::seq_lib::group_to_multiset_ensures;
            broadcast use vstd::seq_lib::group_filter_ensures;

            assert forall|k: int| 0 <= k < sorted@.len() implies long_enough(
                (#[trigger] sorted@[k])@,
            ) by {
                assert(sorted@.contains(sorted@[k]));
                assert(kept.to_multiset().count(sorted@[k]) > 0);
                assert(kept.contains(sorted@[k]));
                let j = choose|j: int| 0 <= j < kept.len() && kept[j] == sorted@[k];
                assert(views_of(kept)[j] == kept[j]@);
            }
        }
        let mut blocks: Vec<BitmaskBlock> = Vec::new();
        let mut start: usize = 0;
        while start < sorted.len()
            invariant
                start <= sorted@.len(),
                chunk_size > 0,
                forall|k: int| 0 <= k < sorted@.len() ==> long_enough((#[trigger] sorted@[k])@),
                blocks_wf(blocks@),
                blocks_words(blocks@) == views_of(sorted@.take(start as int)),
            decreases sorted@.len() - start,
        {
            let end = if sorted.len() - start > chunk_size {
                start + chunk_size
            } else {
                sorted.len()
            };
            let block = BitmaskBlock::new(&sorted, start, end);
            proof {
                lemma_blocks_words_push(blocks@, block);
                assert(sorted@.take(end as int) =~= sorted@.take(start as int) + sorted@.subrange(
                    start as int,
                    end as int,
                ));
                lemma_views_add(
                    sorted@.take(start as int),
                    sorted@.subrange(start as int, end as int),
                );
            }
            blocks.push(block);
            start = end;
        }
        proof {
            assert(sorted@.take(sorted@.len() as int) =~= sorted@);
        }
        let solver = BitmaskBlockSolver { blocks };
        proof {
            lemma_views_multiset(sorted@, kept);
            lemma_multiset_eq_to_set(solver.dict(), retained(views_of(dictionary@)));
        }
        solver
    }
}

impl Solver for BitmaskBlockSolver {
    /// The set of retained words.
    closed spec fn word_set(&self) -> Set<Seq<char>> {
        self.dict().to_set()
    }

    /// Every block is well formed.
    closed spec fn wf(&self) -> bool {
        blocks_wf(self.blocks@)
    }

    /// Walks the blocks, skipping each one whose aggregate masks already
    /// rule it out, and scans the surviving blocks word by word.
    fn solve(&self, puzzle: &Puzzle) -> (result: Vec<String>)
        ensures
            views_of(result@) == self.dict().filter(
                |w: Seq<char>| mask_matches(word_mask(w), *puzzle),
            ),
    {
        let center_letter_mask = BitmaskSolver::bitmask_letter(&puzzle.center_letter);
        let mut forbidden_letter_mask: u32 = center_letter_mask;
        proof {
            let a = center_mask(*puzzle);
            assert(a | 0u32 == a) by (bit_vector);
            assert(word_mask(puzzle.outer_letters@.take(0)) == 0u32);
        }
        let mut i: usize = 0;
        while i < 6
            invariant
                i <= 6,
                forbidden_letter_mask == center_mask(*puzzle) | word_mask(
                    puzzle.outer_letters@.take(i as int),
                ),
            decreases 6 - i,
        {
            let ghost a = center_mask(*puzzle);
            let ghost b = word_mask(puzzle.outer_letters@.take(i as int));
            let ghost c = letter_bit(puzzle.outer_letters@[i as int]);
            proof {
                assert(puzzle.outer_letters@.take(i + 1).drop_last() =~= puzzle.outer_letters@.take(
                    i as int,
                ));
                assert((a | b) | c == a | (b | c)) by (bit_vector);
            }
            forbidden_letter_mask = forbidden_letter_mask | BitmaskSolver::bitmask_letter(
                &puzzle.outer_letters[i],
            );
            i = i + 1;
        }
        proof {
            assert(puzzle.outer_letters@.take(6) =~= puzzle.outer_letters@);
        }
        forbidden_letter_mask = !forbidden_letter_mask;
        let ghost pred = |w: Seq<char>|
            mask_test(word_mask(w), center_letter_mask, forbidden_letter_mask);
        let mut result: Vec<String> = Vec::new();
        let mut j: usize = 0;
        while j < self.blocks.len()
            invariant
                self.wf(),
                j <= self.blocks@.len(),
                center_letter_mask == center_mask(*puzzle),
                forbidden_letter_mask == forbidden_mask(*puzzle),
                pred == (|w: Seq<char>|
                    mask_test(word_mask(w), center_letter_mask, forbidden_letter_mask)),
                views_of(result@) == blocks_words(self.blocks@.take(j as int)).filter(pred),
            decreases self.blocks@.len() - j,
        {
            let block = &self.blocks[j];
            proof {
                assert(self.blocks@.take(j + 1).drop_last() =~= self.blocks@.take(j as int));
                assert(self.blocks@.take(j + 1) =~= self.blocks@.take(j as int).push(*block));
                lemma_blocks_words_push(self.blocks@.take(j as int), *block);
                Seq::filter_distributes_over_add(
                    blocks_words(self.blocks@.take(j as int)),
                    block.view_words(),
                    pred,
                );
            }
            let ghost prev = result@;
            if let Some(mut found) = block.matches(center_letter_mask, forbidden_letter_mask) {
                proof {
                    lemma_views_add(prev, found@);
                }
                result.append(&mut found);
            } else {
                proof {
                    assert(block.view_words().filter(pred) =~= Seq::<Seq<char>>::empty());
                    assert(views_of(result@) + block.view_words().filter(pred) =~= views_of(
                        result@,
                    ));
                }
            }
            j = j + 1;
        }
        proof {
            assert(self.blocks@.take(self.blocks@.len() as int) =~= self.blocks@);
            lemma_filter_congruence(
                self.dict(),
                pred,
                |w: Seq<char>| mask_matches(word_mask(w), *puzzle),
            );
            if puzzle.is_lowercase() {
                assert forall|k: int| 0 <= k < self.dict().len() implies (|w: Seq<char>|
                    mask_matches(word_mask(w), *puzzle))(#[trigger] self.dict()[k]) == word_matches(
                    *puzzle,
                    self.dict()[k],
                ) by {
                    lemma_mask_matches(*puzzle, self.dict()[k]);
                }
                lemma_filter_congruence(
                    self.dict(),
                    |w: Seq<char>| mask_matches(word_mask(w), *puzzle),
                    |w: Seq<char>| word_matches(*puzzle, w),
                );
                lemma_filter_to_set(self.dict(), |w: Seq<char>| word_matches(*puzzle, w));
            }
        }
        result
    }
}

/// Relies on `<[String]>::sort`: sorts the vector in place, so the new
/// contents are a permutation of the old. No caller relies on the resulting
/// order, only on the contents being kept.
#[verifier::external_body]
fn sort_strings(words: &mut Vec<String>)
    ensures
        final(words)@.to_multiset() == old(words)@.to_multiset(),
{
    words.sort();
}

} // verus!
