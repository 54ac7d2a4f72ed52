//! The letter codec: each lowercase letter owns one bit of a 32-bit word,
//! every other character shares a reserved bit that no puzzle ever sets, and
//! a word's mask is the union of its letters' bits.

use vstd::prelude::*;

use crate::puzzle::{is_lowercase_letter, Puzzle};

verus! {

/// The bit position a character is encoded at: 0 through 25 for the
/// lowercase letters, 26 for everything else.
pub open spec fn letter_index(c: char) -> u32 {
    if is_lowercase_letter(c) {
        ((c as u32) - ('a' as u32)) as u32
    } else {
        26u32
    }
}

/// The single-bit mask of one character.
pub open spec fn letter_bit(c: char) -> u32 {
    1u32 << letter_index(c)
}

/// The union of the letter bits of a word's characters.
pub open spec fn word_mask(w: Seq<char>) -> u32
    decreases w.len(),
{
    if w.len() == 0 {
        0u32
    } else {
        word_mask(w.drop_last()) | letter_bit(w.last())
    }
}

/// The bit of a puzzle's center letter.
pub open spec fn center_mask(p: Puzzle) -> u32 {
    letter_bit(p.center_letter)
}

/// The bits of every letter a puzzle allows.
pub open spec fn allowed_mask(p: Puzzle) -> u32 {
    center_mask(p) | word_mask(p.outer_letters@)
}

/// The bits of every letter a puzzle disallows.
pub open spec fn forbidden_mask(p: Puzzle) -> u32 {
    !allowed_mask(p)
}

/// The two-bit test: the mask meets the center mask and avoids the
/// forbidden mask.
pub open spec fn mask_test(m: u32, cm: u32, fm: u32) -> bool {
    m & cm != 0 && m & fm == 0
}

/// The two-bit-test answer check: the mask holds the center letter's bit and
/// no forbidden bit.
pub open spec fn mask_matches(m: u32, p: Puzzle) -> bool {
    mask_test(m, center_mask(p), forbidden_mask(p))
}

/// Every character's bit position fits in the 32-bit word.
pub proof fn lemma_letter_index_bound(c: char)
    ensures
        letter_index(c) <= 26,
{
}

/// Two single-bit masks overlap exactly when they sit at the same position.
pub proof fn lemma_letter_bit_overlap(c: char, d: char)
    ensures
        (letter_bit(c) & letter_bit(d) != 0) <==> letter_index(c) == letter_index(d),
{
    let i = letter_index(c);
    let j = letter_index(d);
    lemma_letter_index_bound(c);
    lemma_letter_index_bound(d);
    assert(((1u32 << i) & (1u32 << j) != 0) == (i == j)) by (bit_vector)
        requires
            i < 32u32,
            j < 32u32,
    ;
}

/// On the lowercase letters the encoding is one-to-one: a character at the
/// same position as a lowercase letter is that letter.
pub proof fn lemma_letter_index_injective(c: char, d: char)
    requires
        is_lowercase_letter(c),
        letter_index(c) == letter_index(d),
    ensures
        c == d,
{
    if is_lowercase_letter(d) {
        assert(c as u32 == d as u32);
        assert(c == d);
    }
}

/// A word's mask meets `m` exactly when one of its characters' bits does.
pub proof fn lemma_word_mask_overlap(w: Seq<char>, m: u32)
    ensures
        (word_mask(w) & m != 0) <==> exists|k: int|
            0 <= k < w.len() && (#[trigger] letter_bit(w[k])) & m != 0,
    decreases w.len(),
{
    if w.len() == 0 {
        assert(0u32 & m == 0) by (bit_vector);
    } else {
        lemma_word_mask_overlap(w.drop_last(), m);
        let a = word_mask(w.drop_last());
        let b = letter_bit(w.last());
        assert(((a | b) & m != 0) == ((a & m != 0) || (b & m != 0))) by (bit_vector);
        if word_mask(w) & m != 0 {
            if a & m != 0 {
                let k = choose|k: int|
                    0 <= k < w.drop_last().len() && (#[trigger] letter_bit(w.drop_last()[k])) & m
                        != 0;
                assert(letter_bit(w[k]) & m != 0);
            } else {
                assert(letter_bit(w[w.len() - 1]) & m != 0);
            }
        }
        if exists|k: int| 0 <= k < w.len() && (#[trigger] letter_bit(w[k])) & m != 0 {
            let k = choose|k: int| 0 <= k < w.len() && (#[trigger] letter_bit(w[k])) & m != 0;
            if k < w.len() - 1 {
                assert(letter_bit(w.drop_last()[k]) & m != 0);
            }
        }
    }
}

/// A character's bit is among the allowed bits exactly when the puzzle
/// allows the character — as long as every puzzle letter is lowercase.
pub proof fn lemma_allowed_bit(p: Puzzle, c: char)
    requires
        p.is_lowercase(),
    ensures
        (letter_bit(c) & allowed_mask(p) != 0) <==> p.allows(c),
{
    let x = letter_bit(c);
    let a = center_mask(p);
    let b = word_mask(p.outer_letters@);
    assert((x & (a | b) != 0) == ((x & a != 0) || (x & b != 0))) by (bit_vector);
    assert((x & a != 0) == (a & x != 0) && (x & b != 0) == (b & x != 0)) by (bit_vector);
    lemma_letter_bit_overlap(c, p.center_letter);
    if letter_index(p.center_letter) == letter_index(c) {
        lemma_letter_index_injective(p.center_letter, c);
    }
    lemma_word_mask_overlap(p.outer_letters@, x);
    if b & x != 0 {
        let k = choose|k: int|
            0 <= k < p.outer_letters@.len() && (#[trigger] letter_bit(p.outer_letters@[k])) & x
                != 0;
        lemma_letter_bit_overlap(p.outer_letters@[k], c);
        lemma_letter_index_injective(p.outer_letters@[k], c);
        assert(p.outer_letters@.contains(c));
    }
    if p.outer_letters@.contains(c) {
        let k = choose|k: int| 0 <= k < p.outer_letters@.len() && p.outer_letters@[k] == c;
        lemma_letter_bit_overlap(p.outer_letters@[k], c);
        assert(letter_bit(p.outer_letters@[k]) & x != 0);
    }
}

/// A character's bit avoids every forbidden bit exactly when it is among the
/// allowed bits.
pub proof fn lemma_forbidden_bit(p: Puzzle, c: char)
    ensures
        (letter_bit(c) & forbidden_mask(p) == 0) <==> (letter_bit(c) & allowed_mask(p) != 0),
{
    let i = letter_index(c);
    let a = allowed_mask(p);
    lemma_letter_index_bound(c);
    assert(((1u32 << i) & !a == 0) == ((1u32 << i) & a != 0)) by (bit_vector)
        requires
            i < 32u32,
    ;
}

/// The two-bit-test check agrees with the character-by-character answer
/// predicate on every word, for a lowercase puzzle.
pub proof fn lemma_mask_matches(p: Puzzle, w: Seq<char>)
    requires
        p.is_lowercase(),
    ensures
        mask_matches(word_mask(w), p) <==> crate::words::word_matches(p, w),
{
    lemma_word_mask_overlap(w, center_mask(p));
    assert((word_mask(w) & center_mask(p) != 0) <==> w.contains(p.center_letter)) by {
        if word_mask(w) & center_mask(p) != 0 {
            let k = choose|k: int|
                0 <= k < w.len() && (#[trigger] letter_bit(w[k])) & center_mask(p) != 0;
            lemma_letter_bit_overlap(w[k], p.center_letter);
            lemma_letter_index_injective(p.center_letter, w[k]);
        }
        if w.contains(p.center_letter) {
            let k = choose|k: int| 0 <= k < w.len() && w[k] == p.center_letter;
            lemma_letter_bit_overlap(w[k], p.center_letter);
            assert(letter_bit(w[k]) & center_mask(p) != 0);
        }
    }
    lemma_word_mask_overlap(w, forbidden_mask(p));
    assert((word_mask(w) & forbidden_mask(p) == 0) <==> (forall|k: int|
        0 <= k < w.len() ==> p.allows(#[trigger] w[k]))) by {
        if word_mask(w) & forbidden_mask(p) == 0 {
            assert forall|k: int| 0 <= k < w.len() implies p.allows(#[trigger] w[k]) by {
                assert(letter_bit(w[k]) & forbidden_mask(p) == 0);
                lemma_forbidden_bit(p, w[k]);
                lemma_allowed_bit(p, w[k]);
            }
        }
        if forall|k: int| 0 <= k < w.len() ==> p.allows(#[trigger] w[k]) {
            assert forall|k: int| 0 <= k < w.len() implies (#[trigger] letter_bit(w[k]))
                & forbidden_mask(p) == 0 by {
                lemma_allowed_bit(p, w[k]);
                lemma_forbidden_bit(p, w[k]);
            }
        }
    }
}

} // verus!
