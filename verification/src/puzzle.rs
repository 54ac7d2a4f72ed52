//! The puzzle value: one mandatory center letter and six outer letters.

use vstd::prelude::*;

use crate::strutil::push_char;

verus! {

/// A character is one of the twenty-six lowercase letters.
pub open spec fn is_lowercase_letter(c: char) -> bool {
    'a' <= c <= 'z'
}

/// A puzzle: answers must use only the center and outer letters, and must
/// contain the center letter at least once.
///
/// Nothing requires the seven letters to be distinct: a repeated letter,
/// even one repeating the center letter, only loses filtering power, and
/// every solver returns the same set of answers as with the duplicates
/// merged.
pub struct Puzzle {
    pub center_letter: char,
    pub outer_letters: [char; 6],
}

impl Puzzle {
    /// The character may appear in an answer to this puzzle.
    pub open spec fn allows(self, c: char) -> bool {
        c == self.center_letter || self.outer_letters@.contains(c)
    }

    /// The seven letters of the puzzle are pairwise distinct.
    pub open spec fn distinct_letters(self) -> bool {
        &&& !self.outer_letters@.contains(self.center_letter)
        &&& forall|i: int, j: int|
            0 <= i < j < 6 ==> self.outer_letters@[i] != self.outer_letters@[j]
    }

    /// Every letter of the puzzle is a lowercase letter.
    pub open spec fn is_lowercase(self) -> bool {
        &&& is_lowercase_letter(self.center_letter)
        &&& forall|i: int| 0 <= i < 6 ==> is_lowercase_letter(#[trigger] self.outer_letters@[i])
    }

    /// Tells whether the character is one of the six outer letters.
    pub fn has_outer_letter(&self, c: char) -> (r: bool)
        ensures
            r == self.outer_letters@.contains(c),
    {
        let mut i: usize = 0;
        while i < 6
            invariant
                i <= 6,
                forall|k: int| 0 <= k < i ==> #[trigger] self.outer_letters@[k] != c,
            decreases 6 - i,
        {
            if self.outer_letters[i] == c {
                return true;
            }
            i = i + 1;
        }
        false
    }

    /// Renders the puzzle as the center letter, a separator, and the six
    /// outer letters.
    pub fn to_string(&self) -> (s: String)
        ensures
            s@ == seq![self.center_letter] + ": "@ + self.outer_letters@,
    {
        let mut s = String::new();
        push_char(&mut s, self.center_letter);
        s.append(": ");
        let mut i: usize = 0;
        while i < 6
            invariant
                i <= 6,
                s@ == seq![self.center_letter] + ": "@ + self.outer_letters@.take(i as int),
            decreases 6 - i,
        {
            push_char(&mut s, self.outer_letters[i]);
            proof {
                assert(self.outer_letters@.take(i + 1) =~= self.outer_letters@.take(
                    i as int,
                ).push(self.outer_letters@[i as int]));
            }
            i = i + 1;
        }
        proof {
            assert(self.outer_letters@.take(6) =~= self.outer_letters@);
        }
        s
    }
}

} // verus!
