//! The trie strategy: the retained dictionary becomes a tree of characters,
//! and a puzzle is solved by a depth-first walk that only ever follows
//! edges labeled with the puzzle's own letters.

use vstd::prelude::*;
use vstd::string::StrSliceExecFns;

use crate::puzzle::Puzzle;
use crate::solver::Solver;
use crate::strutil::{pop_char, push_char};
use crate::words::{
    all_allowed, lemma_filter_push, long_enough, retained, views_of, word_matches, MIN_LENGTH,
};

verus! {

/// One labeled edge of the trie, owning the node it leads to.
pub(crate) struct TrieChild {
    pub(crate) letter: char,
    pub(crate) node: TrieNode,
}

/// A trie node: whether the path from the root to it spells a word, and the
/// owned children, one per distinct next character.
pub(crate) struct TrieNode {
    pub(crate) is_word: bool,
    pub(crate) children: Vec<TrieChild>,
}

impl TrieNode {
    /// No two children carry the same letter, at any depth.
    pub(crate) open spec fn wf(self) -> bool
        decreases self,
    {
        &&& forall|i: int, j: int|
            0 <= i < j < self.children@.len() ==> self.children@[i].letter
                != self.children@[j].letter
        &&& forall|i: int|
            0 <= i < self.children@.len() ==> (#[trigger] self.children@[i].node).wf()
    }

    /// The word is spelled by a path from this node: its characters label
    /// successive edges, ending at a node marked as a word.
    pub(crate) open spec fn contains_word(self, w: Seq<char>) -> bool
        decreases w.len(),
    {
        if w.len() == 0 {
            self.is_word
        } else {
            exists|i: int|
                0 <= i < self.children@.len() && (#[trigger] self.children@[i]).letter == w[0]
                    && self.children@[i].node.contains_word(w.skip(1))
        }
    }

    /// A fresh node with no children.
    fn new(is_word: bool) -> (n: TrieNode)
        ensures
            n.wf(),
            n.is_word == is_word,
            forall|w: Seq<char>| #[trigger] n.contains_word(w) <==> (w.len() == 0 && is_word),
    {
        let n = TrieNode { is_word, children: Vec::new() };
        proof {
            assert forall|w: Seq<char>| #[trigger]
                n.contains_word(w) <==> (w.len() == 0 && is_word) by {
                if w.len() != 0 {
                    assert(!n.contains_word(w));
                }
            }
        }
        n
    }

    /// The position of the child labeled with the character, if any.
    fn child_index(&self, c: char) -> (r: Option<usize>)
        ensures
            (match r {
                Some(j) => j < self.children@.len() && self.children@[j as int].letter == c,
                None => forall|i: int|
                    0 <= i < self.children@.len() ==> (#[trigger] self.children@[i]).letter != c,
            }),
    {
        let mut i: usize = 0;
        while i < self.children.len()
            invariant
                i <= self.children@.len(),
                forall|k: int| 0 <= k < i ==> (#[trigger] self.children@[k]).letter != c,
            decreases self.children@.len() - i,
        {
            if self.children[i].letter == c {
                return Some(i);
            }
            i = i + 1;
        }
        None
    }

    /// Inserts the suffix of the word starting at position `i`, creating
    /// intermediate nodes as needed and marking the terminal node. Exactly
    /// that suffix is added to the spelled words; everything else, including
    /// whether this node itself spells a word, stays as it was.
    fn add(&mut self, word: &String, i: usize, len: usize)
        requires
            old(self).wf(),
            len == word@.len(),
            i < len,
        ensures
            final(self).wf(),
            final(self).is_word == old(self).is_word,
            forall|x: Seq<char>| #[trigger]
                final(self).contains_word(x) <==> (old(self).contains_word(x) || x == word@.skip(
                    i as int,
                )),
        decreases len - i,
    {
        let first_char = word.as_str().get_char(i);
        let ghost target = word@.skip(i as int);
        proof {
            assert(target.len() == len - i);
            assert(target[0] == first_char);
            assert(target.skip(1) =~= word@.skip(i + 1));
        }
        match self.child_index(first_char) {
            Some(j) => {
                let ghost oldself = *self;
                let mut entry = self.children.remove(j);
                let ghost oldchild = entry.node;
                if i + 1 == len {
                    entry.node.is_word = true;
                    proof {
                        assert(oldchild.wf());
                        assert(entry.node.children == oldchild.children);
                        assert(entry.node.wf());
                        assert(target =~= seq![first_char]);
                        assert forall|y: Seq<char>| #[trigger]
                            entry.node.contains_word(y) <==> (oldchild.contains_word(y) || y
                                == target.skip(1)) by {
                            if y.len() == 0 {
                                assert(y =~= target.skip(1));
                            } else {
                                assert(entry.node.children == oldchild.children);
                                assert(y != target.skip(1));
                            }
                        }
                    }
                } else {
                    entry.node.add(word, i + 1, len);
                }
                // From here on: entry.node spells what oldchild spelled,
                // plus the remaining suffix; its letter is unchanged.
                proof {
                    assert(entry.letter == first_char);
                    assert forall|y: Seq<char>| #[trigger]
                        entry.node.contains_word(y) <==> (oldchild.contains_word(y) || y
                            == word@.skip(i + 1)) by {
                        if i + 1 == len {
                            assert(target.skip(1) =~= word@.skip(i + 1));
                        }
                    }
                }
                self.children.insert(j, entry);
                proof {
                    assert(self.children@ =~= oldself.children@.update(j as int, entry));
                    assert(self.is_word == oldself.is_word);
                    lemma_update_child(oldself, *self, j as int, oldchild, word@.skip(i + 1));
                }
            },
            None => {
                let ghost oldself = *self;
                let mut child = TrieNode::new(i + 1 == len);
                let ghost child0 = child;
                if i + 1 < len {
                    child.add(word, i + 1, len);
                }
                proof {
                    assert forall|y: Seq<char>| #[trigger]
                        child.contains_word(y) <==> y == word@.skip(i + 1) by {
                        if i + 1 == len {
                            assert(word@.skip(i + 1).len() == 0);
                            if y.len() == 0 {
                                assert(y =~= word@.skip(i + 1));
                            }
                        } else {
                            assert(child.contains_word(y) <==> (child0.contains_word(y) || y
                                == word@.skip(i + 1)));
                        }
                    }
                }
                let entry = TrieChild { letter: first_char, node: child };
                self.children.push(entry);
                proof {
                    lemma_push_child(oldself, *self, entry, word@.skip(i + 1));
                }
            },
        }
        proof {
            assert forall|x: Seq<char>|
                (x.len() > 0 && x[0] == first_char && x.skip(1) == word@.skip(i + 1)) <==> x
                    == target by {
                if x.len() > 0 && x[0] == first_char && x.skip(1) == word@.skip(i + 1) {
                    assert(x.len() == 1 + x.skip(1).len());
                    assert forall|k: int| 0 <= k < x.len() implies x[k] == target[k] by {
                        if k > 0 {
                            assert(x[k] == x.skip(1)[k - 1]);
                            assert(word@.skip(i + 1)[k - 1] == word@[i + k]);
                        }
                    }
                    assert(x =~= target);
                }
                if x == target {
                    assert(x.skip(1) =~= word@.skip(i + 1));
                }
            }
        }
    }
}

/// Replacing the child at `j` by one with the same letter that spells the
/// old child's words plus `added` makes the node spell its old words plus
/// the letter-prefixed `added`.
proof fn lemma_update_child(
    oldn: TrieNode,
    newn: TrieNode,
    j: int,
    oldchild: TrieNode,
    added: Seq<char>,
)
    requires
        oldn.wf(),
        0 <= j < oldn.children@.len(),
        newn.is_word == oldn.is_word,
        newn.children@ == oldn.children@.update(j, newn.children@[j]),
        oldn.children@[j].node == oldchild,
        newn.children@[j].letter == oldn.children@[j].letter,
        newn.children@[j].node.wf(),
        forall|y: Seq<char>| #[trigger]
            newn.children@[j].node.contains_word(y) <==> (oldchild.contains_word(y) || y == added),
    ensures
        newn.wf(),
        forall|x: Seq<char>| #[trigger]
            newn.contains_word(x) <==> (oldn.contains_word(x) || (x.len() > 0 && x[0]
                == oldn.children@[j].letter && x.skip(1) == added)),
{
    let l = oldn.children@[j].letter;
    assert(newn.children@.len() == oldn.children@.len());
    assert forall|i: int| 0 <= i < newn.children@.len() && i != j implies newn.children@[i]
        == oldn.children@[i] by {}
    assert(newn.wf());
    assert forall|x: Seq<char>| #[trigger]
        newn.contains_word(x) <==> (oldn.contains_word(x) || (x.len() > 0 && x[0] == l && x.skip(1)
            == added)) by {
        if x.len() == 0 {
        } else {
            if newn.contains_word(x) {
                let k = choose|k: int|
                    0 <= k < newn.children@.len() && (#[trigger] newn.children@[k]).letter == x[0]
                        && newn.children@[k].node.contains_word(x.skip(1));
                if k == j {
                    if oldchild.contains_word(x.skip(1)) {
                        assert(oldn.contains_word(x));
                    }
                } else {
                    assert(oldn.children@[k].letter == x[0]);
                    assert(oldn.contains_word(x));
                }
            }
            if oldn.contains_word(x) {
                let k = choose|k: int|
                    0 <= k < oldn.children@.len() && (#[trigger] oldn.children@[k]).letter == x[0]
                        && oldn.children@[k].node.contains_word(x.skip(1));
                if k == j {
                    assert(newn.children@[j].node.contains_word(x.skip(1)));
                    assert(newn.contains_word(x));
                } else {
                    assert(newn.children@[k].letter == x[0]);
                    assert(newn.children@[k].node.contains_word(x.skip(1)));
                    assert(newn.contains_word(x));
                }
            }
            if x.len() > 0 && x[0] == l && x.skip(1) == added {
                assert(newn.children@[j].node.contains_word(x.skip(1)));
                assert(newn.contains_word(x));
            }
        }
    }
}

/// Appending a child with a fresh letter that spells exactly `added` makes
/// the node spell its old words plus the letter-prefixed `added`.
proof fn lemma_push_child(oldn: TrieNode, newn: TrieNode, entry: TrieChild, added: Seq<char>)
    requires
        oldn.wf(),
        newn.is_word == oldn.is_word,
        newn.children@ == oldn.children@.push(entry),
        forall|i: int|
            0 <= i < oldn.children@.len() ==> (#[trigger] oldn.children@[i]).letter
                != entry.letter,
        entry.node.wf(),
        forall|y: Seq<char>| #[trigger] entry.node.contains_word(y) <==> y == added,
    ensures
        newn.wf(),
        forall|x: Seq<char>| #[trigger]
            newn.contains_word(x) <==> (oldn.contains_word(x) || (x.len() > 0 && x[0]
                == entry.letter && x.skip(1) == added)),
{
    let l = entry.letter;
    let n = oldn.children@.len() as int;
    assert forall|i: int, j: int|
        0 <= i < j < newn.children@.len() implies newn.children@[i].letter
        != newn.children@[j].letter by {
        if j < n {
            assert(newn.children@[i] == oldn.children@[i]);
            assert(newn.children@[j] == oldn.children@[j]);
        } else {
            assert(newn.children@[i] == oldn.children@[i]);
            assert(newn.children@[j] == entry);
        }
    }
    assert forall|i: int|
        0 <= i < newn.children@.len() implies (#[trigger] newn.children@[i].node).wf() by {
        if i < n {
            assert(newn.children@[i] == oldn.children@[i]);
        } else {
            assert(newn.children@[i] == entry);
        }
    }
    assert(newn.wf());
    assert forall|x: Seq<char>| #[trigger]
        newn.contains_word(x) <==> (oldn.contains_word(x) || (x.len() > 0 && x[0] == l && x.skip(1)
            == added)) by {
        if x.len() == 0 {
        } else {
            if newn.contains_word(x) {
                let k = choose|k: int|
                    0 <= k < newn.children@.len() && (#[trigger] newn.children@[k]).letter == x[0]
                        && newn.children@[k].node.contains_word(x.skip(1));
                if k < n {
                    assert(newn.children@[k] == oldn.children@[k]);
                    assert(oldn.contains_word(x));
                } else {
                    assert(newn.children@[k] == entry);
                }
            }
            if oldn.contains_word(x) {
                let k = choose|k: int|
                    0 <= k < oldn.children@.len() && (#[trigger] oldn.children@[k]).letter == x[0]
                        && oldn.children@[k].node.contains_word(x.skip(1));
                assert(newn.children@[k] == oldn.children@[k]);
                assert(newn.contains_word(x));
            }
            if x.len() > 0 && x[0] == l && x.skip(1) == added {
                assert(newn.children@[n] == entry);
                assert(newn.children@[n].node.contains_word(x.skip(1)));
                assert(newn.contains_word(x));
            }
        }
    }
}

/// The walk starting at `n` with the given path behind it reports `w`: the
/// word extends the path by a suffix the node spells, the suffix stays
/// within the puzzle's letters, and — unless the walk has already passed
/// the center letter — the suffix contains the center letter.
pub(crate) open spec fn found_word(
    n: TrieNode,
    p: Puzzle,
    seen: bool,
    path: Seq<char>,
    w: Seq<char>,
) -> bool {
    exists|s: Seq<char>|
        w == path + s && #[trigger] n.contains_word(s) && all_allowed(p, s) && (seen || s.contains(
            p.center_letter,
        ))
}

/// As `found_word`, but the suffix may only begin with one of the given
/// letters: the edges out of `n` that the walk has explored so far.
pub(crate) open spec fn found_via(
    n: TrieNode,
    p: Puzzle,
    seen: bool,
    path: Seq<char>,
    letters: Set<char>,
    w: Seq<char>,
) -> bool {
    exists|s: Seq<char>|
        w == path + s && #[trigger] n.contains_word(s) && all_allowed(p, s) && (seen || s.contains(
            p.center_letter,
        )) && (s.len() > 0 ==> letters.contains(s[0]))
}

/// The letters whose edges the walk has explored after the center letter
/// and the first `t` outer letters.
pub(crate) open spec fn visited_letters(p: Puzzle, t: int) -> Set<char> {
    Set::new(
        |c: char|
            c == p.center_letter || exists|k: int|
                0 <= k < t && #[trigger] p.outer_letters@[k] == c,
    )
}

/// Splitting one step off a nonempty suffix moves its first character onto
/// the path.
proof fn lemma_path_step(path: Seq<char>, s: Seq<char>)
    requires
        s.len() > 0,
    ensures
        path + s == path.push(s[0]) + s.skip(1),
{
    assert(path + s =~= path.push(s[0]) + s.skip(1));
}

/// With no edge explored, the only reportable word is the path itself, at
/// a word-marked node, when the center letter has already been passed.
proof fn lemma_via_none(n: TrieNode, p: Puzzle, seen: bool, path: Seq<char>, w: Seq<char>)
    ensures
        found_via(n, p, seen, path, Set::<char>::empty(), w) <==> (w == path && n.is_word && seen),
{
    if found_via(n, p, seen, path, Set::<char>::empty(), w) {
        let s = choose|s: Seq<char>|
            w == path + s && #[trigger] n.contains_word(s) && all_allowed(p, s) && (seen
                || s.contains(p.center_letter)) && (s.len() > 0 ==> Set::<char>::empty().contains(
                s[0],
            ));
        assert(s.len() == 0);
        assert(w =~= path);
        assert(!s.contains(p.center_letter));
    }
    if w == path && n.is_word && seen {
        let s = Seq::<char>::empty();
        assert(w =~= path + s);
        assert(n.contains_word(s));
    }
}

/// Exploring a letter that labels no edge of this node reports nothing new.
proof fn lemma_via_absent(
    n: TrieNode,
    p: Puzzle,
    seen: bool,
    path: Seq<char>,
    letters: Set<char>,
    l: char,
    w: Seq<char>,
)
    requires
        forall|i: int| 0 <= i < n.children@.len() ==> (#[trigger] n.children@[i]).letter != l,
    ensures
        found_via(n, p, seen, path, letters.insert(l), w) <==> found_via(
            n,
            p,
            seen,
            path,
            letters,
            w,
        ),
{
    if found_via(n, p, seen, path, letters.insert(l), w) {
        let s = choose|s: Seq<char>|
            w == path + s && #[trigger] n.contains_word(s) && all_allowed(p, s) && (seen
                || s.contains(p.center_letter)) && (s.len() > 0 ==> letters.insert(l).contains(
                s[0],
            ));
        if s.len() > 0 {
            assert(s[0] != l);
            assert(letters.contains(s[0]));
        }
    }
}

/// Exploring the edge at `j`: the words reported through that child, with
/// the center flag updated for its letter, are exactly the words whose
/// suffix begins with that letter.
proof fn lemma_via_child(
    n: TrieNode,
    p: Puzzle,
    seen: bool,
    path: Seq<char>,
    letters: Set<char>,
    j: int,
    w: Seq<char>,
)
    requires
        n.wf(),
        0 <= j < n.children@.len(),
        p.allows(n.children@[j].letter),
    ensures
        found_via(n, p, seen, path, letters.insert(n.children@[j].letter), w) <==> (found_via(
            n,
            p,
            seen,
            path,
            letters,
            w,
        ) || found_word(
            n.children@[j].node,
            p,
            seen || n.children@[j].letter == p.center_letter,
            path.push(n.children@[j].letter),
            w,
        )),
{
    let l = n.children@[j].letter;
    let child = n.children@[j].node;
    let seen2 = seen || l == p.center_letter;
    if found_via(n, p, seen, path, letters.insert(l), w) {
        let s = choose|s: Seq<char>|
            w == path + s && #[trigger] n.contains_word(s) && all_allowed(p, s) && (seen
                || s.contains(p.center_letter)) && (s.len() > 0 ==> letters.insert(l).contains(
                s[0],
            ));
        if s.len() == 0 || letters.contains(s[0]) {
            assert(found_via(n, p, seen, path, letters, w));
        } else {
            assert(s[0] == l);
            let k = choose|k: int|
                0 <= k < n.children@.len() && (#[trigger] n.children@[k]).letter == s[0]
                    && n.children@[k].node.contains_word(s.skip(1));
            assert(k == j);
            let s1 = s.skip(1);
            lemma_path_step(path, s);
            assert(w == path.push(l) + s1);
            assert(all_allowed(p, s1)) by {
                assert forall|m: int| 0 <= m < s1.len() implies p.allows(#[trigger] s1[m]) by {
                    assert(s1[m] == s[m + 1]);
                }
            }
            assert(seen2 || s1.contains(p.center_letter)) by {
                if !seen && s.contains(p.center_letter) {
                    let m = choose|m: int| 0 <= m < s.len() && #[trigger] s[m] == p.center_letter;
                    if m == 0 {
                        assert(l == p.center_letter);
                    } else {
                        assert(s1[m - 1] == p.center_letter);
                        assert(s1.contains(p.center_letter));
                    }
                }
            }
            assert(child.contains_word(s1));
            assert(found_word(child, p, seen2, path.push(l), w));
        }
    }
    if found_via(n, p, seen, path, letters, w) {
        let s = choose|s: Seq<char>|
            w == path + s && #[trigger] n.contains_word(s) && all_allowed(p, s) && (seen
                || s.contains(p.center_letter)) && (s.len() > 0 ==> letters.contains(s[0]));
        assert(found_via(n, p, seen, path, letters.insert(l), w));
    }
    if found_word(child, p, seen2, path.push(l), w) {
        let s1 = choose|s1: Seq<char>|
            w == path.push(l) + s1 && #[trigger] child.contains_word(s1) && all_allowed(p, s1) && (
            seen2 || s1.contains(p.center_letter));
        let s = seq![l] + s1;
        assert(s.len() > 0 && s[0] == l);
        assert(s.skip(1) =~= s1);
        lemma_path_step(path, s);
        assert(w == path + s);
        assert(n.contains_word(s)) by {
            assert(n.children@[j].letter == s[0] && n.children@[j].node.contains_word(s.skip(1)));
        }
        assert(all_allowed(p, s)) by {
            assert forall|m: int| 0 <= m < s.len() implies p.allows(#[trigger] s[m]) by {
                if m > 0 {
                    assert(s[m] == s1[m - 1]);
                }
            }
        }
        assert(seen || s.contains(p.center_letter)) by {
            if !seen {
                if l == p.center_letter {
                    assert(s[0] == p.center_letter);
                    assert(s.contains(p.center_letter));
                } else {
                    let m = choose|m: int|
                        0 <= m < s1.len() && #[trigger] s1[m] == p.center_letter;
                    assert(s[m + 1] == p.center_letter);
                    assert(s.contains(p.center_letter));
                }
            }
        }
        assert(letters.insert(l).contains(s[0]));
        assert(found_via(n, p, seen, path, letters.insert(l), w));
    }
}

/// Exploring the center letter's edge again, after it has already been
/// explored, reports nothing new — even if the walk does not raise the
/// center flag for it.
proof fn lemma_via_center_again(
    n: TrieNode,
    p: Puzzle,
    seen: bool,
    path: Seq<char>,
    letters: Set<char>,
    j: int,
    w: Seq<char>,
)
    requires
        n.wf(),
        0 <= j < n.children@.len(),
        n.children@[j].letter == p.center_letter,
        letters.contains(p.center_letter),
    ensures
        found_via(n, p, seen, path, letters.insert(n.children@[j].letter), w) <==> (found_via(
            n,
            p,
            seen,
            path,
            letters,
            w,
        ) || found_word(n.children@[j].node, p, seen, path.push(n.children@[j].letter), w)),
{
    let l = n.children@[j].letter;
    let child = n.children@[j].node;
    assert(letters.insert(l) =~= letters);
    if found_word(child, p, seen, path.push(l), w) {
        let s1 = choose|s1: Seq<char>|
            w == path.push(l) + s1 && #[trigger] child.contains_word(s1) && all_allowed(p, s1) && (
            seen || s1.contains(p.center_letter));
        let s = seq![l] + s1;
        assert(s.len() > 0 && s[0] == l);
        assert(s.skip(1) =~= s1);
        lemma_path_step(path, s);
        assert(w == path + s);
        assert(n.contains_word(s)) by {
            assert(n.children@[j].letter == s[0] && n.children@[j].node.contains_word(s.skip(1)));
        }
        assert(all_allowed(p, s)) by {
            assert forall|m: int| 0 <= m < s.len() implies p.allows(#[trigger] s[m]) by {
                if m > 0 {
                    assert(s[m] == s1[m - 1]);
                }
            }
        }
        assert(s.contains(p.center_letter)) by {
            assert(s[0] == p.center_letter);
        }
        assert(letters.contains(s[0]));
        assert(found_via(n, p, seen, path, letters, w));
    }
}

/// Once every one of the puzzle's letters has been explored, the
/// first-letter restriction restricts nothing.
proof fn lemma_via_full(n: TrieNode, p: Puzzle, seen: bool, path: Seq<char>, w: Seq<char>)
    ensures
        found_via(n, p, seen, path, visited_letters(p, 6), w) <==> found_word(n, p, seen, path, w),
{
    if found_word(n, p, seen, path, w) {
        let s = choose|s: Seq<char>|
            w == path + s && #[trigger] n.contains_word(s) && all_allowed(p, s) && (seen
                || s.contains(p.center_letter));
        if s.len() > 0 {
            assert(p.allows(s[0]));
            if p.outer_letters@.contains(s[0]) {
                let k = choose|k: int|
                    0 <= k < p.outer_letters@.len() && #[trigger] p.outer_letters@[k] == s[0];
                assert(visited_letters(p, 6).contains(s[0]));
            }
            assert(visited_letters(p, 6).contains(s[0]));
        }
        assert(found_via(n, p, seen, path, visited_letters(p, 6), w));
    }
}

impl TrieNode {
    /// The constrained depth-first walk: reports the path itself when this
    /// node spells a word and the center letter has been passed, then
    /// explores the center letter's edge with the flag raised, then each
    /// outer letter's edge. The path buffer is restored before returning.
    #[verifier::loop_isolation(false)]
    fn find_words(&self, puzzle: &Puzzle, center_letter_seen: bool, path: &mut String) -> (found:
        Vec<String>)
        requires
            self.wf(),
        ensures
            final(path)@ == old(path)@,
            forall|w: Seq<char>| #[trigger]
                views_of(found@).contains(w) <==> found_word(
                    *self,
                    *puzzle,
                    center_letter_seen,
                    old(path)@,
                    w,
                ),
            puzzle.distinct_letters() ==> views_of(found@).no_duplicates(),
        decreases *self,
    {
        let ghost path0 = path@;
        let ghost p = *puzzle;
        let mut found: Vec<String> = Vec::new();
        if center_letter_seen && self.is_word {
            found.push(path.clone());
        }
        proof {
            assert forall|w: Seq<char>| #[trigger]
                views_of(found@).contains(w) <==> found_via(
                    *self,
                    p,
                    center_letter_seen,
                    path0,
                    Set::<char>::empty(),
                    w,
                ) by {
                lemma_via_none(*self, p, center_letter_seen, path0, w);
                if views_of(found@).contains(w) {
                    let i = choose|i: int|
                        0 <= i < views_of(found@).len() && #[trigger] views_of(found@)[i] == w;
                    assert(w == path0);
                }
                if center_letter_seen && self.is_word {
                    assert(views_of(found@)[0] == path0);
                }
            }
        }
        if let Some(j) = self.child_index(puzzle.center_letter) {
            proof {
                assert((#[trigger] self.children@[j as int].node).wf());
            }
            let ghost prev = found@;
            push_char(path, puzzle.center_letter);
            let mut sub = self.children[j].node.find_words(puzzle, true, path);
            let ghost subv = sub@;
            found.append(&mut sub);
            pop_char(path);
            proof {
                assert(path@ =~= path0);
                assert(found@ == prev + subv);
                crate::words::lemma_views_add(prev, subv);
                assert forall|w: Seq<char>| #[trigger]
                    views_of(found@).contains(w) <==> found_via(
                        *self,
                        p,
                        center_letter_seen,
                        path0,
                        Set::<char>::empty().insert(p.center_letter),
                        w,
                    ) by {
                    crate::words::lemma_contains_add(views_of(prev), views_of(subv), w);
                    lemma_via_child(
                        *self,
                        p,
                        center_letter_seen,
                        path0,
                        Set::<char>::empty(),
                        j as int,
                        w,
                    );
                }
                if p.distinct_letters() {
                    let a = views_of(prev);
                    let b = views_of(subv);
                    assert forall|ii: int, jj: int|
                        0 <= ii < a.len() && 0 <= jj < b.len() implies a[ii] != b[jj] by {
                        assert(a.contains(a[ii]));
                        assert(b.contains(b[jj]));
                        let s = choose|s: Seq<char>|
                            a[ii] == path0 + s && #[trigger] (*self).contains_word(s)
                                && all_allowed(p, s) && (center_letter_seen || s.contains(
                                p.center_letter,
                            )) && (s.len() > 0 ==> Set::<char>::empty().contains(s[0]));
                        assert(s.len() == 0);
                        assert(a[ii] =~= path0);
                        let s2 = choose|s2: Seq<char>|
                            b[jj] == path0.push(p.center_letter) + s2
                                && #[trigger] self.children@[j as int].node.contains_word(s2)
                                && all_allowed(p, s2) && (true || s2.contains(p.center_letter));
                        assert(b[jj].len() > path0.len());
                    }
                    vstd::seq_lib::lemma_no_dup_in_concat(a, b);
                    assert(views_of(found@).no_duplicates());
                }
            }
        } else {
            proof {
                assert forall|w: Seq<char>| #[trigger]
                    views_of(found@).contains(w) <==> found_via(
                        *self,
                        p,
                        center_letter_seen,
                        path0,
                        Set::<char>::empty().insert(p.center_letter),
                        w,
                    ) by {
                    lemma_via_absent(
                        *self,
                        p,
                        center_letter_seen,
                        path0,
                        Set::<char>::empty(),
                        p.center_letter,
                        w,
                    );
                }
            }
        }
        proof {
            assert(visited_letters(p, 0) =~= Set::<char>::empty().insert(p.center_letter));
        }
        let mut t: usize = 0;
        while t < 6
            invariant
                t <= 6,
                path@ == path0,
                forall|w: Seq<char>| #[trigger]
                    views_of(found@).contains(w) <==> found_via(
                        *self,
                        p,
                        center_letter_seen,
                        path0,
                        visited_letters(p, t as int),
                        w,
                    ),
                p.distinct_letters() ==> views_of(found@).no_duplicates(),
            decreases 6 - t,
        {
            let letter = puzzle.outer_letters[t];
            if let Some(j) = self.child_index(letter) {
                proof {
                    assert((#[trigger] self.children@[j as int].node).wf());
                }
                let ghost prev = found@;
                push_char(path, letter);
                let mut sub = self.children[j].node.find_words(puzzle, center_letter_seen, path);
                let ghost subv = sub@;
                found.append(&mut sub);
                pop_char(path);
                proof {
                    assert(path@ =~= path0);
                    assert(found@ == prev + subv);
                    crate::words::lemma_views_add(prev, subv);
                    lemma_visited_step(p, t as int);
                    assert forall|w: Seq<char>| #[trigger]
                        views_of(found@).contains(w) <==> found_via(
                            *self,
                            p,
                            center_letter_seen,
                            path0,
                            visited_letters(p, t + 1),
                            w,
                        ) by {
                        crate::words::lemma_contains_add(views_of(prev), views_of(subv), w);
                        if letter == p.center_letter {
                            lemma_via_center_again(
                                *self,
                                p,
                                center_letter_seen,
                                path0,
                                visited_letters(p, t as int),
                                j as int,
                                w,
                            );
                        } else {
                            lemma_via_child(
                                *self,
                                p,
                                center_letter_seen,
                                path0,
                                visited_letters(p, t as int),
                                j as int,
                                w,
                            );
                        }
                    }
                    if p.distinct_letters() {
                        assert(!visited_letters(p, t as int).contains(letter)) by {
                            assert(p.outer_letters@[t as int] == letter);
                            if letter == p.center_letter {
                                assert(p.outer_letters@.contains(p.center_letter));
                            }
                            if exists|k: int|
                                0 <= k < t && #[trigger] p.outer_letters@[k] == letter {
                                let k = choose|k: int|
                                    0 <= k < t && #[trigger] p.outer_letters@[k] == letter;
                                assert(p.outer_letters@[k] == p.outer_letters@[t as int]);
                                assert(false);
                            }
                        }
                        let a = views_of(prev);
                        let b = views_of(subv);
                        assert forall|ii: int, jj: int|
                            0 <= ii < a.len() && 0 <= jj < b.len() implies a[ii] != b[jj] by {
                            assert(a.contains(a[ii]));
                            assert(b.contains(b[jj]));
                            let s = choose|s: Seq<char>|
                                a[ii] == path0 + s && #[trigger] (*self).contains_word(s)
                                    && all_allowed(p, s) && (center_letter_seen || s.contains(
                                    p.center_letter,
                                )) && (s.len() > 0 ==> visited_letters(p, t as int).contains(
                                    s[0],
                                ));
                            let s2 = choose|s2: Seq<char>|
                                b[jj] == path0.push(letter) + s2
                                    && #[trigger] self.children@[j as int].node.contains_word(s2)
                                    && all_allowed(p, s2) && (center_letter_seen || s2.contains(
                                    p.center_letter,
                                ));
                            assert(b[jj].len() > path0.len());
                            assert(b[jj][path0.len() as int] == letter);
                            if s.len() == 0 {
                                assert(a[ii] =~= path0);
                            } else {
                                assert(a[ii][path0.len() as int] == s[0]);
                                assert(s[0] != letter);
                            }
                        }
                        vstd::seq_lib::lemma_no_dup_in_concat(a, b);
                        assert(views_of(found@).no_duplicates());
                    }
                }
            } else {
                proof {
                    lemma_visited_step(p, t as int);
                    assert forall|w: Seq<char>| #[trigger]
                        views_of(found@).contains(w) <==> found_via(
                            *self,
                            p,
                            center_letter_seen,
                            path0,
                            visited_letters(p, t + 1),
                            w,
                        ) by {
                        lemma_via_absent(
                            *self,
                            p,
                            center_letter_seen,
                            path0,
                            visited_letters(p, t as int),
                            letter,
                            w,
                        );
                    }
                }
            }
            t = t + 1;
        }
        proof {
            assert forall|w: Seq<char>| #[trigger]
                views_of(found@).contains(w) <==> found_word(
                    *self,
                    p,
                    center_letter_seen,
                    path0,
                    w,
                ) by {
                lemma_via_full(*self, p, center_letter_seen, path0, w);
            }
        }
        found
    }
}

/// Builds a radix trie over the retained dictionary once, and solves each
/// puzzle by the constrained depth-first walk.
pub struct TrieSolver {
    dictionary: TrieNode,
}

impl TrieSolver {
    /// Inserts every word of at least `MIN_LENGTH` characters into a trie
    /// rooted at a synthetic empty-string node.
    pub fn new(word_list: Vec<String>) -> (solver: TrieSolver)
        ensures
            solver.wf(),
            solver.word_set() == retained(views_of(word_list@)).to_set(),
    {
        let mut root = TrieNode::new(false);
        let mut i: usize = 0;
        while i < word_list.len()
            invariant
                i <= word_list@.len(),
                root.wf(),
                forall|w: Seq<char>| #[trigger]
                    root.contains_word(w) <==> retained(views_of(word_list@.take(i as int))).contains(
                        w,
                    ),
            decreases word_list@.len() - i,
        {
            let word = &word_list[i];
            let ghost prefix = retained(views_of(word_list@.take(i as int)));
            proof {
                assert(word_list@.take(i + 1).drop_last() =~= word_list@.take(i as int));
                crate::words::lemma_views_push(word_list@.take(i as int), *word);
                assert(views_of(word_list@.take(i + 1)) =~= views_of(
                    word_list@.take(i as int),
                ).push(word@));
                lemma_filter_push(
                    views_of(word_list@.take(i as int)),
                    |w: Seq<char>| long_enough(w),
                    word@,
                );
            }
            let len = word.as_str().unicode_len();
            if len >= MIN_LENGTH {
                root.add(word, 0, len);
                proof {
                    assert(word@.skip(0) =~= word@);
                    assert(retained(views_of(word_list@.take(i + 1))) == prefix.push(word@));
                    assert(prefix.push(word@) =~= prefix + seq![word@]);
                    assert forall|w: Seq<char>|
                        prefix.push(word@).contains(w) <==> (prefix.contains(w) || w
                            == word@) by {
                        crate::words::lemma_contains_add(prefix, seq![word@], w);
                        if seq![word@].contains(w) {
                            assert(seq![word@][0] == word@);
                        }
                        if w == word@ {
                            assert(seq![word@][0] == w);
                            assert(seq![word@].contains(w));
                        }
                    }
                }
            }
            i = i + 1;
        }
        proof {
            assert(word_list@.take(word_list@.len() as int) =~= word_list@);
        }
        let solver = TrieSolver { dictionary: root };
        proof {
            broadcast use vstd::seq_lib::group_to_multiset_ensures;

            assert forall|w: Seq<char>|
                solver.word_set().contains(w) == retained(views_of(word_list@)).to_set().contains(
                    w,
                ) by {}
            assert(solver.word_set() =~= retained(views_of(word_list@)).to_set());
        }
        solver
    }
}

impl Solver for TrieSolver {
    /// The set of words the trie spells.
    closed spec fn word_set(&self) -> Set<Seq<char>> {
        Set::new(|w: Seq<char>| self.dictionary.contains_word(w))
    }

    /// The trie's edges carry distinct letters at every node.
    closed spec fn wf(&self) -> bool {
        self.dictionary.wf()
    }

    /// Walks the trie from the root with an empty path and the center flag
    /// down.
    fn solve(&self, puzzle: &Puzzle) -> (result: Vec<String>)
        ensures
            views_of(result@).to_set() == self.word_set().filter(
                |w: Seq<char>| word_matches(*puzzle, w),
            ),
            puzzle.distinct_letters() ==> views_of(result@).no_duplicates(),
    {
        let mut path = String::new();
        let found = self.dictionary.find_words(puzzle, false, &mut path);
        proof {
            assert forall|w: Seq<char>|
                views_of(found@).to_set().contains(w) == self.word_set().filter(
                    |w: Seq<char>| word_matches(*puzzle, w),
                ).contains(w) by {
                if views_of(found@).contains(w) {
                    let s = choose|s: Seq<char>|
                        w == Seq::<char>::empty() + s
                            && #[trigger] self.dictionary.contains_word(s) && all_allowed(
                            *puzzle,
                            s,
                        ) && s.contains(puzzle.center_letter);
                    assert(w =~= s);
                }
                if self.dictionary.contains_word(w) && word_matches(*puzzle, w) {
                    assert(w =~= Seq::<char>::empty() + w);
                    assert(found_word(self.dictionary, *puzzle, false, Seq::<char>::empty(), w));
                    assert(views_of(found@).contains(w));
                }
            }
            assert(views_of(found@).to_set() =~= self.word_set().filter(
                |w: Seq<char>| word_matches(*puzzle, w),
            ));
        }
        found
    }
}

/// One more outer letter explored: the visited set grows by exactly that
/// letter.
proof fn lemma_visited_step(p: Puzzle, t: int)
    requires
        0 <= t < 6,
    ensures
        visited_letters(p, t + 1) =~= visited_letters(p, t).insert(p.outer_letters@[t]),
{
    assert forall|c: char|
        visited_letters(p, t + 1).contains(c) == visited_letters(p, t).insert(
            p.outer_letters@[t],
        ).contains(c) by {
        if visited_letters(p, t + 1).contains(c) && c != p.center_letter {
            let k = choose|k: int| 0 <= k < t + 1 && #[trigger] p.outer_letters@[k] == c;
            if k < t {
                assert(visited_letters(p, t).contains(c));
            }
        }
        if visited_letters(p, t).contains(c) && c != p.center_letter {
            let k = choose|k: int| 0 <= k < t && #[trigger] p.outer_letters@[k] == c;
            assert(visited_letters(p, t + 1).contains(c));
        }
        if c == p.outer_letters@[t] {
            assert(visited_letters(p, t + 1).contains(c));
        }
    }
}

} // verus!
