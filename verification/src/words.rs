//! The dictionary model: words as sequences of characters, the minimum-length
//! rule, and the predicate saying when a word answers a puzzle.

use vstd::multiset::Multiset;
use vstd::prelude::*;

use crate::puzzle::Puzzle;

verus! {

/// Minimum number of characters a word must have to count as a puzzle answer.
pub const MIN_LENGTH: usize = 4;

/// The sequence of character sequences denoted by a sequence of strings.
pub open spec fn views_of(words: Seq<String>) -> Seq<Seq<char>> {
    words.map_values(|w: String| w@)
}

/// A word long enough to be a candidate answer.
pub open spec fn long_enough(w: Seq<char>) -> bool {
    w.len() >= MIN_LENGTH
}

/// Every character of the word is one the puzzle allows.
pub open spec fn all_allowed(p: Puzzle, w: Seq<char>) -> bool {
    forall|i: int| 0 <= i < w.len() ==> p.allows(#[trigger] w[i])
}

/// A word answers a puzzle when every character is one of the puzzle's
/// letters and the center letter occurs at least once.
pub open spec fn word_matches(p: Puzzle, w: Seq<char>) -> bool {
    all_allowed(p, w) && w.contains(p.center_letter)
}

/// The words of a dictionary that survive the minimum-length rule, in order.
pub open spec fn retained(dictionary: Seq<Seq<char>>) -> Seq<Seq<char>> {
    dictionary.filter(|w: Seq<char>| long_enough(w))
}

/// Keep the words of at least `MIN_LENGTH` characters, in order, as every
/// solver does when it is built.
pub(crate) fn filter_min_length(word_list: &Vec<String>) -> (kept: Vec<String>)
    ensures
        views_of(kept@) == retained(views_of(word_list@)),
{
    let mut kept: Vec<String> = Vec::new();
    let mut i: usize = 0;
    while i < word_list.len()
        invariant
            i <= word_list@.len(),
            views_of(kept@) == views_of(word_list@.take(i as int)).filter(
                |w: Seq<char>| long_enough(w),
            ),
        decreases word_list@.len() - i,
    {
        let word = &word_list[i];
        proof {
            assert(word_list@.take(i + 1).drop_last() =~= word_list@.take(i as int));
            lemma_views_push(word_list@.take(i as int), *word);
            assert(views_of(word_list@.take(i + 1)) =~= views_of(word_list@.take(i as int)).push(
                word@,
            ));
            lemma_filter_push(
                views_of(word_list@.take(i as int)),
                |w: Seq<char>| long_enough(w),
                word@,
            );
        }
        let ghost prev = kept@;
        if word.as_str().unicode_len() >= MIN_LENGTH {
            kept.push(word.clone());
            proof {
                lemma_views_push(prev, *word);
            }
        }
        i = i + 1;
    }
    proof {
        assert(word_list@.take(word_list@.len() as int) =~= word_list@);
    }
    kept
}

/// Mapping a pushed string is the push of the mapped sequence.
pub proof fn lemma_views_push(words: Seq<String>, w: String)
    ensures
        views_of(words.push(w)) =~= views_of(words).push(w@),
{
}

/// How `filter` acts on a sequence extended by one element.
pub proof fn lemma_filter_push<A>(s: Seq<A>, pred: spec_fn(A) -> bool, x: A)
    ensures
        s.push(x).filter(pred) == if pred(x) {
            s.filter(pred).push(x)
        } else {
            s.filter(pred)
        },
{
    reveal(Seq::filter);
    assert(s.push(x).drop_last() =~= s);
}

/// An element of a filtered sequence is an element of the original.
proof fn lemma_filter_subset_contains<A>(s: Seq<A>, pred: spec_fn(A) -> bool, x: A)
    requires
        s.filter(pred).contains(x),
    ensures
        s.contains(x),
    decreases s.len(),
{
    reveal(Seq::filter);
    if s.len() > 0 {
        let fd = s.drop_last().filter(pred);
        if pred(s.last()) && x == s.last() {
            assert(s[s.len() - 1] == x);
        } else {
            if pred(s.last()) {
                let j = choose|j: int|
                    0 <= j < fd.push(s.last()).len() && #[trigger] fd.push(s.last())[j] == x;
                assert(fd[j] == x);
            }
            lemma_filter_subset_contains(s.drop_last(), pred, x);
            let k = choose|k: int| 0 <= k < s.drop_last().len() && #[trigger] s.drop_last()[k] == x;
            assert(s[k] == x);
        }
    }
}

/// A filtered sequence holds exactly the elements of the original that
/// satisfy the predicate.
pub proof fn lemma_filter_membership<A>(s: Seq<A>, pred: spec_fn(A) -> bool, x: A)
    ensures
        s.filter(pred).contains(x) <==> s.contains(x) && pred(x),
{
    if s.filter(pred).contains(x) {
        let i = choose|i: int| 0 <= i < s.filter(pred).len() && #[trigger] s.filter(pred)[i] == x;
        s.lemma_filter_pred(pred, i);
        lemma_filter_subset_contains(s, pred, x);
    }
    if s.contains(x) && pred(x) {
        let i = choose|i: int| 0 <= i < s.len() && #[trigger] s[i] == x;
        s.lemma_filter_contains(pred, i);
    }
}

/// Filtering commutes with turning a sequence into a set.
pub proof fn lemma_filter_to_set<A>(s: Seq<A>, pred: spec_fn(A) -> bool)
    ensures
        s.filter(pred).to_set() == s.to_set().filter(pred),
{
    assert forall|x: A| s.filter(pred).to_set().contains(x) implies s.to_set().filter(
        pred,
    ).contains(x) by {
        lemma_filter_membership(s, pred, x);
    }
    assert forall|x: A| s.to_set().filter(pred).contains(x) implies s.filter(
        pred,
    ).to_set().contains(x) by {
        lemma_filter_membership(s, pred, x);
    }
    assert(s.filter(pred).to_set() =~= s.to_set().filter(pred));
}

/// A sequence with no satisfying element filters to the empty sequence.
pub proof fn lemma_filter_empty<A>(s: Seq<A>, pred: spec_fn(A) -> bool)
    requires
        forall|i: int| 0 <= i < s.len() ==> !pred(#[trigger] s[i]),
    ensures
        s.filter(pred) == Seq::<A>::empty(),
    decreases s.len(),
{
    reveal(Seq::filter);
    if s.len() > 0 {
        lemma_filter_empty(s.drop_last(), pred);
        assert(!pred(s[s.len() - 1]));
    }
}

/// An element of a concatenation is an element of one of the parts.
pub proof fn lemma_contains_add<A>(a: Seq<A>, b: Seq<A>, x: A)
    ensures
        (a + b).contains(x) <==> a.contains(x) || b.contains(x),
{
    if (a + b).contains(x) {
        let i = choose|i: int| 0 <= i < (a + b).len() && #[trigger] (a + b)[i] == x;
        if i < a.len() {
            assert(a[i] == x);
        } else {
            assert(b[i - a.len()] == x);
        }
    }
    if a.contains(x) {
        let i = choose|i: int| 0 <= i < a.len() && #[trigger] a[i] == x;
        assert((a + b)[i] == x);
    }
    if b.contains(x) {
        let i = choose|i: int| 0 <= i < b.len() && #[trigger] b[i] == x;
        assert((a + b)[a.len() + i] == x);
    }
}

/// Mapping a concatenation is the concatenation of the mapped sequences.
pub proof fn lemma_views_add(a: Seq<String>, b: Seq<String>)
    ensures
        views_of(a + b) =~= views_of(a) + views_of(b),
{
}

/// How many times an element appears after a filter: as often as before
/// when it satisfies the predicate, never otherwise.
pub proof fn lemma_filter_multiset_count<A>(s: Seq<A>, pred: spec_fn(A) -> bool, x: A)
    ensures
        s.filter(pred).to_multiset().count(x) == if pred(x) {
            s.to_multiset().count(x)
        } else {
            0
        },
    decreases s.len(),
{
    broadcast use vstd::seq_lib::group_to_multiset_ensures;

    reveal(Seq::filter);
    if s.len() == 0 {
        assert(s.to_multiset() =~= Multiset::<A>::empty());
        assert(s.filter(pred).to_multiset() =~= Multiset::<A>::empty());
    } else {
        lemma_filter_multiset_count(s.drop_last(), pred, x);
        assert(s =~= s.drop_last().push(s.last()));
        assert(s.to_multiset() =~= s.drop_last().to_multiset().insert(s.last()));
        if pred(s.last()) {
            assert(s.filter(pred) == s.drop_last().filter(pred).push(s.last()));
            assert(s.filter(pred).to_multiset() =~= s.drop_last().filter(
                pred,
            ).to_multiset().insert(s.last()));
        }
    }
}

/// Sequences holding the same elements the same number of times filter to
/// sequences that do so as well.
pub proof fn lemma_filter_multiset_eq<A>(s1: Seq<A>, s2: Seq<A>, pred: spec_fn(A) -> bool)
    requires
        s1.to_multiset() == s2.to_multiset(),
    ensures
        s1.filter(pred).to_multiset() == s2.filter(pred).to_multiset(),
{
    assert forall|x: A|
        s1.filter(pred).to_multiset().count(x) == s2.filter(pred).to_multiset().count(x) by {
        lemma_filter_multiset_count(s1, pred, x);
        lemma_filter_multiset_count(s2, pred, x);
    }
    assert(s1.filter(pred).to_multiset() =~= s2.filter(pred).to_multiset());
}

/// Sequences holding the same elements the same number of times hold the
/// same set of elements.
pub proof fn lemma_multiset_eq_to_set<A>(s1: Seq<A>, s2: Seq<A>)
    requires
        s1.to_multiset() == s2.to_multiset(),
    ensures
        s1.to_set() == s2.to_set(),
{
    broadcast use vstd::seq_lib::group_to_multiset_ensures;

    assert forall|x: A| s1.to_set().contains(x) == s2.to_set().contains(x) by {
        assert(s1.contains(x) <==> s1.to_multiset().count(x) > 0);
        assert(s2.contains(x) <==> s2.to_multiset().count(x) > 0);
    }
    assert(s1.to_set() =~= s2.to_set());
}

/// A permutation of a sequence of strings denotes a permutation of the
/// corresponding character sequences.
pub proof fn lemma_views_multiset(s1: Seq<String>, s2: Seq<String>)
    requires
        s1.to_multiset() == s2.to_multiset(),
    ensures
        views_of(s1).to_multiset() == views_of(s2).to_multiset(),
    decreases s1.len(),
{
    broadcast use vstd::seq_lib::group_to_multiset_ensures;

    if s1.len() == 0 {
        assert(s2.to_multiset().len() == 0);
        assert(s2.len() == 0);
        assert(views_of(s1) =~= views_of(s2));
    } else {
        let x = s1.last();
        assert(s1.to_multiset().count(x) > 0) by {
            assert(s1.contains(x));
        }
        assert(s2.contains(x));
        let j = choose|j: int| 0 <= j < s2.len() && s2[j] == x;
        assert(s1.drop_last().to_multiset() =~= s1.to_multiset().remove(x)) by {
            assert(s1 =~= s1.drop_last().push(x));
            assert(s1.to_multiset() =~= s1.drop_last().to_multiset().insert(x));
        }
        assert(s2.remove(j).to_multiset() =~= s2.to_multiset().remove(x));
        lemma_views_multiset(s1.drop_last(), s2.remove(j));
        assert(views_of(s1.drop_last()) =~= views_of(s1).drop_last());
        assert(views_of(s2.remove(j)) =~= views_of(s2).remove(j));
        assert(views_of(s1) =~= views_of(s1).drop_last().push(x@));
        assert(views_of(s1).to_multiset() =~= views_of(s1).drop_last().to_multiset().insert(x@));
        assert(views_of(s2).remove(j).to_multiset() =~= views_of(s2).to_multiset().remove(
            views_of(s2)[j],
        ));
        assert(views_of(s2)[j] == x@);
        assert forall|w: Seq<char>|
            views_of(s1).to_multiset().count(w) == views_of(s2).to_multiset().count(w) by {
            if w == x@ {
            } else {
            }
        }
        assert(views_of(s1).to_multiset() =~= views_of(s2).to_multiset());
    }
}

/// Two pointwise-equal predicates filter a sequence identically.
pub proof fn lemma_filter_congruence<A>(s: Seq<A>, p: spec_fn(A) -> bool, q: spec_fn(A) -> bool)
    requires
        forall|i: int| 0 <= i < s.len() ==> p(s[i]) == q(s[i]),
    ensures
        s.filter(p) == s.filter(q),
    decreases s.len(),
{
    reveal(Seq::filter);
    if s.len() > 0 {
        lemma_filter_congruence(s.drop_last(), p, q);
    }
}

} // verus!
