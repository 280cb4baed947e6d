use vstd::prelude::*;

use crate::key::OrderedKey;
use crate::tree::after_insert;

verus! {

/// The entries of a tree built by `BTree::new` followed by inserting the pairs of `s` in
/// order, as the contracts of `new` and `insert` give them.
pub open spec fn inserted<K, V>(s: Seq<(K, V)>) -> Set<(K, V)>
    decreases s.len(),
{
    if s.len() == 0 {
        Set::empty()
    } else {
        inserted(s.drop_last()).insert(s.last())
    }
}

/// A tree built from the inserts `s` holds exactly the pairs of `s`.
pub proof fn lemma_inserted_contains<K, V>(s: Seq<(K, V)>, e: (K, V))
    ensures
        inserted(s).contains(e) <==> s.contains(e),
    decreases s.len(),
{
    if s.len() > 0 {
        lemma_inserted_contains(s.drop_last(), e);
        if s.drop_last().contains(e) {
            let i = choose|i: int| 0 <= i < s.drop_last().len() && s.drop_last()[i] == e;
            assert(s[i] == e);
        }
        if s.contains(e) && e != s.last() {
            let i = choose|i: int| 0 <= i < s.len() && s[i] == e;
            assert(s.drop_last()[i] == e);
        }
    }
}

/// The answer for `k` after inserting the pairs of `s` into an empty tree, in order, as the
/// contracts of `BTree::new` and `BTree::insert` give it.
pub open spec fn answer_after<K: OrderedKey, V>(s: Seq<(K, V)>, k: K) -> Option<V>
    decreases s.len(),
{
    if s.len() == 0 {
        None
    } else {
        after_insert(answer_after(s.drop_last(), k), k, s.last().0, s.last().1)
    }
}

/// Lookup of a key that was never inserted answers `None`, also on an empty tree.
pub proof fn lemma_never_inserted<K: OrderedKey, V>(s: Seq<(K, V)>, k: K)
    requires
        forall|i: int| 0 <= i < s.len() ==> (#[trigger] s[i]).0 != k,
    ensures
        answer_after(s, k) is None,
    decreases s.len(),
{
    if s.len() > 0 {
        assert(s.last() == s[s.len() - 1]);
        K::lemma_rank_injective(&s.last().0, &k);
        assert forall|i: int| 0 <= i < s.drop_last().len() implies (#[trigger] s.drop_last()[i]).0 != k by {
            assert(s.drop_last()[i] == s[i]);
        }
        lemma_never_inserted(s.drop_last(), k);
    }
}

/// Lookup soundness: a key inserted at least once answers the value of its first insert,
/// whatever was inserted after it, later duplicates of the key included.
pub proof fn lemma_first_insert_wins<K: OrderedKey, V>(s: Seq<(K, V)>, k: K, j: int)
    requires
        0 <= j < s.len(),
        s[j].0 == k,
        forall|i: int| 0 <= i < j ==> (#[trigger] s[i]).0 != k,
    ensures
        answer_after(s, k) == Some(s[j].1),
    decreases s.len(),
{
    let t = s.drop_last();
    if j < s.len() - 1 {
        assert(t[j] == s[j]);
        assert forall|i: int| 0 <= i < j implies (#[trigger] t[i]).0 != k by {
            assert(t[i] == s[i]);
        }
        lemma_first_insert_wins(t, k, j);
    } else {
        assert forall|i: int| 0 <= i < t.len() implies (#[trigger] t[i]).0 != k by {
            assert(t[i] == s[i]);
        }
        lemma_never_inserted(t, k);
        assert(s.last() == s[j]);
    }
}

/// An answer once given never changes, whatever is inserted afterwards.
pub proof fn lemma_answer_kept<K: OrderedKey, V>(s: Seq<(K, V)>, t: Seq<(K, V)>, k: K)
    requires
        answer_after(s, k) is Some,
    ensures
        answer_after(s + t, k) == answer_after(s, k),
    decreases t.len(),
{
    if t.len() > 0 {
        assert((s + t).drop_last() == s + t.drop_last());
        lemma_answer_kept(s, t.drop_last(), k);
    } else {
        assert(s + t == s);
    }
}

/// A tree is empty exactly when nothing has been inserted into it.
pub proof fn lemma_empty_iff_no_inserts<K, V>(s: Seq<(K, V)>)
    ensures
        (inserted(s) == Set::<(K, V)>::empty()) <==> s.len() == 0,
{
    if s.len() > 0 {
        lemma_inserted_contains(s, s.last());
        assert(s.contains(s.last()));
        assert(inserted(s).contains(s.last()));
    }
}

} // verus!
