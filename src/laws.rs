use vstd::prelude::*;

use crate::order::{lemma_count_le_bound, lemma_sorted_insert_sorted, sorted, sorted_insert, TotalOrder};

verus! {

/// The contents of a container after the values of `vs` were inserted, first
/// to last, into a container whose contents were `s`.
pub open spec fn insert_all<T: TotalOrder>(s: Seq<T>, vs: Seq<T>) -> Seq<T>
    decreases vs.len(),
{
    if vs.len() == 0 {
        s
    } else {
        sorted_insert(insert_all(s, vs.drop_last()), vs.last())
    }
}

/// Each insertion adds exactly one value: after `n` insertions into an empty
/// container its size is `n`.
pub proof fn lemma_size_after_inserts<T: TotalOrder>(vs: Seq<T>)
    ensures
        insert_all(Seq::<T>::empty(), vs).len() == vs.len(),
    decreases vs.len(),
{
    if vs.len() > 0 {
        let before = insert_all(Seq::<T>::empty(), vs.drop_last());
        lemma_size_after_inserts(vs.drop_last());
        lemma_count_le_bound(before, vs.last());
    }
}

/// A successful removal takes exactly one value away.
pub proof fn lemma_size_after_remove<T>(s: Seq<T>, index: int)
    requires
        0 <= index < s.len(),
    ensures
        s.remove(index).len() == s.len() - 1,
{
}

/// Whatever the order of insertion, reading the values back by rank gives
/// all of them, each as often as it was inserted, in sorted order.
pub proof fn lemma_ranks_sorted<T: TotalOrder>(vs: Seq<T>)
    ensures
        sorted(insert_all(Seq::<T>::empty(), vs)),
        insert_all(Seq::<T>::empty(), vs).to_multiset() =~= vs.to_multiset(),
    decreases vs.len(),
{
    broadcast use vstd::seq_lib::group_to_multiset_ensures;

    if vs.len() == 0 {
        assert(vs =~= Seq::<T>::empty());
    } else {
        let rest = vs.drop_last();
        lemma_ranks_sorted(rest);
        lemma_sorted_insert_sorted(insert_all(Seq::<T>::empty(), rest), vs.last());
        vstd::seq_lib::to_multiset_build(rest, vs.last());
        assert(rest.push(vs.last()) =~= vs);
    }
}

} // verus!
