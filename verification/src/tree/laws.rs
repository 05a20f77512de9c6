//! What holds of the trees of this crate whatever their keys: laws that relate
//! several operations. They are stated over the views of the trees, that is
//! over the sequences of keys that the contracts of the operations speak of.

use vstd::prelude::*;
use crate::order::{lemma_total_order_is_preorder, total_order, total_preorder};
use crate::ordered_seq::{
    after, all_before, all_greater, all_less_eq, insert_all, lemma_all_before_across,
    lemma_bounds_weaken, lemma_insert_sorted, lemma_rank_cut, lemma_strictly_sorted, not_after,
    sorted, strictly_sorted,
};

verus! {

/// Keys that are inserted one after the other, in whatever order, are then
/// held in ascending order, each as often as it was inserted: the tree has as
/// many keys more as were inserted, and reads them in ascending order.
pub proof fn lemma_insertions_sort<T: PartialOrd>(start: Seq<T>, added: Seq<T>)
    requires
        total_preorder::<T>(),
        sorted(start),
    ensures
        sorted(insert_all(start, added)),
        insert_all(start, added).len() == start.len() + added.len(),
        insert_all(start, added).to_multiset() == start.to_multiset().add(added.to_multiset()),
    decreases added.len(),
{
    broadcast use vstd::seq_lib::to_multiset_build;

    if added.len() == 0 {
        assert(added =~= Seq::<T>::empty());
        assert(start + added =~= start);
        vstd::seq_lib::lemma_multiset_commutative(start, added);
    } else {
        let front = added.drop_last();
        lemma_insertions_sort(start, front);
        lemma_insert_sorted(insert_all(start, front), added.last());
        assert(added =~= front.push(added.last()));
        assert(front.push(added.last()).to_multiset() =~= front.to_multiset().insert(
            added.last(),
        ));
        assert(start.to_multiset().add(front.to_multiset()).insert(added.last())
            =~= start.to_multiset().add(added.to_multiset()));
    }
}

/// A tree that was empty and into which keys that all differ were inserted
/// holds exactly those keys, and reads them in strictly ascending order.
pub proof fn lemma_round_trip<T: Ord>(added: Seq<T>)
    requires
        total_order::<T>(),
        added.no_duplicates(),
    ensures
        strictly_sorted(insert_all(Seq::<T>::empty(), added)),
        insert_all(Seq::<T>::empty(), added).len() == added.len(),
        insert_all(Seq::<T>::empty(), added).to_multiset() == added.to_multiset(),
        forall|key: T| insert_all(Seq::<T>::empty(), added).contains(key) <==> added.contains(key),
{
    lemma_total_order_is_preorder::<T>();
    let start = Seq::<T>::empty();
    let all = insert_all(start, added);
    lemma_insertions_sort(start, added);
    assert(start + added =~= added);
    vstd::seq_lib::lemma_multiset_commutative(start, added);
    assert forall|key: T| all.contains(key) <==> added.contains(key) by {
        vstd::seq_lib::to_multiset_contains(all, key);
        vstd::seq_lib::to_multiset_contains(added, key);
    }
    added.lemma_multiset_has_no_duplicates();
    all.lemma_multiset_has_no_duplicates_conv();
    lemma_strictly_sorted(all);
}

/// Deleting a key a second time changes nothing, where the tree held the key
/// once at most: the first deletion leaves a tree that does not hold the key,
/// and a deletion of a key that a tree does not hold gives the tree back as
/// it is.
pub proof fn lemma_delete_twice<T>(keys: Seq<T>, key: T)
    requires
        keys.to_multiset().count(key) <= 1,
    ensures
        !keys.remove_value(key).contains(key),
        keys.remove_value(key).remove_value(key) == keys.remove_value(key),
{
    let once = keys.remove_value(key);
    keys.index_of_first_ensures(key);
    once.index_of_first_ensures(key);
    if keys.contains(key) {
        let i = keys.index_of_first(key)->0;
        vstd::seq_lib::to_multiset_remove(keys, i);
        vstd::seq_lib::to_multiset_contains(once, key);
        assert(once.to_multiset().count(key) == 0);
    } else {
        vstd::seq_lib::to_multiset_contains(keys, key);
    }
}

/// Cutting a tree in two at any key and joining the two parts gives back the
/// keys of the tree, each as often as the tree held it and in the same order;
/// the two parts are such as the joining asks for.
pub proof fn lemma_split_then_merge<T: PartialOrd>(keys: Seq<T>, key: T)
    requires
        total_preorder::<T>(),
        sorted(keys),
    ensures
        all_less_eq(not_after(keys, key), key),
        all_greater(after(keys, key), key),
        all_before(not_after(keys, key), after(keys, key)),
        not_after(keys, key) + after(keys, key) == keys,
        (not_after(keys, key) + after(keys, key)).to_multiset() == keys.to_multiset(),
{
    lemma_rank_cut(keys, key);
    lemma_bounds_weaken(after(keys, key), key);
    lemma_all_before_across(not_after(keys, key), after(keys, key), key);
    assert(not_after(keys, key) + after(keys, key) =~= keys);
}

} // verus!
