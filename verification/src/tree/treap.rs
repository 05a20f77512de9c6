//! A treap: a binary search tree by key that is at the same time a max-heap by
//! a priority drawn at random for every node.
//!
//! Keys that compare equal may be stored more than once. A node's left subtree
//! holds keys that do not come after the node's key, its right subtree keys
//! that do not come before it; where all keys differ both bounds are strict.
//! No two nodes of one treap carry the same priority.
//!
//! The contracts speak of the keys in order, of the set of priorities, and of
//! the pairs of key and priority in order. The pairs say everything about a
//! well-formed treap: the pair with the highest priority stands at the root,
//! the pairs in front of it make the left subtree and those behind it the
//! right one.

use vstd::prelude::*;
use crate::order::{
    lemma_antisymmetric, lemma_less_eq_cases, lemma_less_eq_refl, lemma_operators,
    lemma_total_order_is_preorder, less, less_eq, total_order,
};
use crate::random::next_u64;
use crate::tree::shape::{balanced, Tree};
use std::collections::HashSet;
use vstd::multiset::Multiset;
use crate::ordered_seq::{
    after, all_before, all_greater, all_greater_eq, all_less_eq, heaviest_with, higher,
    insert_sorted, keys_of, lemma_all_before_across, lemma_all_before_concat,
    lemma_all_before_single, lemma_bounded_excludes, lemma_bounds_of_combination,
    lemma_bounds_of_concat, lemma_bounds_of_insert_sorted, lemma_bounds_of_push,
    lemma_bounds_weaken, lemma_bounds_widen, lemma_cut_at_rank, lemma_heaviest_in_parts,
    lemma_insert_in_parts, lemma_insert_sorted, lemma_insert_sorted_at_cut,
    lemma_insert_sorted_left, lemma_insert_sorted_len, lemma_insert_sorted_right, lemma_rank,
    lemma_removal_keeps_bounds, lemma_removal_on_the_left, lemma_removal_on_the_right,
    lemma_remove_in_parts, lemma_remove_value_at, lemma_sorted_concat, lemma_strictly_sorted,
    not_after, priorities_differ, priorities_of, rank, sorted, strictly_sorted,
};

verus! {

struct Node<T> {
    key: T,
    priority: u64,
    size: usize,
    left: Option<Box<Node<T>>>,
    right: Option<Box<Node<T>>>,
}

type Vertex<T> = Option<Box<Node<T>>>;

/// The keys of a subtree, read from left to right.
spec fn keys<T>(v: Vertex<T>) -> Seq<T>
    decreases v,
{
    match v {
        None => Seq::empty(),
        Some(n) => keys(n.left).push(n.key) + keys(n.right),
    }
}

/// The priorities that the nodes of a subtree carry.
spec fn priorities<T>(v: Vertex<T>) -> Set<u64>
    decreases v,
{
    match v {
        None => Set::empty(),
        Some(n) => priorities(n.left).union(priorities(n.right)).insert(n.priority),
    }
}

/// The pairs of key and priority of a subtree, read from left to right.
spec fn entries<T>(v: Vertex<T>) -> Seq<(T, u64)>
    decreases v,
{
    match v {
        None => Seq::empty(),
        Some(n) => entries(n.left).push((n.key, n.priority)) + entries(n.right),
    }
}

/// The pair of key and priority at the root of a subtree.
spec fn root_entry<T>(v: Vertex<T>) -> Option<(T, u64)> {
    match v {
        None => None,
        Some(n) => Some((n.key, n.priority)),
    }
}

/// The keys and the priorities of a subtree are those of its pairs.
proof fn lemma_entries<T>(v: Vertex<T>)
    ensures
        entries(v).len() == keys(v).len(),
        keys(v) == keys_of(entries(v)),
        priorities(v) == priorities_of(entries(v)),
        v is None <==> entries(v).len() == 0,
    decreases v,
{
    if let Some(n) = v {
        lemma_entries(n.left);
        lemma_entries(n.right);
        let l = entries(n.left);
        let r = entries(n.right);
        let all = entries(v);
        let e = (n.key, n.priority);
        assert(all =~= l.push(e) + r);
        assert forall|i: int| 0 <= i < l.len() implies all[i] == l[i] by {}
        assert forall|i: int| 0 <= i < r.len() implies all[l.len() + 1 + i] == r[i] by {}
        assert(all[l.len() as int] == e);
        assert(keys(v) =~= keys_of(all));
        assert forall|p: u64| priorities(v).contains(p) <==> priorities_of(all).contains(p) by {
            if priorities(n.left).contains(p) {
                let i = choose|i: int| 0 <= i < l.len() && (#[trigger] l[i]).1 == p;
                assert(all[i].1 == p);
            }
            if priorities(n.right).contains(p) {
                let i = choose|i: int| 0 <= i < r.len() && (#[trigger] r[i]).1 == p;
                assert(all[l.len() + 1 + i].1 == p);
            }
            if priorities_of(all).contains(p) {
                let i = choose|i: int| 0 <= i < all.len() && (#[trigger] all[i]).1 == p;
                if i < l.len() {
                    assert(l[i].1 == p);
                } else if i > l.len() {
                    assert(r[i - l.len() - 1].1 == p);
                }
            }
        }
        assert(priorities(v) =~= priorities_of(all));
    } else {
        assert(keys(v) =~= keys_of(entries(v)));
        assert(priorities(v) =~= priorities_of(entries(v)));
    }
}

/// In a well-formed subtree no priority occurs in two pairs, and the pair at
/// the root carries the highest.
proof fn lemma_entries_differ<T: Ord>(v: Vertex<T>)
    requires
        well_formed(v),
    ensures
        priorities_differ(entries(v)),
        v matches Some(n) ==> forall|i: int|
            0 <= i < entries(v).len() && i != entries(n.left).len() ==> (#[trigger] entries(
                v,
            )[i]).1 < n.priority,
    decreases v,
{
    if let Some(n) = v {
        lemma_entries_differ(n.left);
        lemma_entries_differ(n.right);
        lemma_entries(n.left);
        lemma_entries(n.right);
        let l = entries(n.left);
        let r = entries(n.right);
        let all = entries(v);
        assert forall|i: int| 0 <= i < l.len() implies all[i] == l[i] && priorities(
            n.left,
        ).contains(l[i].1) by {}
        assert forall|i: int| 0 <= i < r.len() implies all[l.len() + 1 + i] == r[i] && priorities(
            n.right,
        ).contains(r[i].1) by {}
        assert forall|i: int| 0 <= i < all.len() && i != l.len() implies (#[trigger] all[i]).1
            < n.priority by {
            if i < l.len() {
                assert(all[i] == l[i]);
            } else {
                assert(all[i] == r[i - l.len() - 1]);
            }
        }
        assert forall|i: int, j: int|
            0 <= i < all.len() && 0 <= j < all.len() && i != j implies (#[trigger] all[i]).1 != (
            #[trigger] all[j]).1 by {
            if i < l.len() && j < l.len() {
                assert(all[i] == l[i] && all[j] == l[j]);
            } else if i > l.len() && j > l.len() {
                assert(all[i] == r[i - l.len() - 1] && all[j] == r[j - l.len() - 1]);
            } else if i < l.len() && j > l.len() {
                assert(all[i] == l[i] && all[j] == r[j - l.len() - 1]);
            } else if j < l.len() && i > l.len() {
                assert(all[j] == l[j] && all[i] == r[i - l.len() - 1]);
            }
        }
    }
}

/// Two well-formed subtrees with the same pairs in the same order are the
/// same subtree: the pairs fix the shape, because the highest priority
/// stands at the root.
proof fn lemma_entries_fix_the_subtree<T: Ord>(a: Vertex<T>, b: Vertex<T>)
    requires
        well_formed(a),
        well_formed(b),
        entries(a) == entries(b),
    ensures
        a == b,
    decreases a,
{
    lemma_entries(a);
    lemma_entries(b);
    if let Some(n) = a {
        let m = b->0;
        lemma_entries_differ(a);
        lemma_entries_differ(b);
        lemma_entries(n.left);
        lemma_entries(n.right);
        lemma_entries(m.left);
        lemma_entries(m.right);
        let all = entries(a);
        let at = entries(n.left).len() as int;
        let bt = entries(m.left).len() as int;
        assert(all[at] == (n.key, n.priority));
        assert(entries(b)[bt] == (m.key, m.priority));
        if at != bt {
            assert(all[bt].1 < n.priority);
            assert(all[at].1 < m.priority);
        }
        assert(entries(n.left) =~= all.take(at));
        assert(entries(m.left) =~= all.take(at));
        assert(entries(n.right) =~= all.skip(at + 1));
        assert(entries(m.right) =~= all.skip(at + 1));
        lemma_entries_fix_the_subtree(n.left, m.left);
        lemma_entries_fix_the_subtree(n.right, m.right);
        assert(n.size == m.size);
        assert(*n == *m);
    }
}

/// Every priority in `s` is below `bound`.
spec fn all_below(s: Set<u64>, bound: u64) -> bool {
    forall|p: u64| s.contains(p) ==> p < bound
}

/// What must hold at a node apart from its size counter: both subtrees are
/// well formed, the keys on the left do not come after the node's key and
/// those on the right do not come before it, the node's priority is above
/// every priority below it, and the two subtrees share no priority.
spec fn arranged<T: Ord>(n: Node<T>) -> bool
    decreases n,
{
    &&& well_formed(n.left)
    &&& well_formed(n.right)
    &&& all_less_eq(keys(n.left), n.key)
    &&& all_greater_eq(keys(n.right), n.key)
    &&& all_below(priorities(n.left), n.priority)
    &&& all_below(priorities(n.right), n.priority)
    &&& priorities(n.left).disjoint(priorities(n.right))
}

/// The three invariants of a treap, at every node of the subtree: search-tree
/// order on the keys, heap order on pairwise different priorities, and a size
/// counter that equals the number of nodes below and including the node.
spec fn well_formed<T: Ord>(v: Vertex<T>) -> bool
    decreases v,
{
    match v {
        None => true,
        Some(n) => arranged(*n) && n.size == keys(n.left).len() + 1 + keys(n.right).len(),
    }
}

/// What holds of a set of priorities holds of the two parts it is made of.
proof fn lemma_priority_parts(a: Set<u64>, b: Set<u64>, whole: Set<u64>)
    requires
        a.union(b) == whole,
    ensures
        a.subset_of(whole),
        b.subset_of(whole),
        forall|bound: u64| all_below(whole, bound) ==> all_below(a, bound) && all_below(b, bound),
        forall|other: Set<u64>| #[trigger]
            whole.disjoint(other) ==> a.disjoint(other) && b.disjoint(other),
{
    assert forall|p: u64| a.contains(p) implies whole.contains(p) by {
        assert(a.union(b).contains(p));
    }
    assert forall|p: u64| b.contains(p) implies whole.contains(p) by {
        assert(a.union(b).contains(p));
    }
}

/// In a well-formed subtree the keys read in ascending order.
proof fn lemma_keys_sorted<T: Ord>(v: Vertex<T>)
    requires
        total_order::<T>(),
        well_formed(v),
    ensures
        sorted(keys(v)),
    decreases v,
{
    lemma_total_order_is_preorder::<T>();
    if let Some(n) = v {
        lemma_keys_sorted(n.left);
        lemma_keys_sorted(n.right);
        let l = keys(n.left);
        let r = keys(n.right);
        let k = seq![n.key];
        assert(l.push(n.key) =~= l + k);
        lemma_all_before_single(l, n.key);
        lemma_all_before_single(r, n.key);
        lemma_all_before_across(l, r, n.key);
        lemma_sorted_concat(l, k);
        lemma_all_before_concat(l, k, r);
        lemma_sorted_concat(l + k, r);
    }
}

/// A well-formed subtree carries as many priorities as it holds keys: no
/// priority is carried twice.
proof fn lemma_priorities_counted<T: Ord>(v: Vertex<T>)
    requires
        well_formed(v),
    ensures
        priorities(v).finite(),
        priorities(v).len() == keys(v).len(),
    decreases v,
{
    broadcast use vstd::set::group_set_axioms;

    if let Some(n) = v {
        lemma_priorities_counted(n.left);
        lemma_priorities_counted(n.right);
        let l = priorities(n.left);
        let r = priorities(n.right);
        vstd::set_lib::lemma_set_disjoint_lens(l, r);
        assert(l + r == l.union(r));
        assert(!l.union(r).contains(n.priority));
    }
}

/// The number of nodes in a subtree, from the counter at its root.
fn size<T: Ord>(v: &Vertex<T>) -> (count: usize)
    requires
        well_formed(*v),
    ensures
        count == keys(*v).len(),
{
    match v {
        Some(n) => n.size,
        None => 0,
    }
}

/// Sets the counter at the root from the counters of the two children.
fn update_size<T: Ord>(v: Vertex<T>) -> (updated: Vertex<T>)
    requires
        v is Some ==> arranged(*v->0) && keys(v).len() <= usize::MAX,
    ensures
        well_formed(updated),
        keys(updated) == keys(v),
        entries(updated) == entries(v),
        root_entry(updated) == root_entry(v),
        priorities(updated) == priorities(v),
        well_formed(v) ==> updated == v,
        updated is Some <==> v is Some,
        v matches Some(n) ==> updated->0.key == n.key && updated->0.priority == n.priority
            && updated->0.left == n.left && updated->0.right == n.right,
{
    if let Some(mut n) = v {
        n.size = size(&n.left) + 1 + size(&n.right);
        Some(n)
    } else {
        None
    }
}

/// Cuts a subtree in two at `target`: the first part takes the keys that do
/// not come after `target`, the second those that come after it.
fn split<T: Ord>(v: Vertex<T>, target: &T) -> (parts: (Vertex<T>, Vertex<T>))
    requires
        total_order::<T>(),
        well_formed(v),
    ensures
        well_formed(parts.0),
        well_formed(parts.1),
        keys(parts.0) + keys(parts.1) == keys(v),
        entries(parts.0) + entries(parts.1) == entries(v),
        all_less_eq(keys(parts.0), *target),
        all_greater(keys(parts.1), *target),
        priorities(parts.0).union(priorities(parts.1)) == priorities(v),
        priorities(parts.0).disjoint(priorities(parts.1)),
    decreases v,
{
    proof {
        lemma_total_order_is_preorder::<T>();
    }
    if let Some(mut node) = v {
        let ghost before = *node;
        proof {
            lemma_operators(*target, node.key);
        }
        if *target < node.key {
            let (l, r) = split(node.left, target);
            node.left = r;
            proof {
                lemma_priority_parts(priorities(l), priorities(r), priorities(before.left));
                lemma_bounds_of_concat(keys(l), keys(r), before.key);
                lemma_bounds_of_concat(keys(r).push(before.key), keys(before.right), *target);
                lemma_bounds_of_push(keys(r), before.key, *target);
                lemma_bounds_widen(keys(before.right), before.key, *target);
                assert(keys(l) + (keys(r).push(before.key) + keys(before.right)) =~= (keys(l)
                    + keys(r)).push(before.key) + keys(before.right));
                assert(entries(l) + (entries(r).push((before.key, before.priority)) + entries(
                    before.right,
                )) =~= (entries(l) + entries(r)).push((before.key, before.priority)) + entries(
                    before.right,
                ));
                assert(priorities(l).union(priorities(Some(node))) =~= priorities(v));
            }
            (l, update_size(Some(node)))
        } else {
            let (l, r) = split(node.right, target);
            node.right = l;
            proof {
                lemma_priority_parts(priorities(l), priorities(r), priorities(before.right));
                lemma_bounds_of_concat(keys(l), keys(r), before.key);
                lemma_bounds_of_concat(keys(before.left).push(before.key), keys(l), *target);
                lemma_bounds_of_push(keys(before.left), before.key, *target);
                lemma_bounds_widen(keys(before.left), before.key, *target);
                assert((keys(before.left).push(before.key) + keys(l)) + keys(r) =~= keys(
                    before.left,
                ).push(before.key) + (keys(l) + keys(r)));
                assert((entries(before.left).push((before.key, before.priority)) + entries(l))
                    + entries(r) =~= entries(before.left).push((before.key, before.priority)) + (
                    entries(l) + entries(r)));
                assert(priorities(Some(node)).union(priorities(r)) =~= priorities(v));
            }
            (update_size(Some(node)), r)
        }
    } else {
        (None, None)
    }
}

/// Joins two subtrees of which the first holds no key that comes after a key
/// of the second. The root with the higher priority becomes the root of the
/// result.
fn merge<T: Ord>(v1: Vertex<T>, v2: Vertex<T>) -> (merged: Vertex<T>)
    requires
        total_order::<T>(),
        well_formed(v1),
        well_formed(v2),
        all_before(keys(v1), keys(v2)),
        priorities(v1).disjoint(priorities(v2)),
        keys(v1).len() + keys(v2).len() <= usize::MAX,
    ensures
        well_formed(merged),
        keys(merged) == keys(v1) + keys(v2),
        entries(merged) == entries(v1) + entries(v2),
        priorities(merged) == priorities(v1).union(priorities(v2)),
        v1 is None ==> merged == v2,
        v2 is None ==> merged == v1,
        v1 is Some && v2 is Some ==> root_entry(merged) == (if v1->0.priority > v2->0.priority {
            root_entry(v1)
        } else {
            root_entry(v2)
        }),
    decreases keys(v1).len() + keys(v2).len(),
{
    match (v1, v2) {
        (Some(mut n1), Some(mut n2)) => {
            let ghost first = *n1;
            let ghost second = *n2;
            proof {
                let k1 = first.key;
                let k2 = second.key;
                assert(keys(first.left).push(k1) =~= keys(first.left) + seq![k1]);
                assert(keys(second.left).push(k2) =~= keys(second.left) + seq![k2]);
                lemma_all_before_concat(keys(first.left).push(k1), keys(first.right), keys(v2));
                lemma_all_before_concat(keys(first.left), seq![k1], keys(v2));
                lemma_all_before_single(keys(v2), k1);
                lemma_all_before_concat(keys(v1), keys(second.left).push(k2), keys(second.right));
                lemma_all_before_concat(keys(v1), keys(second.left), seq![k2]);
                lemma_all_before_single(keys(v1), k2);
                assert(priorities(v1).contains(first.priority));
                assert(priorities(v2).contains(second.priority));
            }
            if n1.priority < n2.priority {
                let joined = merge(Some(n1), n2.left);
                n2.left = joined;
                proof {
                    lemma_bounds_of_concat(keys(v1), keys(second.left), second.key);
                    assert((keys(v1) + keys(second.left)).push(second.key) + keys(second.right)
                        =~= keys(v1) + keys(v2));
                    assert((entries(v1) + entries(second.left)).push(
                        (second.key, second.priority),
                    ) + entries(second.right) =~= entries(v1) + entries(v2));
                    assert(priorities(Some(n2)) =~= priorities(v1).union(priorities(v2)));
                }
                update_size(Some(n2))
            } else {
                let joined = merge(n1.right, Some(n2));
                n1.right = joined;
                proof {
                    lemma_bounds_of_concat(keys(first.right), keys(v2), first.key);
                    assert(keys(first.left).push(first.key) + (keys(first.right) + keys(v2))
                        =~= keys(v1) + keys(v2));
                    assert(entries(first.left).push((first.key, first.priority)) + (entries(
                        first.right,
                    ) + entries(v2)) =~= entries(v1) + entries(v2));
                    assert(priorities(Some(n1)) =~= priorities(v1).union(priorities(v2)));
                }
                update_size(Some(n1))
            }
        },
        (Some(n1), None) => {
            assert(keys(v1) + keys(v2) =~= keys(v1));
            assert(entries(v1) + entries(v2) =~= entries(v1));
            assert(priorities(v1).union(priorities(v2)) =~= priorities(v1));
            Some(n1)
        },
        (None, v2) => {
            assert(keys(v1) + keys(v2) =~= keys(v2));
            assert(entries(v1) + entries(v2) =~= entries(v2));
            assert(priorities(v1).union(priorities(v2)) =~= priorities(v2));
            v2
        },
    }
}

/// Adds the leaf `target` to a subtree. It descends while the priorities on
/// the way are higher than its own, and takes the place of the first node
/// with a lower one, whose subtree it cuts in two at its key.
#[verifier::rlimit(60)]
fn insert<T: Ord>(v: Vertex<T>, target: Node<T>) -> (grown: Vertex<T>)
    requires
        total_order::<T>(),
        well_formed(v),
        target.left is None,
        target.right is None,
        target.size == 1,
        !priorities(v).contains(target.priority),
        keys(v).len() < usize::MAX,
    ensures
        well_formed(grown),
        keys(grown) == insert_sorted(keys(v), target.key),
        entries(grown) == entries(v).insert(
            rank(keys(v), target.key) as int,
            (target.key, target.priority),
        ),
        root_entry(grown) == (if v is Some && v->0.priority > target.priority {
            root_entry(v)
        } else {
            Some((target.key, target.priority))
        }),
        priorities(grown) == priorities(v).insert(target.priority),
    decreases v,
{
    proof {
        lemma_total_order_is_preorder::<T>();
        lemma_insert_sorted_at_cut(Seq::<T>::empty(), Seq::<T>::empty(), target.key);
        lemma_entries(v);
    }
    let mut target = target;
    if let Some(mut n) = v {
        let ghost before = *n;
        let ghost key = target.key;
        let ghost l = keys(before.left);
        let ghost r = keys(before.right);
        proof {
            lemma_operators(key, before.key);
            assert(priorities(v).contains(before.priority));
            assert(l.push(before.key) =~= l + seq![before.key]);
        }
        if target.priority < n.priority {
            if target.key < n.key {
                let below = insert(n.left, target);
                n.left = below;
                proof {
                    lemma_bounds_of_insert_sorted(l, key, before.key);
                    lemma_bounds_of_push(Seq::<T>::empty(), before.key, key);
                    lemma_bounds_widen(r, before.key, key);
                    lemma_bounds_of_concat(seq![before.key], r, key);
                    lemma_insert_sorted_left(l, seq![before.key] + r, key);
                    assert(seq![before.key] =~= Seq::<T>::empty().push(before.key));
                    assert(l + (seq![before.key] + r) =~= keys(v));
                    assert(keys(below).push(before.key) + r =~= keys(below) + (seq![before.key]
                        + r));
                    assert(priorities(Some(n)) =~= priorities(v).insert(target.priority));
                    lemma_insert_sorted_len(l, key);
                    assert(rank(keys(v), key) == rank(l, key) <= l.len()) by {
                        lemma_rank(l, seq![before.key] + r, key);
                        lemma_rank(seq![before.key] + r, Seq::<T>::empty(), key);
                    }
                    lemma_entries(before.left);
                    lemma_insert_in_parts(
                        entries(before.left),
                        (before.key, before.priority),
                        entries(before.right),
                        rank(l, key) as int,
                        (target.key, target.priority),
                    );
                }
            } else {
                let below = insert(n.right, target);
                n.right = below;
                proof {
                    lemma_bounds_of_insert_sorted(r, key, before.key);
                    lemma_bounds_of_push(l, before.key, key);
                    lemma_bounds_widen(l, before.key, key);
                    lemma_insert_sorted_right(l.push(before.key), r, key);
                    assert(priorities(Some(n)) =~= priorities(v).insert(target.priority));
                    lemma_insert_sorted_len(r, key);
                    assert(rank(keys(v), key) == l.len() + 1 + rank(r, key) && rank(r, key)
                        <= r.len()) by {
                        lemma_rank(l.push(before.key), r, key);
                        lemma_rank(l.push(before.key), Seq::<T>::empty(), key);
                        lemma_rank(r, Seq::<T>::empty(), key);
                    }
                    lemma_entries(before.left);
                    lemma_entries(before.right);
                    lemma_insert_in_parts(
                        entries(before.left),
                        (before.key, before.priority),
                        entries(before.right),
                        rank(r, key) as int,
                        (target.key, target.priority),
                    );
                }
            }
            update_size(Some(n))
        } else {
            let (low, high) = split(Some(n), &target.key);
            target.left = low;
            target.right = high;
            proof {
                lemma_bounds_weaken(keys(high), key);
                lemma_insert_sorted_at_cut(keys(low), keys(high), key);
                lemma_priority_parts(priorities(low), priorities(high), priorities(v));
                assert(all_below(priorities(v), target.priority));
                assert(priorities(Some(Box::new(target))) =~= priorities(v).insert(
                    target.priority,
                ));
                assert(rank(keys(v), key) == keys(low).len()) by {
                    lemma_rank(keys(low), keys(high), key);
                    lemma_rank(keys(high), Seq::<T>::empty(), key);
                }
                lemma_entries(low);
                lemma_insert_in_parts(
                    entries(low),
                    (target.key, target.priority),
                    entries(high),
                    0,
                    (target.key, target.priority),
                );
            }
            update_size(Some(Box::new(target)))
        }
    } else {
        assert(keys(Some(Box::new(target))) =~= Seq::<T>::empty().push(target.key) + Seq::<
            T,
        >::empty());
        assert(priorities(Some(Box::new(target))) =~= priorities(v).insert(target.priority));
        assert(entries(Some(Box::new(target))) =~= entries(v).insert(
            rank(keys(v), target.key) as int,
            (target.key, target.priority),
        ));
        Some(Box::new(target))
    }
}

/// Takes one node with the key `target` out of a subtree, if there is one:
/// the first that the search for `target` meets. Its two subtrees are joined
/// in its place.
#[verifier::rlimit(80)]
fn delete<T: Ord>(v: Vertex<T>, target: T) -> (rest: Vertex<T>)
    requires
        total_order::<T>(),
        well_formed(v),
    ensures
        well_formed(rest),
        keys(rest) == keys(v).remove_value(target),
        !keys(v).contains(target) ==> rest == v,
        keys(v).contains(target) ==> exists|i: int| #[trigger]
            heaviest_with(entries(v), target, i) && entries(rest) == entries(v).remove(i),
        !keys(v).contains(target) ==> priorities(rest) == priorities(v),
        keys(v).contains(target) ==> exists|p: u64| #[trigger]
            priorities(v).contains(p) && priorities(rest) == priorities(v).remove(p),
    decreases v,
{
    proof {
        lemma_total_order_is_preorder::<T>();
        lemma_keys_sorted(v);
        lemma_entries(v);
    }
    if let Some(mut n) = v {
        let ghost before = *n;
        let ghost l = keys(before.left);
        let ghost r = keys(before.right);
        let ghost all = keys(v);
        proof {
            lemma_operators(target, before.key);
            if less_eq(target, before.key) && less_eq(before.key, target) {
                lemma_antisymmetric(target, before.key);
            }
            assert(l.push(before.key) =~= l + seq![before.key]);
            assert(all[l.len() as int] == before.key);
            assert(priorities(v).contains(before.priority));
        }
        if target < n.key {
                let below = delete(n.left, target);
                n.left = below;
                proof {
                    lemma_keys_sorted(before.left);
                    lemma_bounds_widen(r, before.key, target);
                    lemma_bounded_excludes(r, target);
                    lemma_removal_on_the_left(l, seq![before.key] + r, target);
                    assert(l + (seq![before.key] + r) =~= all);
                    assert(l.remove_value(target) + (seq![before.key] + r) =~= l.remove_value(
                        target,
                    ).push(before.key) + r);
                    lemma_removal_keeps_bounds(l, target, before.key);
                    if l.contains(target) {
                        let p = choose|p: u64| #[trigger]
                            priorities(before.left).contains(p) && priorities(below)
                                == priorities(before.left).remove(p);
                        assert(priorities(Some(n)) =~= priorities(v).remove(p));
                        assert(priorities(v).contains(p));
                        let i = choose|i: int| #[trigger]
                            heaviest_with(entries(before.left), target, i) && entries(below)
                                == entries(before.left).remove(i);
                        lemma_entries(before.right);
                        lemma_less_eq_cases(target, before.key);
                        lemma_heaviest_in_parts(
                            entries(before.left),
                            (before.key, before.priority),
                            entries(before.right),
                            target,
                            i,
                        );
                        lemma_remove_in_parts(
                            entries(before.left),
                            (before.key, before.priority),
                            entries(before.right),
                            i,
                        );
                        assert(heaviest_with(entries(v), target, i));
                    } else {
                        assert(priorities(Some(n)) =~= priorities(v));
                        assert(*n == before);
                    }
                }
                update_size(Some(n))
        } else if target > n.key {
                let below = delete(n.right, target);
                n.right = below;
                proof {
                    lemma_keys_sorted(before.right);
                    lemma_bounds_of_push(l, before.key, target);
                    lemma_bounds_widen(l, before.key, target);
                    lemma_bounded_excludes(l.push(before.key), target);
                    lemma_removal_on_the_right(l.push(before.key), r, target);
                    lemma_removal_keeps_bounds(r, target, before.key);
                    if r.contains(target) {
                        let p = choose|p: u64| #[trigger]
                            priorities(before.right).contains(p) && priorities(below)
                                == priorities(before.right).remove(p);
                        assert(priorities(Some(n)) =~= priorities(v).remove(p));
                        assert(priorities(v).contains(p));
                        let i = choose|i: int| #[trigger]
                            heaviest_with(entries(before.right), target, i) && entries(below)
                                == entries(before.right).remove(i);
                        lemma_entries(before.left);
                        lemma_less_eq_cases(before.key, target);
                        assert(!l.contains(target)) by {
                            if l.contains(target) {
                                let j = choose|j: int| 0 <= j < l.len() && l[j] == target;
                                assert(l.push(before.key)[j] == target);
                            }
                        }
                        lemma_heaviest_in_parts(
                            entries(before.left),
                            (before.key, before.priority),
                            entries(before.right),
                            target,
                            i,
                        );
                        lemma_remove_in_parts(
                            entries(before.left),
                            (before.key, before.priority),
                            entries(before.right),
                            i,
                        );
                        assert(heaviest_with(
                            entries(v),
                            target,
                            entries(before.left).len() + 1 + i,
                        ));
                    } else {
                        assert(priorities(Some(n)) =~= priorities(v));
                        assert(*n == before);
                    }
                }
                update_size(Some(n))
        } else {
                proof {
                    lemma_all_before_across(l, r, before.key);
                    lemma_remove_value_at(all, l.len() as int);
                    assert(all.remove(l.len() as int) =~= l + r);
                    assert(priorities(before.left).union(priorities(before.right))
                        =~= priorities(v).remove(before.priority));
                    lemma_entries_differ(v);
                    lemma_entries(before.left);
                    lemma_entries(before.right);
                    let el = entries(before.left);
                    let er = entries(before.right);
                    assert forall|j: int| 0 <= j < el.len() implies (#[trigger] el[j]).1
                        <= before.priority by {
                        assert(entries(v)[j] == el[j]);
                    }
                    assert forall|j: int| 0 <= j < er.len() implies (#[trigger] er[j]).1
                        <= before.priority by {
                        assert(entries(v)[el.len() + 1 + j] == er[j]);
                    }
                    lemma_heaviest_in_parts(el, (before.key, before.priority), er, target, 0);
                    lemma_remove_in_parts(el, (before.key, before.priority), er, 0);
                    assert(heaviest_with(entries(v), target, el.len() as int));
                    assert(all.contains(target));
                }
                merge(n.left, n.right)
        }
    } else {
        proof {
            keys(v).index_of_first_ensures(target);
        }
        None
    }
}

/// The keys of a node's subtree, counted, are those of its two subtrees and
/// its own.
proof fn lemma_keys_of_node<T>(n: Node<T>)
    ensures
        keys(Some(Box::new(n))).to_multiset() == keys(n.left).to_multiset().add(
            keys(n.right).to_multiset(),
        ).insert(n.key),
        keys(Some(Box::new(n))).len() == keys(n.left).len() + 1 + keys(n.right).len(),
{
    broadcast use vstd::seq_lib::to_multiset_build;

    vstd::seq_lib::lemma_multiset_commutative(keys(n.left).push(n.key), keys(n.right));
    assert(keys(n.left).push(n.key).to_multiset().add(keys(n.right).to_multiset()) =~= keys(
        n.left,
    ).to_multiset().add(keys(n.right).to_multiset()).insert(n.key));
}

/// The pairs of a node's subtree, counted, are those of its two subtrees and
/// its own.
proof fn lemma_entries_of_node<T>(n: Node<T>)
    ensures
        entries(Some(Box::new(n))).to_multiset() == entries(n.left).to_multiset().add(
            entries(n.right).to_multiset(),
        ).insert((n.key, n.priority)),
{
    broadcast use vstd::seq_lib::to_multiset_build;

    let e = (n.key, n.priority);
    vstd::seq_lib::lemma_multiset_commutative(entries(n.left).push(e), entries(n.right));
    assert(entries(n.left).push(e).to_multiset().add(entries(n.right).to_multiset())
        =~= entries(n.left).to_multiset().add(entries(n.right).to_multiset()).insert(e));
}

/// Unites two subtrees whose keys may interleave. The root with the higher
/// priority stays a root; the other subtree is cut in two at that root's key,
/// and each part is united with the subtree on its side. Keys that occur in
/// both are kept from both.
fn union<T: Ord>(v1: Vertex<T>, v2: Vertex<T>) -> (united: Vertex<T>)
    requires
        total_order::<T>(),
        well_formed(v1),
        well_formed(v2),
        priorities(v1).disjoint(priorities(v2)),
        keys(v1).len() + keys(v2).len() <= usize::MAX,
    ensures
        well_formed(united),
        keys(united).to_multiset() == keys(v1).to_multiset().add(keys(v2).to_multiset()),
        entries(united).to_multiset() == entries(v1).to_multiset().add(
            entries(v2).to_multiset(),
        ),
        priorities(united) == priorities(v1).union(priorities(v2)),
        v1 is None ==> united == v2,
        v2 is None ==> united == v1,
        v1 is Some && v2 is Some ==> root_entry(united) == (if v1->0.priority > v2->0.priority {
            root_entry(v1)
        } else {
            root_entry(v2)
        }),
    decreases keys(v1).len() + keys(v2).len(),
{
    proof {
        lemma_total_order_is_preorder::<T>();
    }
    match (v1, v2) {
        (Some(mut n1), Some(mut n2)) => {
            let ghost first = *n1;
            let ghost second = *n2;
            proof {
                lemma_root_priority_is_highest(v1);
                lemma_root_priority_is_highest(v2);
                lemma_keys_of_node(first);
                lemma_keys_of_node(second);
                lemma_entries_of_node(first);
                lemma_entries_of_node(second);
            }
            if n1.priority < n2.priority {
                let (low, high) = split(Some(n1), &n2.key);
                proof {
                    vstd::seq_lib::lemma_multiset_commutative(keys(low), keys(high));
                    lemma_priority_parts(priorities(low), priorities(high), priorities(v1));
                    lemma_bounds_weaken(keys(high), second.key);
                }
                let left = union(n2.left, low);
                let right = union(n2.right, high);
                n2.left = left;
                n2.right = right;
                proof {
                    lemma_bounds_of_combination(
                        keys(left),
                        keys(second.left),
                        keys(low),
                        second.key,
                    );
                    lemma_bounds_of_combination(
                        keys(right),
                        keys(second.right),
                        keys(high),
                        second.key,
                    );
                    lemma_keys_of_node(*n2);
                    assert(keys(Some(n2)).to_multiset() =~= keys(v1).to_multiset().add(
                        keys(v2).to_multiset(),
                    ));
                    lemma_entries_of_node(*n2);
                    vstd::seq_lib::lemma_multiset_commutative(entries(low), entries(high));
                    assert(entries(Some(n2)).to_multiset() =~= entries(v1).to_multiset().add(
                        entries(v2).to_multiset(),
                    ));
                    assert(priorities(Some(n2)) =~= priorities(v1).union(priorities(v2)));
                }
                update_size(Some(n2))
            } else {
                let (low, high) = split(Some(n2), &n1.key);
                proof {
                    vstd::seq_lib::lemma_multiset_commutative(keys(low), keys(high));
                    lemma_priority_parts(priorities(low), priorities(high), priorities(v2));
                    lemma_bounds_weaken(keys(high), first.key);
                    assert(priorities(v1).contains(first.priority));
                    assert(priorities(v2).contains(second.priority));
                }
                let left = union(n1.left, low);
                let right = union(n1.right, high);
                n1.left = left;
                n1.right = right;
                proof {
                    lemma_bounds_of_combination(
                        keys(left),
                        keys(first.left),
                        keys(low),
                        first.key,
                    );
                    lemma_bounds_of_combination(
                        keys(right),
                        keys(first.right),
                        keys(high),
                        first.key,
                    );
                    lemma_keys_of_node(*n1);
                    assert(keys(Some(n1)).to_multiset() =~= keys(v1).to_multiset().add(
                        keys(v2).to_multiset(),
                    ));
                    lemma_entries_of_node(*n1);
                    vstd::seq_lib::lemma_multiset_commutative(entries(low), entries(high));
                    assert(entries(Some(n1)).to_multiset() =~= entries(v1).to_multiset().add(
                        entries(v2).to_multiset(),
                    ));
                    assert(priorities(Some(n1)) =~= priorities(v1).union(priorities(v2)));
                }
                update_size(Some(n1))
            }
        },
        (Some(n1), None) => {
            proof {
                assert(keys(v1) + keys(v2) =~= keys(v1));
                vstd::seq_lib::lemma_multiset_commutative(keys(v1), keys(v2));
                assert(entries(v1) + entries(v2) =~= entries(v1));
                vstd::seq_lib::lemma_multiset_commutative(entries(v1), entries(v2));
            }
            assert(priorities(v1).union(priorities(v2)) =~= priorities(v1));
            Some(n1)
        },
        (None, v2) => {
            proof {
                assert(keys(v1) + keys(v2) =~= keys(v2));
                vstd::seq_lib::lemma_multiset_commutative(keys(v1), keys(v2));
                assert(entries(v1) + entries(v2) =~= entries(v2));
                vstd::seq_lib::lemma_multiset_commutative(entries(v1), entries(v2));
            }
            assert(priorities(v1).union(priorities(v2)) =~= priorities(v2));
            v2
        },
    }
}

/// The priority at the root of a subtree, and 0 for the empty subtree.
fn get_priority<T>(v: &Vertex<T>) -> (p: u64)
    ensures
        p == root_priority(*v),
{
    if let Some(ref n) = v {
        n.priority
    } else {
        0
    }
}

/// The priority at the root of a subtree, and 0 for the empty subtree.
spec fn root_priority<T>(v: Vertex<T>) -> u64 {
    match v {
        Some(n) => n.priority,
        None => 0,
    }
}

/// A subtree in which all is as in a well-formed one, but for the priority at
/// the root: it differs from all priorities below it and may be smaller than
/// some of them.
spec fn well_formed_below_root<T: Ord>(v: Vertex<T>) -> bool {
    match v {
        None => true,
        Some(n) => {
            &&& well_formed(n.left)
            &&& well_formed(n.right)
            &&& all_less_eq(keys(n.left), n.key)
            &&& all_greater_eq(keys(n.right), n.key)
            &&& !priorities(n.left).contains(n.priority)
            &&& !priorities(n.right).contains(n.priority)
            &&& priorities(n.left).disjoint(priorities(n.right))
            &&& n.size == keys(n.left).len() + 1 + keys(n.right).len()
        },
    }
}

/// In a well-formed subtree no priority is above the one at the root.
proof fn lemma_root_priority_is_highest<T: Ord>(v: Vertex<T>)
    requires
        well_formed(v),
    ensures
        forall|p: u64| priorities(v).contains(p) ==> p <= root_priority(v),
        v is Some ==> priorities(v).contains(root_priority(v)),
{
}

/// Heap order alone: at every node of the subtree the priority is no lower
/// than the priorities of its two children.
spec fn heap_ordered<T>(v: Vertex<T>) -> bool
    decreases v,
{
    match v {
        None => true,
        Some(n) => {
            &&& heap_ordered(n.left)
            &&& heap_ordered(n.right)
            &&& root_priority(n.left) <= n.priority
            &&& root_priority(n.right) <= n.priority
        },
    }
}

/// The shape of a subtree, with the key and the size counter at every
/// position; the priorities are left out.
spec fn frame<T>(v: Vertex<T>) -> Tree<(T, usize)>
    decreases v,
{
    match v {
        None => Tree::Empty,
        Some(n) => Tree::Fork(Box::new(frame(n.left)), (n.key, n.size), Box::new(frame(n.right))),
    }
}

/// The priorities of a subtree, each as often as a node carries it.
spec fn priority_bag<T>(v: Vertex<T>) -> Multiset<u64>
    decreases v,
{
    match v {
        None => Multiset::empty(),
        Some(n) => priority_bag(n.left).add(priority_bag(n.right)).insert(n.priority),
    }
}

/// A well-formed subtree is in heap order.
proof fn lemma_heap_ordered<T: Ord>(v: Vertex<T>)
    requires
        well_formed(v),
    ensures
        heap_ordered(v),
    decreases v,
{
    if let Some(n) = v {
        lemma_heap_ordered(n.left);
        lemma_heap_ordered(n.right);
        lemma_root_priority_is_highest(n.left);
        lemma_root_priority_is_highest(n.right);
    }
}

/// The highest of three priorities.
spec fn highest(a: u64, b: u64, c: u64) -> u64 {
    if a >= b && a >= c {
        a
    } else if b >= c {
        b
    } else {
        c
    }
}

/// Restores heap order in a subtree whose two subtrees are in heap order and
/// whose root may carry too low a priority: the root changes priorities with
/// its higher child for as long as that child's is the higher one. The shape
/// stays, and so does the key at every position; the priorities are the same,
/// each as often as before. Where all but the heap order at the root was as
/// in a well-formed subtree, the subtree is then well formed.
fn heapify<T: Ord>(v: &mut Vertex<T>)
    requires
        *old(v) matches Some(n) ==> heap_ordered(n.left) && heap_ordered(n.right),
    ensures
        heap_ordered(*final(v)),
        frame(*final(v)) == frame(*old(v)),
        priority_bag(*final(v)) == priority_bag(*old(v)),
        keys(*final(v)) == keys(*old(v)),
        priorities(*final(v)) == priorities(*old(v)),
        *old(v) matches Some(n) ==> root_priority(*final(v)) == highest(
            n.priority,
            root_priority(n.left),
            root_priority(n.right),
        ),
        *old(v) is None ==> *final(v) is None,
        well_formed_below_root(*old(v)) ==> well_formed(*final(v)),
    decreases keys(*old(v)).len(),
{
    if let Some(ref mut n) = v {
        let ghost before = **n;
        proof {
            if well_formed_below_root(Some(Box::new(before))) {
                lemma_root_priority_is_highest(before.left);
                lemma_root_priority_is_highest(before.right);
            }
        }
        let max = if get_priority(&n.left) < get_priority(&n.right) {
            &mut n.right
        } else {
            &mut n.left
        };
        let ghost lower = *max;
        if get_priority(max) > n.priority {
            std::mem::swap(&mut n.priority, &mut max.as_mut().unwrap().priority);
            proof {
                let now = *max;
                assert(priority_bag(now).insert(before.priority) =~= priority_bag(lower).insert(
                    before.priority,
                ).remove(lower->0.priority).insert(before.priority));
                assert(priority_bag(now).insert(lower->0.priority) =~= priority_bag(lower).insert(
                    before.priority,
                ));
                assert(priorities(now).insert(lower->0.priority) =~= priorities(lower).insert(
                    before.priority,
                ));
                assert(frame(now) == frame(lower));
                assert(keys(now) == keys(lower));
            }
            heapify(max);
        }
    }
}

/// Builds a subtree from keys in ascending order and as many priorities, all
/// different. The middle key becomes the root and is given the middle
/// priority; the two halves are built in the same way, and the priorities are
/// then moved into heap order.
fn build<T: Ord + Copy>(source: &[T], drawn: &[u64]) -> (built: Vertex<T>)
    requires
        total_order::<T>(),
        sorted(source@),
        source@.len() == drawn@.len(),
        drawn@.no_duplicates(),
    ensures
        well_formed(built),
        keys(built) == source@,
        frame(built) == balanced(source@),
        source@.len() == 0 <==> built is None,
        priorities(built) == drawn@.to_set(),
    decreases source@.len(),
{
    proof {
        lemma_total_order_is_preorder::<T>();
    }
    if !source.is_empty() {
        let mid = source.len() / 2;
        let mut n = Node::new(source[mid], drawn[mid]);
        let ghost low_keys = source@.subrange(0, mid as int);
        let ghost high_keys = source@.subrange(mid + 1, source@.len() as int);
        let ghost low_drawn = drawn@.subrange(0, mid as int);
        let ghost high_drawn = drawn@.subrange(mid + 1, drawn@.len() as int);
        proof {
            assert(source@ =~= low_keys.push(source@[mid as int]) + high_keys);
            assert(drawn@ =~= low_drawn.push(drawn@[mid as int]) + high_drawn);
            assert(low_keys.push(source@[mid as int]) =~= low_keys + seq![source@[mid as int]]);
            lemma_sorted_concat(low_keys + seq![source@[mid as int]], high_keys);
            lemma_sorted_concat(low_keys, seq![source@[mid as int]]);
            lemma_all_before_concat(low_keys, seq![source@[mid as int]], high_keys);
            lemma_all_before_single(low_keys, source@[mid as int]);
            lemma_all_before_single(high_keys, source@[mid as int]);
            lemma_distinct_parts(low_drawn, drawn@[mid as int], high_drawn);
        }
        n.left = build(&source[0..mid], &drawn[0..mid]);
        n.right = build(&source[mid + 1..source.len()], &drawn[mid + 1..drawn.len()]);
        n.size = size(&n.left) + 1 + size(&n.right);
        proof {
            lemma_heap_ordered(n.left);
            lemma_heap_ordered(n.right);
            assert(source@.len() / 2 == mid);
            assert(frame(Some(Box::new(n))) == balanced(source@));
        }
        let mut v = Some(Box::new(n));
        heapify(&mut v);
        v
    } else {
        assert(source@ =~= Seq::<T>::empty());
        assert(drawn@.to_set() =~= Set::<u64>::empty());
        None
    }
}

/// Where a sequence without repetitions is cut around one of its elements,
/// the two parts are without repetitions, share no element and do not hold
/// the element between them.
proof fn lemma_distinct_parts(a: Seq<u64>, x: u64, b: Seq<u64>)
    requires
        (a.push(x) + b).no_duplicates(),
    ensures
        a.no_duplicates(),
        b.no_duplicates(),
        a.to_set().disjoint(b.to_set()),
        !a.to_set().contains(x),
        !b.to_set().contains(x),
        (a.push(x) + b).to_set() == a.to_set().union(b.to_set()).insert(x),
{
    let s = a.push(x) + b;
    assert forall|i: int| 0 <= i < a.len() implies a[i] == #[trigger] s[i] by {}
    assert forall|i: int| 0 <= i < b.len() implies b[i] == #[trigger] s[a.len() + 1 + i] by {}
    assert(s[a.len() as int] == x);
    assert forall|i: int, j: int| 0 <= i < a.len() && 0 <= j < a.len() && i != j implies a[i]
        != a[j] by {
        assert(a[i] == s[i] && a[j] == s[j]);
    }
    assert forall|i: int, j: int| 0 <= i < b.len() && 0 <= j < b.len() && i != j implies b[i]
        != b[j] by {
        assert(b[i] == s[a.len() + 1 + i] && b[j] == s[a.len() + 1 + j]);
    }
    assert forall|p: u64| !(a.to_set().contains(p) && b.to_set().contains(p)) by {
        if a.contains(p) && b.contains(p) {
            let i = choose|i: int| 0 <= i < a.len() && a[i] == p;
            let j = choose|j: int| 0 <= j < b.len() && b[j] == p;
            assert(s[i] == s[a.len() + 1 + j]);
        }
    }
    if a.contains(x) {
        let i = choose|i: int| 0 <= i < a.len() && a[i] == x;
        assert(s[i] == s[a.len() as int]);
    }
    if b.contains(x) {
        let j = choose|j: int| 0 <= j < b.len() && b[j] == x;
        assert(s[a.len() + 1 + j] == s[a.len() as int]);
    }
    assert forall|p: u64| s.to_set().contains(p) <==> a.to_set().union(b.to_set()).insert(
        x,
    ).contains(p) by {
        if s.contains(p) {
            let i = choose|i: int| 0 <= i < s.len() && s[i] == p;
            if i < a.len() {
                assert(a[i] == p);
            } else if i > a.len() {
                assert(b[i - a.len() - 1] == p);
            }
        }
        if a.contains(p) {
            let i = choose|i: int| 0 <= i < a.len() && a[i] == p;
            assert(s[i] == p);
        }
        if b.contains(p) {
            let j = choose|j: int| 0 <= j < b.len() && b[j] == p;
            assert(s[a.len() + 1 + j] == p);
        }
    }
    assert(s.to_set() =~= a.to_set().union(b.to_set()).insert(x));
}

impl<T: Ord> Node<T> {
    /// A leaf with the given key and priority.
    fn new(key: T, priority: u64) -> (leaf: Self)
        ensures
            leaf.key == key,
            leaf.priority == priority,
            leaf.size == 1,
            leaf.left is None,
            leaf.right is None,
    {
        Node { key: key, priority: priority, size: 1, left: None, right: None }
    }
}

/// Draws a priority for a new node at random. Any `u64` may come back, one
/// that was drawn before included.
fn generate_random_priority() -> (priority: u64) {
    let mut generator = rand::thread_rng();
    next_u64(&mut generator)
}

/// Whether a node of the subtree carries the priority `wanted`. Subtrees
/// whose root lies below `wanted` are not entered.
fn holds_priority<T: Ord>(v: &Vertex<T>, wanted: u64) -> (found: bool)
    requires
        well_formed(*v),
    ensures
        found == priorities(*v).contains(wanted),
    decreases *v,
{
    match v {
        None => false,
        Some(n) => {
            if n.priority < wanted {
                false
            } else if n.priority == wanted {
                true
            } else {
                holds_priority(&n.left, wanted) || holds_priority(&n.right, wanted)
            }
        },
    }
}

/// Whether a node of the subtree holds the key `wanted`.
fn holds_key<T: Ord>(v: &Vertex<T>, wanted: &T) -> (found: bool)
    requires
        total_order::<T>(),
        well_formed(*v),
    ensures
        found == keys(*v).contains(*wanted),
    decreases *v,
{
    proof {
        lemma_total_order_is_preorder::<T>();
    }
    match v {
        None => false,
        Some(n) => {
            let ghost l = keys(n.left);
            let ghost r = keys(n.right);
            proof {
                lemma_operators(*wanted, n.key);
                if less_eq(*wanted, n.key) && less_eq(n.key, *wanted) {
                    lemma_antisymmetric(*wanted, n.key);
                }
                assert(l.push(n.key) =~= l + seq![n.key]);
                assert(keys(*v)[l.len() as int] == n.key);
                assert(seq![n.key][0] == n.key);
            }
            if *wanted < n.key {
                proof {
                    lemma_bounds_of_push(Seq::<T>::empty(), n.key, *wanted);
                    assert(seq![n.key] =~= Seq::<T>::empty().push(n.key));
                    lemma_bounds_widen(r, n.key, *wanted);
                    lemma_bounds_of_concat(seq![n.key], r, *wanted);
                    lemma_bounded_excludes(seq![n.key] + r, *wanted);
                    lemma_removal_on_the_left(l, seq![n.key] + r, *wanted);
                    assert(l + (seq![n.key] + r) =~= keys(*v));
                }
                holds_key(&n.left, wanted)
            } else if *wanted > n.key {
                proof {
                    lemma_bounds_of_push(l, n.key, *wanted);
                    lemma_bounds_widen(l, n.key, *wanted);
                    lemma_bounded_excludes(l.push(n.key), *wanted);
                    lemma_removal_on_the_right(l.push(n.key), r, *wanted);
                }
                holds_key(&n.right, wanted)
            } else {
                true
            }
        },
    }
}

/// Why a treap did not take a key.
#[derive(Clone, Copy, Debug, PartialEq, Eq, Structural)]
pub enum Refused {
    /// A node of the treap carries the priority of the new node already.
    EqualPriority,
    /// The treap holds as many keys as the machine can count.
    Full,
}

/// A treap of keys of type `T`. Its view is the sequence of its keys in
/// ascending order.
pub struct Treap<T> {
    root: Vertex<T>,
}

impl<T> View for Treap<T> {
    type V = Seq<T>;

    open spec fn view(&self) -> Seq<T> {
        self.in_order()
    }
}

impl<T> Treap<T> {
    /// The keys of the treap, read from left to right.
    pub closed spec fn in_order(&self) -> Seq<T> {
        keys(self.root)
    }

    /// The priorities that the nodes of the treap carry.
    pub closed spec fn priorities(&self) -> Set<u64> {
        priorities(self.root)
    }

    /// The pairs of key and priority of the nodes, read from left to right.
    /// In a well-formed treap they fix the shape: the pair with the highest
    /// priority stands at the root.
    pub closed spec fn entries(&self) -> Seq<(T, u64)> {
        entries(self.root)
    }

    /// The pair of key and priority at the root.
    pub closed spec fn root(&self) -> Option<(T, u64)> {
        root_entry(self.root)
    }

    /// The subtree to the left of the root, and the empty treap where there
    /// is no root.
    pub closed spec fn left(&self) -> Treap<T> {
        match self.root {
            None => Treap { root: None },
            Some(n) => Treap { root: n.left },
        }
    }

    /// The subtree to the right of the root, and the empty treap where there
    /// is no root.
    pub closed spec fn right(&self) -> Treap<T> {
        match self.root {
            None => Treap { root: None },
            Some(n) => Treap { root: n.right },
        }
    }

    /// The shape of the treap, with the key and the size counter at every
    /// position.
    pub closed spec fn frame(&self) -> Tree<(T, usize)> {
        frame(self.root)
    }

    /// The keys and the priorities of the treap are those of its pairs.
    pub proof fn lemma_entries(self)
        ensures
            self.entries().len() == self@.len(),
            self@ == keys_of(self.entries()),
            self.priorities() == priorities_of(self.entries()),
    {
        lemma_entries(self.root);
    }

    /// The treap is made of its root and the two subtrees beside it.
    pub proof fn lemma_parts(self)
        ensures
            self.root() is None <==> self.entries().len() == 0,
            self.root() is None ==> self.frame() == Tree::<(T, usize)>::Empty,
            self.root() matches Some(e) ==> {
                &&& self.entries() == self.left().entries().push(e) + self.right().entries()
                &&& self.frame() matches Tree::Fork(l, at, r)
                &&& *l == self.left().frame()
                &&& *r == self.right().frame()
                &&& at.0 == e.0
            },
    {
        lemma_entries(self.root);
    }
}

impl<T: Ord> Treap<T> {
    /// The invariants of a treap hold at every node: a node's left subtree
    /// holds no key that comes after the node's key and its right subtree
    /// none that comes before it; a node's priority is higher than that of
    /// every node below it, and no two nodes carry the same priority; a
    /// node's size counter is one more than the counters of its children
    /// together.
    pub closed spec fn well_formed(&self) -> bool {
        well_formed(self.root)
    }

    /// What being well formed means at the root: the two subtrees are well
    /// formed; no key to the left comes after the key at the root and none to
    /// the right before it; the priority at the root is higher than every
    /// other, and no priority is carried twice; the size counter at the root
    /// is the number of keys.
    pub proof fn lemma_well_formed(self)
        requires
            self.well_formed(),
        ensures
            self.left().well_formed(),
            self.right().well_formed(),
            priorities_differ(self.entries()),
            self.root() matches Some(e) ==> {
                &&& all_less_eq(self.left()@, e.0)
                &&& all_greater_eq(self.right()@, e.0)
                &&& forall|i: int|
                    0 <= i < self.entries().len() && i != self.left().entries().len() ==> (
                    #[trigger] self.entries()[i]).1 < e.1
                &&& self.frame() matches Tree::Fork(l, at, r) && at.1 == self@.len()
            },
    {
        lemma_entries_differ(self.root);
        lemma_entries(self.root);
    }

    /// Where the pair at the root stands at position `i` among the pairs of a
    /// well-formed treap, the pairs in front of it are those of the left
    /// subtree and the pairs behind it those of the right subtree.
    pub proof fn lemma_root_position(self, i: int)
        requires
            self.well_formed(),
            0 <= i < self.entries().len(),
            self.root() == Some(self.entries()[i]),
        ensures
            self.left().entries() == self.entries().take(i),
            self.right().entries() == self.entries().skip(i + 1),
    {
        lemma_entries_differ(self.root);
        lemma_entries(self.root);
        let all = self.entries();
        let at = self.left().entries().len() as int;
        assert(all[at] == self.root()->0);
        assert(self.left().entries() =~= all.take(at));
        assert(self.right().entries() =~= all.skip(at + 1));
    }

    /// Two well-formed treaps with the same pairs in the same order are the
    /// same treap, in shape and in what stands at every position.
    pub proof fn lemma_entries_fix_the_treap(self, other: Self)
        requires
            self.well_formed(),
            other.well_formed(),
            self.entries() == other.entries(),
        ensures
            self == other,
    {
        lemma_entries_fix_the_subtree(self.root, other.root);
    }

    /// A treap that was cut in two is, once the two parts are joined, the
    /// treap that it was: in its pairs, in its shape and in what stands at
    /// every position.
    pub proof fn lemma_split_then_merge(self, low: Self, high: Self, joined: Self)
        requires
            self.well_formed(),
            joined.well_formed(),
            low.entries() + high.entries() == self.entries(),
            joined.entries() == low.entries() + high.entries(),
        ensures
            joined == self,
    {
        self.lemma_entries_fix_the_treap(joined);
    }

    /// The empty treap.
    pub fn new() -> (empty: Self)
        ensures
            empty.well_formed(),
            empty@ == Seq::<T>::empty(),
            empty.entries() == Seq::<(T, u64)>::empty(),
            empty.root() is None,
            empty.priorities() == Set::<u64>::empty(),
    {
        Treap { root: None }
    }

    /// The number of keys in the treap.
    pub fn size(&self) -> (count: usize)
        requires
            self.well_formed(),
        ensures
            count == self@.len(),
    {
        size(&self.root)
    }

    /// Whether the treap holds `key`.
    pub fn search(&self, key: &T) -> (found: bool)
        requires
            total_order::<T>(),
            self.well_formed(),
        ensures
            found == self@.contains(*key),
    {
        holds_key(&self.root, key)
    }

    /// Whether a node of the treap carries `priority`.
    pub fn has_priority(&self, priority: u64) -> (found: bool)
        requires
            self.well_formed(),
        ensures
            found == self.priorities().contains(priority),
    {
        holds_priority(&self.root, priority)
    }

    /// Adds `target` in a node of the given priority, which no node of the
    /// treap carries yet. A key that the treap holds already is added once
    /// more.
    pub fn insert_with_priority(self, target: T, priority: u64) -> (grown: Self)
        requires
            total_order::<T>(),
            self.well_formed(),
            !self.priorities().contains(priority),
            self@.len() < usize::MAX,
        ensures
            grown.well_formed(),
            grown@ == insert_sorted(self@, target),
            grown@.len() == self@.len() + 1,
            grown.entries() == self.entries().insert(rank(self@, target) as int, (target, priority)),
            grown.root() == (if self.root() matches Some(e) && e.1 > priority {
                self.root()
            } else {
                Some((target, priority))
            }),
            self@.no_duplicates() && !self@.contains(target) ==> strictly_sorted(grown@),
            grown.root() == Some((target, priority)) ==> {
                &&& grown.left().entries() == self.entries().take(rank(self@, target) as int)
                &&& grown.right().entries() == self.entries().skip(rank(self@, target) as int)
                &&& grown.left()@ == not_after(self@, target)
                &&& grown.right()@ == after(self@, target)
            },
            grown.priorities() == self.priorities().insert(priority),
    {
        proof {
            lemma_total_order_is_preorder::<T>();
            lemma_insert_sorted_len(self@, target);
            lemma_keys_sorted(self.root);
            lemma_insert_sorted(self@, target);
            if self@.no_duplicates() && !self@.contains(target) {
                let grown = insert_sorted(self@, target);
                self@.lemma_multiset_has_no_duplicates();
                vstd::seq_lib::to_multiset_contains(self@, target);
                assert forall|x: T| grown.to_multiset().count(x) <= 1 by {}
                grown.lemma_multiset_has_no_duplicates_conv();
                lemma_strictly_sorted(grown);
            }
        }
        let mut treap = self;
        treap.root = insert(treap.root, Node::new(target, priority));
        proof {
            if treap.root() == Some((target, priority)) {
                let at = rank(self@, target) as int;
                lemma_rank(self@, Seq::<T>::empty(), target);
                lemma_entries(self.root);
                lemma_entries(treap.root);
                treap.lemma_root_position(at);
                lemma_entries(treap.left().root);
                lemma_entries(treap.right().root);
                assert(treap.entries().take(at) =~= self.entries().take(at));
                assert(treap.entries().skip(at + 1) =~= self.entries().skip(at));
                assert(treap.left()@ =~= self@.take(at));
                assert(treap.right()@ =~= self@.skip(at));
            }
        }
        treap
    }

    /// Adds `target` in a node of the given priority. Where a node of the
    /// treap carries that priority already, or the treap is as large as the
    /// machine allows, the insertion fails: the treap and the key come back
    /// as they were, with the reason.
    pub fn try_insert_with_priority(self, target: T, priority: u64) -> (outcome: Result<
        Self,
        (Refused, Self, T),
    >)
        requires
            total_order::<T>(),
            self.well_formed(),
        ensures
            outcome is Ok <==> !self.priorities().contains(priority) && self@.len() < usize::MAX,
            outcome matches Ok(grown) ==> grown.well_formed() && self.grown_with(
                target,
                priority,
                grown,
            ),
            outcome matches Err(back) ==> {
                &&& back.1 == self
                &&& back.2 == target
                &&& back.0 == (if self.priorities().contains(priority) {
                    Refused::EqualPriority
                } else {
                    Refused::Full
                })
            },
    {
        if self.has_priority(priority) {
            Err((Refused::EqualPriority, self, target))
        } else if self.size() == usize::MAX {
            Err((Refused::Full, self, target))
        } else {
            Ok(self.insert_with_priority(target, priority))
        }
    }

    /// Adds `target` in a node whose priority is drawn at random. Where a
    /// node of the treap carries the priority that was drawn already, or the
    /// treap is as large as the machine allows, the insertion fails: the
    /// treap and the key come back as they were, with the reason. An
    /// insertion into the empty treap does not fail.
    pub fn try_insert(self, target: T) -> (outcome: Result<Self, (Refused, Self, T)>)
        requires
            total_order::<T>(),
            self.well_formed(),
        ensures
            outcome matches Ok(grown) ==> grown.well_formed() && grown@ == insert_sorted(
                self@,
                target,
            ) && grown@.len() == self@.len() + 1 && exists|priority: u64|
                !self.priorities().contains(priority) && #[trigger] self.grown_with(
                    target,
                    priority,
                    grown,
                ),
            outcome matches Err(back) ==> back.1 == self && back.2 == target && (back.0
                == Refused::EqualPriority ==> self@.len() > 0),
            self@.len() == 0 ==> outcome is Ok,
    {
        let priority = generate_random_priority();
        proof {
            if self@.len() == 0 {
                assert(self.root is None);
                assert(self.priorities() =~= Set::<u64>::empty());
            }
        }
        self.try_insert_with_priority(target, priority)
    }

    /// Adds `target` in a node of the given priority, unless a node of the
    /// treap carries that priority already or the treap is as large as the
    /// machine allows: the treap then comes back as it was.
    pub fn insert_if_fresh(self, target: T, priority: u64) -> (grown: Self)
        requires
            total_order::<T>(),
            self.well_formed(),
        ensures
            grown.well_formed(),
            self.grown_with(target, priority, grown),
            self.priorities().contains(priority) || self@.len() >= usize::MAX ==> grown == self,
            !self.priorities().contains(priority) && self@.len() < usize::MAX ==> grown@
                == insert_sorted(self@, target) && grown@.len() == self@.len() + 1
                && grown.priorities() == self.priorities().insert(priority),
    {
        if self.size() == usize::MAX || self.has_priority(priority) {
            self
        } else {
            self.insert_with_priority(target, priority)
        }
    }

    /// What an insertion of `target` makes of the treap where `priority` is
    /// the priority that was drawn for the new node: the treap with the key
    /// in a node of that priority, and the treap as it was where a node
    /// carries that priority already or the treap is as large as the machine
    /// allows.
    pub open spec fn grown_with(self, target: T, priority: u64, grown: Self) -> bool {
        if self.priorities().contains(priority) || self@.len() >= usize::MAX {
            grown == self
        } else {
            &&& grown@ == insert_sorted(self@, target)
            &&& grown@.len() == self@.len() + 1
            &&& grown.entries() == self.entries().insert(
                rank(self@, target) as int,
                (target, priority),
            )
            &&& grown.root() == (if self.root() matches Some(e) && e.1 > priority {
                self.root()
            } else {
                Some((target, priority))
            })
            &&& grown.priorities() == self.priorities().insert(priority)
        }
    }

    /// Adds `target` in a node whose priority is drawn at random. Should the
    /// priority that was drawn be one that a node of the treap carries
    /// already, nothing is added; into the empty treap, which carries no
    /// priority, the key is added whatever is drawn.
    pub fn insert(self, target: T) -> (grown: Self)
        requires
            total_order::<T>(),
            self.well_formed(),
        ensures
            grown.well_formed(),
            exists|priority: u64| #[trigger] self.grown_with(target, priority, grown),
            self@.len() == 0 ==> grown@ == insert_sorted(self@, target) && grown@.len() == 1
                && grown.priorities().len() == 1,
            (grown@ == self@ && grown.priorities() == self.priorities()) || (grown@
                == insert_sorted(self@, target) && grown@.len() == self@.len() + 1
                && exists|priority: u64|
                !self.priorities().contains(priority) && #[trigger] grown.priorities()
                    == self.priorities().insert(priority)),
    {
        let priority = generate_random_priority();
        let grown = self.insert_if_fresh(target, priority);
        proof {
            assert(self.grown_with(target, priority, grown));
            if self@.len() == 0 {
                assert(self.root is None);
                assert(self.priorities() =~= Set::<u64>::empty());
                lemma_priorities_counted(grown.root);
            }
        }
        grown
    }

    /// Takes one occurrence of `target` out of the treap. A treap that does
    /// not hold `target` comes back as it was.
    pub fn delete(self, target: T) -> (rest: Self)
        requires
            total_order::<T>(),
            self.well_formed(),
        ensures
            rest.well_formed(),
            rest@ == self@.remove_value(target),
            self@.contains(target) ==> rest@.len() == self@.len() - 1,
            !self@.contains(target) ==> rest == self,
            self@.contains(target) ==> exists|i: int| #[trigger]
                heaviest_with(self.entries(), target, i) && rest.entries()
                    == self.entries().remove(i),
            !self@.contains(target) ==> rest@ == self@ && rest.priorities() == self.priorities(),
            self@.contains(target) ==> exists|priority: u64| #[trigger]
                self.priorities().contains(priority) && rest.priorities()
                    == self.priorities().remove(priority),
    {
        let mut treap = self;
        let rest = delete(treap.root, target);
        proof {
            lemma_removal_keeps_bounds(self@, target, target);
            if keys(self.root).contains(target) {
                let gone = choose|p: u64| #[trigger]
                    priorities(self.root).contains(p) && priorities(rest) == priorities(
                        self.root,
                    ).remove(p);
                assert(self.priorities().contains(gone));
                let at = choose|i: int| #[trigger]
                    heaviest_with(entries(self.root), target, i) && entries(rest) == entries(
                        self.root,
                    ).remove(i);
                assert(heaviest_with(self.entries(), target, at));
            }
        }
        treap.root = rest;
        treap
    }

    /// Cuts the treap in two at `target`: the first part takes the keys that
    /// do not come after `target`, the second those that come after it.
    pub fn split(self, target: &T) -> (parts: (Self, Self))
        requires
            total_order::<T>(),
            self.well_formed(),
        ensures
            parts.0.well_formed(),
            parts.1.well_formed(),
            parts.0@ == not_after(self@, *target),
            parts.1@ == after(self@, *target),
            parts.0@ + parts.1@ == self@,
            parts.0.entries() + parts.1.entries() == self.entries(),
            all_less_eq(parts.0@, *target),
            all_greater(parts.1@, *target),
            parts.0.priorities().union(parts.1.priorities()) == self.priorities(),
            parts.0.priorities().disjoint(parts.1.priorities()),
    {
        let (low, high) = split(self.root, target);
        proof {
            lemma_total_order_is_preorder::<T>();
            lemma_cut_at_rank(keys(low), keys(high), *target);
        }
        (Treap { root: low }, Treap { root: high })
    }

    /// Joins the treap with one that holds no key that comes before a key of
    /// this one and no priority that this one holds.
    pub fn merge(self, right: Self) -> (joined: Self)
        requires
            total_order::<T>(),
            self.well_formed(),
            right.well_formed(),
            all_before(self@, right@),
            self.priorities().disjoint(right.priorities()),
            self@.len() + right@.len() <= usize::MAX,
        ensures
            joined.well_formed(),
            joined@ == self@ + right@,
            joined.entries() == self.entries() + right.entries(),
            joined.root() == higher(right.root(), self.root()),
            joined.priorities() == self.priorities().union(right.priorities()),
    {
        proof {
            assert(right.priorities().contains(root_priority(right.root)) || right.root is None);
            assert(self.priorities().contains(root_priority(self.root)) || self.root is None);
        }
        Treap { root: merge(self.root, right.root) }
    }

    /// Unites the treap with one that shares no priority with it. The keys
    /// of the two may interleave; a key that both hold is kept from both.
    pub fn union(self, other: Self) -> (united: Self)
        requires
            total_order::<T>(),
            self.well_formed(),
            other.well_formed(),
            self.priorities().disjoint(other.priorities()),
            self@.len() + other@.len() <= usize::MAX,
        ensures
            united.well_formed(),
            sorted(united@),
            united@.to_multiset() == self@.to_multiset().add(other@.to_multiset()),
            united.entries().to_multiset() == self.entries().to_multiset().add(
                other.entries().to_multiset(),
            ),
            united.root() == higher(other.root(), self.root()),
            (self@ + other@).no_duplicates() ==> strictly_sorted(united@),
            united@.len() == self@.len() + other@.len(),
            united.priorities() == self.priorities().union(other.priorities()),
    {
        proof {
            assert(other.priorities().contains(root_priority(other.root)) || other.root is None);
            assert(self.priorities().contains(root_priority(self.root)) || self.root is None);
        }
        let united = union(self.root, other.root);
        proof {
            lemma_keys_sorted(united);
            lemma_bounds_of_combination(keys(united), self@, other@, arbitrary());
            if (self@ + other@).no_duplicates() {
                vstd::seq_lib::lemma_multiset_commutative(self@, other@);
                (self@ + other@).lemma_multiset_has_no_duplicates();
                keys(united).lemma_multiset_has_no_duplicates_conv();
                lemma_strictly_sorted(keys(united));
            }
        }
        Treap { root: united }
    }

    /// The keys of the treap in ascending order.
    pub fn keys(&self) -> (listed: Vec<&T>)
        ensures
            listed@.len() == self@.len(),
            forall|i: int| 0 <= i < listed@.len() ==> *(#[trigger] listed@[i]) == self@[i],
    {
        let mut listed: Vec<&T> = Vec::new();
        collect(&self.root, &mut listed);
        proof {
            assert forall|i: int| 0 <= i < listed@.len() implies *(#[trigger] listed@[i])
                == self@[i] by {
                assert(listed@[i] == listed@[0 + i]);
            }
        }
        listed
    }

    /// The least key, if the treap holds a key.
    pub fn min(&self) -> (least: Option<&T>)
        requires
            total_order::<T>(),
            self.well_formed(),
        ensures
            self@.len() == 0 ==> least is None,
            self@.len() > 0 ==> least == Some(&self@.first()),
            least matches Some(m) ==> all_greater_eq(self@, *m),
    {
        proof {
            lemma_total_order_is_preorder::<T>();
            lemma_keys_sorted(self.root);
            if self@.len() > 0 {
                lemma_less_eq_refl(self@[0]);
            }
        }
        match &self.root {
            Some(n) => Some(leftmost_key(n)),
            None => None,
        }
    }

    /// The greatest key, if the treap holds a key.
    pub fn max(&self) -> (greatest: Option<&T>)
        requires
            total_order::<T>(),
            self.well_formed(),
        ensures
            self@.len() == 0 ==> greatest is None,
            self@.len() > 0 ==> greatest == Some(&self@.last()),
            greatest matches Some(m) ==> all_less_eq(self@, *m),
    {
        proof {
            lemma_total_order_is_preorder::<T>();
            lemma_keys_sorted(self.root);
            if self@.len() > 0 {
                lemma_less_eq_refl(self@.last());
            }
        }
        match &self.root {
            Some(n) => Some(rightmost_key(n)),
            None => None,
        }
    }

    /// Whether at every node the key comes after the key of the left child
    /// and not after that of the right child, and the priority is higher than
    /// those of both children.
    pub closed spec fn ordered_at_every_node(&self) -> bool {
        ordered_at_every_node(self.root)
    }

    /// Compares every node with its children, the keys and the priorities.
    pub fn is_ordered(&self) -> (ok: bool)
        requires
            total_order::<T>(),
        ensures
            ok == self.ordered_at_every_node(),
    {
        ordered_below(&self.root)
    }

    /// In a well-formed treap without repeated keys every node is in order
    /// with its children.
    pub proof fn lemma_ordered_at_every_node(self)
        requires
            total_order::<T>(),
            self.well_formed(),
            self@.no_duplicates(),
        ensures
            self.ordered_at_every_node(),
    {
        lemma_ordered(self.root);
    }

    /// The keys of a well-formed treap are in ascending order.
    pub proof fn lemma_sorted(self)
        requires
            total_order::<T>(),
            self.well_formed(),
        ensures
            sorted(self@),
    {
        lemma_keys_sorted(self.root);
    }

    /// A well-formed treap carries as many priorities as it holds keys, so
    /// that no two nodes carry the same, and it holds no more keys than the
    /// machine can count.
    pub proof fn lemma_priorities_differ(self)
        requires
            self.well_formed(),
        ensures
            self.priorities().finite(),
            self.priorities().len() == self@.len(),
            self@.len() <= usize::MAX,
    {
        lemma_priorities_counted(self.root);
    }
}

impl<T: Ord + Copy> Treap<T> {
    /// A treap of the keys of `source`, which are in ascending order, with
    /// the priorities of `drawn`, which are all different.
    pub fn from_with_priorities(source: &[T], drawn: &[u64]) -> (built: Self)
        requires
            total_order::<T>(),
            sorted(source@),
            source@.len() == drawn@.len(),
            drawn@.no_duplicates(),
        ensures
            built.well_formed(),
            built@ == source@,
            built.frame() == balanced(source@),
            source@.len() > 0 ==> (built.root() matches Some(e) && e.0 == source@[
                source@.len() as int / 2]),
            built.priorities() == drawn@.to_set(),
    {
        proof {
            if source@.len() > 0 {
                assert(balanced(source@) is Fork);
            }
        }
        Treap { root: build(source, drawn) }
    }

    /// A treap of the keys of `source`, which are in ascending order, with
    /// the priorities of `drawn`. Where `drawn` does not hold one priority
    /// for each key, or holds one twice, the treap is empty.
    pub fn from_if_distinct(source: &[T], drawn: &[u64]) -> (built: Self)
        requires
            total_order::<T>(),
            sorted(source@),
        ensures
            built.well_formed(),
            source@.len() == drawn@.len() && drawn@.no_duplicates() ==> built@ == source@
                && built.frame() == balanced(source@) && built.priorities() == drawn@.to_set(),
            !(source@.len() == drawn@.len() && drawn@.no_duplicates()) ==> built@ == Seq::<
                T,
            >::empty() && built.priorities() == Set::<u64>::empty(),
    {
        if source.len() == drawn.len() && all_different(drawn) {
            Treap::from_with_priorities(source, drawn)
        } else {
            Treap::new()
        }
    }

    /// What is built from the keys of `source` where `given` holds the
    /// priorities of the nodes, one for each key and all different: the treap
    /// of these keys with these priorities.
    pub open spec fn built_with(source: Seq<T>, given: Seq<u64>, built: Self) -> bool {
        &&& given.len() == source.len()
        &&& given.no_duplicates()
        &&& built@ == source
        &&& built.frame() == balanced(source)
        &&& built.priorities() == given.to_set()
    }

    /// A treap of the keys of `source`, which are in ascending order, with
    /// priorities drawn at random, one for each key. Should a priority be
    /// drawn twice, the priorities 0, 1, 2 and so on are taken in their
    /// place, which all differ.
    pub fn from(source: &[T]) -> (built: Self)
        requires
            total_order::<T>(),
            sorted(source@),
        ensures
            built.well_formed(),
            built@ == source@,
            built.frame() == balanced(source@),
            built.priorities().finite(),
            built.priorities().len() == source@.len(),
            exists|given: Seq<u64>| #[trigger] Self::built_with(source@, given, built),
    {
        let drawn = draw_priorities(source.len());
        let built = if all_different(drawn.as_slice()) {
            let built = Treap::from_with_priorities(source, drawn.as_slice());
            proof {
                assert(Self::built_with(source@, drawn@, built));
            }
            built
        } else {
            let counted = count_up(source.len());
            let built = Treap::from_with_priorities(source, counted.as_slice());
            proof {
                assert(Self::built_with(source@, counted@, built));
            }
            built
        };
        proof {
            lemma_priorities_counted(built.root);
        }
        built
    }
}

/// The priorities 0, 1, 2 and so on, `count` of them.
fn count_up(count: usize) -> (counted: Vec<u64>)
    ensures
        counted@.len() == count,
        counted@.no_duplicates(),
        forall|i: int| 0 <= i < count ==> counted@[i] == i,
{
    let mut counted: Vec<u64> = Vec::new();
    let mut i: usize = 0;
    while i < count
        invariant
            i <= count,
            counted@.len() == i,
            forall|k: int| 0 <= k < i ==> counted@[k] == k,
        decreases count - i,
    {
        counted.push(i as u64);
        i += 1;
    }
    counted
}

/// Draws `count` priorities.
fn draw_priorities(count: usize) -> (drawn: Vec<u64>)
    ensures
        drawn@.len() == count,
{
    let mut drawn: Vec<u64> = Vec::new();
    let mut i: usize = 0;
    while i < count
        invariant
            i <= count,
            drawn@.len() == i,
        decreases count - i,
    {
        drawn.push(generate_random_priority());
        i += 1;
    }
    drawn
}

/// Whether no priority occurs twice in `drawn`.
fn all_different(drawn: &[u64]) -> (ok: bool)
    ensures
        ok == drawn@.no_duplicates(),
{
    broadcast use vstd::std_specs::hash::group_hash_axioms;

    let mut seen: HashSet<u64> = HashSet::new();
    let mut i: usize = 0;
    while i < drawn.len()
        invariant
            i <= drawn.len(),
            seen@ == drawn@.take(i as int).to_set(),
            drawn@.take(i as int).no_duplicates(),
        decreases drawn.len() - i,
    {
        let ghost front = drawn@.take(i as int);
        if !seen.insert(drawn[i]) {
            proof {
                let j = choose|j: int| 0 <= j < front.len() && front[j] == drawn@[i as int];
                assert(drawn@[j] == drawn@[i as int]);
            }
            return false;
        }
        proof {
            let longer = drawn@.take(i + 1);
            assert(longer =~= front.push(drawn@[i as int]));
            assert(longer.to_set() =~= front.to_set().insert(drawn@[i as int])) by {
                assert forall|p: u64| longer.to_set().contains(p) <==> front.to_set().insert(
                    drawn@[i as int],
                ).contains(p) by {
                    if longer.contains(p) {
                        let j = choose|j: int| 0 <= j < longer.len() && longer[j] == p;
                        if j < front.len() {
                            assert(front[j] == p);
                        }
                    }
                    if front.contains(p) {
                        let j = choose|j: int| 0 <= j < front.len() && front[j] == p;
                        assert(longer[j] == p);
                    }
                    assert(longer[i as int] == drawn@[i as int]);
                }
            }
            assert forall|a: int, b: int|
                0 <= a < longer.len() && 0 <= b < longer.len() && a != b implies longer[a]
                != longer[b] by {
                if a < front.len() && b < front.len() {
                    assert(front[a] != front[b]);
                } else if a < front.len() {
                    assert(front.contains(front[a]));
                } else if b < front.len() {
                    assert(front.contains(front[b]));
                }
            }
        }
        i += 1;
    }
    assert(drawn@.take(i as int) =~= drawn@);
    true
}

/// The key of the leftmost node below `n`, which is the first in order.
fn leftmost_key<T>(n: &Node<T>) -> (least: &T)
    ensures
        *least == keys(Some(Box::new(*n))).first(),
    decreases *n,
{
    proof {
        let all = keys(Some(Box::new(*n)));
        assert(all =~= keys(n.left).push(n.key) + keys(n.right));
        if n.left is Some {
            let below = n.left->0;
            assert(keys(n.left) =~= keys(below.left).push(below.key) + keys(below.right));
            assert(all[0] == keys(n.left)[0]);
        } else {
            assert(keys(n.left) =~= Seq::<T>::empty());
            assert(all[0] == n.key);
        }
    }
    match &n.left {
        Some(below) => leftmost_key(below),
        None => &n.key,
    }
}

/// The key of the rightmost node below `n`, which is the last in order.
fn rightmost_key<T>(n: &Node<T>) -> (greatest: &T)
    ensures
        *greatest == keys(Some(Box::new(*n))).last(),
    decreases *n,
{
    proof {
        let all = keys(Some(Box::new(*n)));
        assert(all =~= keys(n.left).push(n.key) + keys(n.right));
        if n.right is Some {
            let below = n.right->0;
            assert(keys(n.right) =~= keys(below.left).push(below.key) + keys(below.right));
            assert(all.last() == keys(n.right).last());
        } else {
            assert(keys(n.right) =~= Seq::<T>::empty());
            assert(all.last() == n.key);
        }
    }
    match &n.right {
        Some(below) => rightmost_key(below),
        None => &n.key,
    }
}

/// Appends the keys of a subtree to `listed`, from left to right.
fn collect<'a, T>(v: &'a Vertex<T>, listed: &mut Vec<&'a T>)
    ensures
        final(listed)@.len() == old(listed)@.len() + keys(*v).len(),
        forall|i: int| 0 <= i < old(listed)@.len() ==> final(listed)@[i] == old(listed)@[i],
        forall|i: int|
            0 <= i < keys(*v).len() ==> *(#[trigger] final(listed)@[old(listed)@.len() + i])
                == keys(*v)[i],
    decreases *v,
{
    if let Some(n) = v {
        let ghost start = listed@;
        collect(&n.left, listed);
        let ghost middle = listed@;
        listed.push(&n.key);
        let ghost pushed = listed@;
        collect(&n.right, listed);
        proof {
            let l = keys(n.left);
            let r = keys(n.right);
            assert forall|i: int| 0 <= i < keys(*v).len() implies *(#[trigger] listed@[start.len()
                + i]) == keys(*v)[i] by {
                if i < l.len() {
                    assert(listed@[start.len() + i] == pushed[start.len() + i]);
                    assert(pushed[start.len() + i] == middle[start.len() + i]);
                } else if i == l.len() {
                    assert(listed@[start.len() + i] == pushed[start.len() + i]);
                } else {
                    assert(listed@[start.len() + i] == listed@[pushed.len() + (i - l.len() - 1)]);
                }
            }
        }
    }
}

/// Whether at every node of the subtree the key comes after the key of the
/// left child and not after that of the right child, and the priority is
/// higher than those of both children.
spec fn ordered_at_every_node<T: Ord>(v: Vertex<T>) -> bool
    decreases v,
{
    match v {
        None => true,
        Some(n) => {
            &&& n.left matches Some(l) ==> less(l.key, n.key) && l.priority < n.priority
            &&& n.right matches Some(r) ==> less_eq(n.key, r.key) && r.priority < n.priority
            &&& ordered_at_every_node(n.left)
            &&& ordered_at_every_node(n.right)
        },
    }
}

/// Compares every node of the subtree with its children.
fn ordered_below<T: Ord>(v: &Vertex<T>) -> (ok: bool)
    requires
        total_order::<T>(),
    ensures
        ok == ordered_at_every_node(*v),
    decreases *v,
{
    proof {
        lemma_total_order_is_preorder::<T>();
    }
    if let Some(n) = v {
        let left_ok = match &n.left {
            Some(l) => {
                proof {
                    lemma_operators(n.key, l.key);
                }
                n.key > l.key && n.priority > l.priority
            },
            None => true,
        };
        let right_ok = match &n.right {
            Some(r) => {
                proof {
                    lemma_operators(n.key, r.key);
                }
                n.key <= r.key && n.priority > r.priority
            },
            None => true,
        };
        if left_ok && right_ok {
            ordered_below(&n.left) && ordered_below(&n.right)
        } else {
            false
        }
    } else {
        true
    }
}

/// In a well-formed subtree without repeated keys every node is in order with
/// its children.
proof fn lemma_ordered<T: Ord>(v: Vertex<T>)
    requires
        total_order::<T>(),
        well_formed(v),
        keys(v).no_duplicates(),
    ensures
        ordered_at_every_node(v),
    decreases v,
{
    if let Some(n) = v {
        let l = keys(n.left);
        let r = keys(n.right);
        let all = keys(v);
        assert forall|i: int| 0 <= i < l.len() implies l[i] == #[trigger] all[i] by {}
        assert forall|i: int| 0 <= i < r.len() implies r[i] == #[trigger] all[l.len() + 1 + i] by {}
        assert(all[l.len() as int] == n.key);
        assert forall|i: int, j: int| 0 <= i < l.len() && 0 <= j < l.len() && i != j implies l[i]
            != l[j] by {
            assert(l[i] == all[i] && l[j] == all[j]);
        }
        assert forall|i: int, j: int| 0 <= i < r.len() && 0 <= j < r.len() && i != j implies r[i]
            != r[j] by {
            assert(r[i] == all[l.len() + 1 + i] && r[j] == all[l.len() + 1 + j]);
        }
        lemma_ordered(n.left);
        lemma_ordered(n.right);
        if let Some(c) = n.left {
            let at = keys(c.left).len() as int;
            assert(l[at] == c.key);
            assert(all[at] == c.key);
            assert(less_eq(l[at], n.key));
            lemma_less_eq_cases(c.key, n.key);
            assert(priorities(n.left).contains(c.priority));
        }
        if let Some(c) = n.right {
            let at = keys(c.left).len() as int;
            assert(r[at] == c.key);
            assert(less_eq(n.key, r[at]));
            assert(priorities(n.right).contains(c.priority));
        }
    }
}

} // verus!
