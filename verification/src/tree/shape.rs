//! The shape of a binary search tree without balancing, as a mathematical
//! value: which key sits where. The operations of the tree are defined on the
//! shape, and the lemmas say what they do to the keys read in order.

use vstd::prelude::*;
use crate::order::{
    lemma_antisymmetric, lemma_operators, lemma_total_order_is_preorder, less, less_eq,
    total_order,
};
use crate::ordered_seq::{
    all_greater_eq, all_less_eq, insert_sorted, lemma_all_before_across,
    lemma_all_before_concat, lemma_all_before_single, lemma_bounded_excludes,
    lemma_bounds_of_concat, lemma_bounds_of_insert_sorted, lemma_bounds_of_push,
    lemma_bounds_widen, lemma_insert_into_run, lemma_insert_sorted_at_cut,
    lemma_insert_sorted_right, lemma_removal_keeps_bounds, lemma_removal_on_the_left,
    lemma_removal_on_the_right, lemma_remove_value_at, lemma_sorted_concat, sorted,
};

verus! {

/// A binary tree of keys.
pub enum Tree<T> {
    Empty,
    Fork(Box<Tree<T>>, T, Box<Tree<T>>),
}

impl<T> Tree<T> {
    /// The keys from left to right.
    pub open spec fn in_order(self) -> Seq<T>
        decreases self,
    {
        match self {
            Tree::Empty => Seq::empty(),
            Tree::Fork(left, key, right) => left.in_order().push(key) + right.in_order(),
        }
    }

    /// The number of nodes on the longest way from the root down.
    pub open spec fn height(self) -> nat
        decreases self,
    {
        match self {
            Tree::Empty => 0,
            Tree::Fork(left, key, right) => if left.height() < right.height() {
                right.height() + 1
            } else {
                left.height() + 1
            },
        }
    }

    /// The tree without its leftmost node, whose right subtree takes its place.
    pub open spec fn without_first(self) -> Tree<T>
        decreases self,
    {
        match self {
            Tree::Empty => Tree::Empty,
            Tree::Fork(left, key, right) => if *left is Empty {
                *right
            } else {
                Tree::Fork(Box::new(left.without_first()), key, right)
            },
        }
    }

    /// The subtree at the leftmost node.
    pub open spec fn leftmost(self) -> Tree<T>
        decreases self,
    {
        match self {
            Tree::Empty => Tree::Empty,
            Tree::Fork(left, key, right) => if *left is Empty {
                self
            } else {
                left.leftmost()
            },
        }
    }
}

impl<T: PartialOrd> Tree<T> {
    /// Search-tree order: at every node, no key of the left subtree comes
    /// after the node's key and no key of the right subtree before it.
    pub open spec fn ordered(self) -> bool
        decreases self,
    {
        match self {
            Tree::Empty => true,
            Tree::Fork(left, key, right) => {
                &&& left.ordered()
                &&& right.ordered()
                &&& all_less_eq(left.in_order(), key)
                &&& all_greater_eq(right.in_order(), key)
            },
        }
    }

    /// The tree with `key` in a new leaf. The way down goes right at a node
    /// whose key comes before `key`, and left at any other.
    pub open spec fn inserted(self, key: T) -> Tree<T>
        decreases self,
    {
        match self {
            Tree::Empty => Tree::Fork(Box::new(Tree::Empty), key, Box::new(Tree::Empty)),
            Tree::Fork(left, at, right) => if less(at, key) {
                Tree::Fork(left, at, Box::new(right.inserted(key)))
            } else {
                Tree::Fork(Box::new(left.inserted(key)), at, right)
            },
        }
    }

    /// The subtree at the first node with the key `key` that the search for
    /// `key` meets, and the empty tree where it meets none.
    pub open spec fn found(self, key: T) -> Tree<T>
        decreases self,
    {
        match self {
            Tree::Empty => Tree::Empty,
            Tree::Fork(left, at, right) => if less(at, key) {
                right.found(key)
            } else if less(key, at) {
                left.found(key)
            } else {
                self
            },
        }
    }

    /// The tree without the first node with the key `key` that the search for
    /// `key` meets. A node with one subtree is replaced by that subtree. A
    /// node with two takes the key of the leftmost node of its right subtree,
    /// and that node goes.
    pub open spec fn without(self, key: T) -> Tree<T>
        decreases self,
    {
        match self {
            Tree::Empty => Tree::Empty,
            Tree::Fork(left, at, right) => if less(at, key) {
                Tree::Fork(left, at, Box::new(right.without(key)))
            } else if less(key, at) {
                Tree::Fork(Box::new(left.without(key)), at, right)
            } else if *left is Empty {
                *right
            } else if *right is Empty {
                *left
            } else {
                Tree::Fork(left, right.in_order().first(), Box::new(right.without_first()))
            },
        }
    }
}

/// The tree that has the middle element of `s` at its root, with the number of
/// elements of `s` beside it, and in which the elements in front of the middle
/// one and those behind it are laid out in the same way to the left and to the
/// right.
pub open spec fn balanced<T>(s: Seq<T>) -> Tree<(T, usize)>
    decreases s.len(),
{
    if s.len() == 0 {
        Tree::Empty
    } else {
        Tree::Fork(
            Box::new(balanced(s.subrange(0, (s.len() / 2) as int))),
            (s[(s.len() / 2) as int], s.len() as usize),
            Box::new(balanced(s.subrange((s.len() / 2) as int + 1, s.len() as int))),
        )
    }
}

/// A tree has as many keys at least as it is high, and a tree that is not
/// empty has a key and a height.
pub proof fn lemma_height<T>(t: Tree<T>)
    ensures
        t.height() <= t.in_order().len(),
        t is Empty <==> t.in_order().len() == 0,
        t is Empty <==> t.height() == 0,
    decreases t,
{
    match t {
        Tree::Empty => {},
        Tree::Fork(left, key, right) => {
            lemma_height(*left);
            lemma_height(*right);
        },
    }
}

/// The keys of an ordered tree read in ascending order.
pub proof fn lemma_in_order_sorted<T: PartialOrd>(t: Tree<T>)
    requires
        crate::order::total_preorder::<T>(),
        t.ordered(),
    ensures
        sorted(t.in_order()),
    decreases t,
{
    match t {
        Tree::Empty => {},
        Tree::Fork(left, key, right) => {
            lemma_in_order_sorted(*left);
            lemma_in_order_sorted(*right);
            let l = left.in_order();
            let r = right.in_order();
            let k = seq![key];
            assert(l.push(key) =~= l + k);
            lemma_all_before_single(l, key);
            lemma_all_before_single(r, key);
            lemma_all_before_across(l, r, key);
            lemma_sorted_concat(l, k);
            lemma_all_before_concat(l, k, r);
            lemma_sorted_concat(l + k, r);
        },
    }
}

/// The leftmost node holds the first key and has no left subtree; the tree
/// without it holds the remaining keys and is ordered if the tree was.
pub proof fn lemma_without_first<T: PartialOrd>(t: Tree<T>)
    requires
        !(t is Empty),
    ensures
        t.leftmost() matches Tree::Fork(left, key, right) && *left is Empty && key
            == t.in_order().first(),
        t.without_first().in_order() == t.in_order().drop_first(),
        t.ordered() ==> t.without_first().ordered(),
        t.without_first().height() <= t.height(),
    decreases t,
{
    match t {
        Tree::Empty => {},
        Tree::Fork(left, key, right) => {
            let l = left.in_order();
            let r = right.in_order();
            lemma_height(*left);
            if *left is Empty {
                assert(t.in_order().drop_first() =~= r);
            } else {
                lemma_without_first(*left);
                assert(t.in_order().first() == l.first());
                assert(l.drop_first().push(key) + r =~= t.in_order().drop_first());
                if t.ordered() {
                    assert forall|i: int| 0 <= i < l.drop_first().len() implies less_eq(
                        #[trigger] l.drop_first()[i],
                        key,
                    ) by {
                        assert(l.drop_first()[i] == l[i + 1]);
                    }
                }
            }
        },
    }
}

/// An insertion adds one key.
pub proof fn lemma_inserted_len<T: PartialOrd>(t: Tree<T>, key: T)
    ensures
        t.inserted(key).in_order().len() == t.in_order().len() + 1,
        t.inserted(key).height() <= t.height() + 1,
    decreases t,
{
    match t {
        Tree::Empty => {},
        Tree::Fork(left, at, right) => {
            lemma_inserted_len(*left, key);
            lemma_inserted_len(*right, key);
        },
    }
}

/// An insertion into an ordered tree gives an ordered tree whose keys are
/// those of the tree with the new key among them, in ascending order.
pub proof fn lemma_inserted<T: Ord>(t: Tree<T>, key: T)
    requires
        total_order::<T>(),
        t.ordered(),
    ensures
        t.inserted(key).ordered(),
        t.inserted(key).in_order() == insert_sorted(t.in_order(), key),
    decreases t,
{
    lemma_total_order_is_preorder::<T>();
    match t {
        Tree::Empty => {
            lemma_insert_sorted_at_cut(Seq::<T>::empty(), Seq::<T>::empty(), key);
            assert(Tree::<T>::Empty.in_order() =~= Seq::<T>::empty());
            assert(t.inserted(key).in_order() =~= Seq::<T>::empty().push(key) + Seq::<T>::empty());
        },
        Tree::Fork(left, at, right) => {
            let l = left.in_order();
            let r = right.in_order();
            lemma_operators(at, key);
            lemma_in_order_sorted(t);
            if less(at, key) {
                lemma_inserted(*right, key);
                lemma_bounds_of_insert_sorted(r, key, at);
                lemma_bounds_of_push(l, at, key);
                lemma_bounds_widen(l, at, key);
                lemma_insert_sorted_right(l.push(at), r, key);
            } else {
                lemma_inserted(*left, key);
                lemma_bounds_of_insert_sorted(l, key, at);
                lemma_in_order_sorted(*left);
                lemma_in_order_sorted(*right);
                let rest = seq![at] + r;
                assert(l.push(at) + r =~= l + rest);
                assert(seq![at] =~= Seq::<T>::empty().push(at));
                lemma_bounds_of_push(Seq::<T>::empty(), at, key);
                lemma_bounds_widen(r, at, key);
                lemma_bounds_of_concat(seq![at], r, key);
                lemma_all_before_single(r, at);
                lemma_sorted_concat(seq![at], r);
                lemma_all_before_across(l, r, at);
                lemma_all_before_single(l, at);
                lemma_all_before_concat(l, seq![at], r);
                lemma_insert_into_run(l, rest, key);
                assert(insert_sorted(l, key) + rest =~= insert_sorted(l, key).push(at) + r);
            }
        },
    }
}

/// A removal takes one key away or none, and does not make the tree higher.
pub proof fn lemma_without_len<T: PartialOrd>(t: Tree<T>, key: T)
    ensures
        t.without(key).in_order().len() <= t.in_order().len(),
        t.in_order().len() <= t.without(key).in_order().len() + 1,
    decreases t,
{
    match t {
        Tree::Empty => {},
        Tree::Fork(left, at, right) => {
            lemma_without_len(*left, key);
            lemma_without_len(*right, key);
            lemma_height(*left);
            lemma_height(*right);
            if !(*right is Empty) {
                lemma_without_first(*right);
            }
        },
    }
}

/// The search finds a node exactly when the key occurs in the tree, and the
/// node that it finds holds the key.
pub proof fn lemma_found<T: Ord>(t: Tree<T>, key: T)
    requires
        total_order::<T>(),
        t.ordered(),
    ensures
        t.found(key) is Empty <==> !t.in_order().contains(key),
        t.found(key) matches Tree::Fork(left, at, right) ==> at == key,
    decreases t,
{
    lemma_total_order_is_preorder::<T>();
    match t {
        Tree::Empty => {},
        Tree::Fork(left, at, right) => {
            let l = left.in_order();
            let r = right.in_order();
            lemma_operators(at, key);
            lemma_operators(key, at);
            assert(l.push(at) =~= l + seq![at]);
            assert(seq![at] =~= Seq::<T>::empty().push(at));
            if less(at, key) {
                lemma_found(*right, key);
                lemma_bounds_of_push(l, at, key);
                lemma_bounds_widen(l, at, key);
                lemma_bounded_excludes(l.push(at), key);
                lemma_removal_on_the_right(l.push(at), r, key);
            } else if less(key, at) {
                lemma_found(*left, key);
                lemma_bounds_of_push(Seq::<T>::empty(), at, key);
                lemma_bounds_widen(r, at, key);
                lemma_bounds_of_concat(seq![at], r, key);
                lemma_bounded_excludes(seq![at] + r, key);
                lemma_removal_on_the_left(l, seq![at] + r, key);
                assert(l + (seq![at] + r) =~= t.in_order());
            } else {
                lemma_antisymmetric(at, key);
                assert(t.in_order()[l.len() as int] == key);
            }
        },
    }
}

/// A removal from an ordered tree gives an ordered tree whose keys are those
/// of the tree without one occurrence of the key.
pub proof fn lemma_without<T: Ord>(t: Tree<T>, key: T)
    requires
        total_order::<T>(),
        t.ordered(),
    ensures
        t.without(key).ordered(),
        t.without(key).in_order() == t.in_order().remove_value(key),
        t.without(key).in_order().len() <= t.in_order().len(),
    decreases t,
{
    lemma_total_order_is_preorder::<T>();
    match t {
        Tree::Empty => {
            t.in_order().index_of_first_ensures(key);
        },
        Tree::Fork(left, at, right) => {
            let l = left.in_order();
            let r = right.in_order();
            let all = t.in_order();
            lemma_operators(at, key);
            lemma_operators(key, at);
            assert(l.push(at) =~= l + seq![at]);
            assert(seq![at] =~= Seq::<T>::empty().push(at));
            lemma_in_order_sorted(t);
            lemma_removal_keeps_bounds(all, key, key);
            if less(at, key) {
                lemma_without(*right, key);
                lemma_bounds_of_push(l, at, key);
                lemma_bounds_widen(l, at, key);
                lemma_bounded_excludes(l.push(at), key);
                lemma_removal_on_the_right(l.push(at), r, key);
                lemma_removal_keeps_bounds(r, key, at);
            } else if less(key, at) {
                lemma_without(*left, key);
                lemma_bounds_of_push(Seq::<T>::empty(), at, key);
                lemma_bounds_widen(r, at, key);
                lemma_bounds_of_concat(seq![at], r, key);
                lemma_bounded_excludes(seq![at] + r, key);
                lemma_removal_on_the_left(l, seq![at] + r, key);
                assert(l + (seq![at] + r) =~= all);
                assert(l.remove_value(key) + (seq![at] + r) =~= l.remove_value(key).push(at) + r);
                lemma_removal_keeps_bounds(l, key, at);
            } else {
                lemma_antisymmetric(at, key);
                assert(all[l.len() as int] == key);
                lemma_remove_value_at(all, l.len() as int);
                assert(all.remove(l.len() as int) =~= l + r);
                lemma_height(*left);
                lemma_height(*right);
                if *left is Empty {
                    assert(l + r =~= r);
                } else if *right is Empty {
                    assert(l + r =~= l);
                } else {
                    lemma_without_first(*right);
                    lemma_in_order_sorted(*right);
                    let first = r.first();
                    assert(l.push(first) + r.drop_first() =~= l + r);
                    assert(less_eq(at, r[0]));
                    lemma_bounds_widen(l, at, first);
                    assert forall|i: int| 0 <= i < r.drop_first().len() implies less_eq(
                        first,
                        #[trigger] r.drop_first()[i],
                    ) by {
                        assert(r.drop_first()[i] == r[i + 1]);
                    }
                }
            }
        },
    }
}

} // verus!
