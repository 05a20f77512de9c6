//! A binary search tree without balancing. Keys that compare equal may be
//! stored more than once; an insertion puts the new key to the left of its
//! equals.

use vstd::prelude::*;
use crate::order::{
    lemma_equality, lemma_less_eq_cases, lemma_operators, lemma_total_order_is_preorder,
    total_order,
};
use crate::ordered_seq::{
    all_greater_eq, all_less_eq, insert_sorted, lemma_insert_sorted_len, sorted,
};
use crate::tree::shape::{
    lemma_found, lemma_height, lemma_in_order_sorted, lemma_inserted, lemma_inserted_len,
    lemma_without, lemma_without_first, lemma_without_len, Tree,
};

verus! {

struct Node<T: Ord + Copy> {
    data: T,
    size: usize,
    left: Option<Box<Node<T>>>,
    right: Option<Box<Node<T>>>,
}

/// The shape of a subtree.
spec fn shape_of<T: Ord + Copy>(node: Option<Box<Node<T>>>) -> Tree<T>
    decreases node,
{
    match node {
        None => Tree::Empty,
        Some(n) => Tree::Fork(Box::new(shape_of(n.left)), n.data, Box::new(shape_of(n.right))),
    }
}

/// Every size counter in the subtree equals the number of nodes below and
/// including its node.
spec fn counted<T: Ord + Copy>(node: Option<Box<Node<T>>>) -> bool
    decreases node,
{
    match node {
        None => true,
        Some(n) => {
            &&& counted(n.left)
            &&& counted(n.right)
            &&& n.size == shape_of(n.left).in_order().len() + 1 + shape_of(
                n.right,
            ).in_order().len()
        },
    }
}

/// The number of nodes in a subtree, from the counter at its root.
fn size<T: Ord + Copy>(node: &Option<Box<Node<T>>>) -> (count: usize)
    requires
        counted(*node),
    ensures
        count == shape_of(*node).in_order().len(),
{
    match node {
        Some(node_box) => node_box.size,
        None => 0,
    }
}

/// Adds `target` in a new leaf.
fn insert<T: Ord + Copy>(node: Option<Box<Node<T>>>, target: T) -> (grown: Option<Box<Node<T>>>)
    requires
        total_order::<T>(),
        counted(node),
        shape_of(node).in_order().len() < usize::MAX,
    ensures
        counted(grown),
        shape_of(grown) == shape_of(node).inserted(target),
    decreases node,
{
    if let Some(mut node_box) = node {
        proof {
            lemma_total_order_is_preorder::<T>();
            lemma_operators(node_box.data, target);
            lemma_inserted_len(shape_of(node_box.left), target);
            lemma_inserted_len(shape_of(node_box.right), target);
        }
        if node_box.data < target {
            node_box.right = insert(node_box.right, target);
        } else {
            node_box.left = insert(node_box.left, target);
        }
        node_box.size = size(&node_box.left) + 1 + size(&node_box.right);
        Some(node_box)
    } else {
        Some(Box::new(Node::new(target)))
    }
}

/// The subtree at the first node with the key `target` that the search meets.
fn search<T: Ord + Copy>(node: &Option<Box<Node<T>>>, target: T) -> (at: &Option<Box<Node<T>>>)
    requires
        total_order::<T>(),
    ensures
        shape_of(*at) == shape_of(*node).found(target),
    decreases *node,
{
    match node {
        Some(node_box) => {
            proof {
                lemma_total_order_is_preorder::<T>();
                lemma_operators(node_box.data, target);
            }
            if node_box.data < target {
                search(&node_box.right, target)
            } else if node_box.data > target {
                search(&node_box.left, target)
            } else {
                node
            }
        },
        None => node,
    }
}

/// The subtree at the leftmost node.
fn successor<T: Ord + Copy>(node: &Option<Box<Node<T>>>) -> (at: &Option<Box<Node<T>>>)
    ensures
        shape_of(*at) == shape_of(*node).leftmost(),
{
    let mut current = node;
    loop
        invariant
            shape_of(*current).leftmost() == shape_of(*node).leftmost(),
        decreases *current,
    {
        match current {
            Some(node_box) => {
                if node_box.left.is_some() {
                    current = &node_box.left;
                } else {
                    return current;
                }
            },
            None => {
                return current;
            },
        }
    }
}

/// The right subtree of the leftmost node, and the subtree itself where it is
/// empty.
spec fn right_of_leftmost<T: Ord + Copy>(node: Option<Box<Node<T>>>) -> Option<Box<Node<T>>>
    decreases node,
{
    match node {
        None => None,
        Some(n) => if n.left is Some {
            right_of_leftmost(n.left)
        } else {
            n.right
        },
    }
}

/// The subtree with `right` in the place of the right subtree of its leftmost
/// node, and `right` itself where the subtree is empty.
spec fn with_right_of_leftmost<T: Ord + Copy>(
    node: Option<Box<Node<T>>>,
    right: Option<Box<Node<T>>>,
) -> Option<Box<Node<T>>>
    decreases node,
{
    match node {
        None => right,
        Some(n) => if n.left is Some {
            Some(
                Box::new(
                    Node {
                        data: n.data,
                        size: n.size,
                        left: with_right_of_leftmost(n.left, right),
                        right: n.right,
                    },
                ),
            )
        } else {
            Some(Box::new(Node { data: n.data, size: n.size, left: n.left, right: right }))
        },
    }
}

/// The place of the right subtree of the leftmost node, to be written to. The
/// size counters on the way are left as they are.
#[allow(dead_code)]
fn successor_mut<T: Ord + Copy>(node: &mut Option<Box<Node<T>>>) -> (place: &mut Option<
    Box<Node<T>>,
>)
    ensures
        *place == right_of_leftmost(*old(node)),
        *final(node) == with_right_of_leftmost(*old(node), *final(place)),
    decreases *old(node),
{
    match node {
        None => node,
        Some(node_box) => {
            if node_box.left.is_some() {
                successor_mut(&mut node_box.left)
            } else {
                &mut node_box.right
            }
        },
    }
}

/// Takes the leftmost node out; its right subtree takes its place.
fn delete_successor<T: Ord + Copy>(node: Option<Box<Node<T>>>) -> (rest: Option<Box<Node<T>>>)
    requires
        counted(node),
    ensures
        counted(rest),
        shape_of(rest) == shape_of(node).without_first(),
    decreases node,
{
    if let Some(mut node_box) = node {
        if node_box.left.is_some() {
            proof {
                lemma_without_first(shape_of(node_box.left));
            }
            node_box.left = delete_successor(node_box.left);
            node_box.size -= 1;
            Some(node_box)
        } else {
            node_box.right
        }
    } else {
        node
    }
}

/// Takes out the first node with the key `target` that the search meets.
fn delete<T: Ord + Copy>(node: Option<Box<Node<T>>>, target: T) -> (rest: Option<Box<Node<T>>>)
    requires
        total_order::<T>(),
        counted(node),
    ensures
        counted(rest),
        shape_of(rest) == shape_of(node).without(target),
    decreases node,
{
    if let Some(mut node_box) = node {
        proof {
            lemma_total_order_is_preorder::<T>();
            lemma_operators(node_box.data, target);
            lemma_without_len(shape_of(node_box.left), target);
            lemma_without_len(shape_of(node_box.right), target);
        }
        if node_box.data < target {
            node_box.right = delete(node_box.right, target);
        } else if node_box.data > target {
            node_box.left = delete(node_box.left, target);
        } else {
            let left = node_box.left.take();
            let right = node_box.right.take();
            if left.is_none() {
                return right;
            }
            if right.is_none() {
                return left;
            }
            proof {
                lemma_without_first(shape_of(right));
            }
            node_box.left = left;
            node_box.data = successor(&right).as_ref().unwrap().data;
            node_box.right = delete_successor(right);
        }
        node_box.size = size(&node_box.left) + 1 + size(&node_box.right);
        Some(node_box)
    } else {
        node
    }
}

impl<T: Ord + Copy> Node<T> {
    /// A leaf with the key `data`.
    fn new(data: T) -> (leaf: Self)
        ensures
            leaf.data == data,
            leaf.size == 1,
            leaf.left is None,
            leaf.right is None,
    {
        Self { data: data, size: 1, left: None, right: None }
    }

    /// The shape of the subtree at this node.
    spec fn shape(self) -> Tree<T> {
        Tree::Fork(Box::new(shape_of(self.left)), self.data, Box::new(shape_of(self.right)))
    }

    /// The size counters below this node are right, and so is its own.
    spec fn counted(self) -> bool {
        &&& counted(self.left)
        &&& counted(self.right)
        &&& self.size == shape_of(self.left).in_order().len() + 1 + shape_of(
            self.right,
        ).in_order().len()
    }

    /// Adds `data` in a new leaf below this node. The size counters on the
    /// way are left as they are.
    #[allow(dead_code)]
    fn insert(&mut self, data: T)
        requires
            total_order::<T>(),
        ensures
            final(self).shape() == old(self).shape().inserted(data),
            final(self).size == old(self).size,
        decreases *old(self),
    {
        proof {
            lemma_total_order_is_preorder::<T>();
            lemma_operators(data, self.data);
            assert(shape_of::<T>(None) == Tree::<T>::Empty);
            assert(Tree::<T>::Empty.inserted(data) == shape_of(Some(Box::new(Node::<T> {
                data: data,
                size: 1,
                left: None,
                right: None,
            }))));
        }
        if data <= self.data {
            match self.left {
                Some(ref mut node_box) => node_box.insert(data),
                None => self.left = Some(Box::new(Node::new(data))),
            };
        } else {
            match self.right {
                Some(ref mut node_box) => node_box.insert(data),
                None => self.right = Some(Box::new(Node::new(data))),
            };
        }
    }

    /// Whether the search for `target` from this node meets a node that
    /// holds it.
    #[allow(dead_code)]
    fn search(&self, target: T) -> (found: bool)
        requires
            total_order::<T>(),
        ensures
            found == !(self.shape().found(target) is Empty),
        decreases *self,
    {
        proof {
            lemma_total_order_is_preorder::<T>();
            lemma_operators(target, self.data);
            lemma_equality(target, self.data);
            lemma_less_eq_cases(target, self.data);
            lemma_less_eq_cases(self.data, target);
            assert(shape_of::<T>(None) == Tree::<T>::Empty);
            assert(Tree::<T>::Empty.found(target) is Empty);
        }
        if target == self.data {
            true
        } else if target <= self.data {
            match self.left {
                Some(ref node_box) => node_box.search(target),
                None => false,
            }
        } else {
            match self.right {
                Some(ref node_box) => node_box.search(target),
                None => false,
            }
        }
    }

    /// The number of nodes on the longest way from this node down.
    fn depth(&self) -> (levels: usize)
        requires
            self.counted(),
        ensures
            levels == self.shape().height(),
        decreases *self,
    {
        proof {
            lemma_height(shape_of(self.left));
            lemma_height(shape_of(self.right));
        }
        let left_depth = match self.left {
            Some(ref node_box) => node_box.depth(),
            None => 0,
        };

        let right_depth = match self.right {
            Some(ref node_box) => node_box.depth(),
            None => 0,
        };

        if left_depth < right_depth {
            right_depth + 1
        } else {
            left_depth + 1
        }
    }

    /// The first key below this node, which is that of the leftmost node.
    fn min(&self) -> (least: &T)
        ensures
            *least == self.shape().in_order().first(),
        decreases *self,
    {
        proof {
            lemma_height(shape_of(self.left));
        }
        match self.left {
            Some(ref node_box) => node_box.min(),
            None => &self.data,
        }
    }

    /// The last key below this node, which is that of the rightmost node.
    fn max(&self) -> (greatest: &T)
        ensures
            *greatest == self.shape().in_order().last(),
        decreases *self,
    {
        proof {
            lemma_height(shape_of(self.right));
        }
        match self.right {
            Some(ref node_box) => node_box.max(),
            None => &self.data,
        }
    }
}

/// A binary search tree of keys of type `T`. Its view is the sequence of its
/// keys in ascending order.
pub struct BST<T: Ord + Copy> {
    root: Option<Box<Node<T>>>,
}

impl<T: Ord + Copy> View for BST<T> {
    type V = Seq<T>;

    open spec fn view(&self) -> Seq<T> {
        self.shape().in_order()
    }
}

impl<T: Ord + Copy> BST<T> {
    /// Which key sits where.
    pub closed spec fn shape(&self) -> Tree<T> {
        shape_of(self.root)
    }

    /// The tree is in search-tree order, and every size counter equals the
    /// number of nodes below and including its node.
    pub closed spec fn well_formed(&self) -> bool {
        &&& counted(self.root)
        &&& shape_of(self.root).ordered()
    }

    /// The empty tree.
    pub fn new() -> (empty: Self)
        ensures
            empty.well_formed(),
            empty.shape() == Tree::<T>::Empty,
            empty@ == Seq::<T>::empty(),
    {
        Self { root: None }
    }

    /// Adds `data` in a new leaf, to the left of the keys that equal it.
    pub fn insert(self, data: T) -> (grown: Self)
        requires
            total_order::<T>(),
            self.well_formed(),
            self@.len() < usize::MAX,
        ensures
            grown.well_formed(),
            grown.shape() == self.shape().inserted(data),
            grown@ == insert_sorted(self@, data),
            grown@.len() == self@.len() + 1,
    {
        proof {
            lemma_total_order_is_preorder::<T>();
            lemma_inserted(self.shape(), data);
            lemma_insert_sorted_len(self@, data);
        }
        let mut tree = self;
        tree.root = insert(tree.root, data);
        tree
    }

    /// Whether the tree holds `target`.
    pub fn search(&self, target: T) -> (found: bool)
        requires
            total_order::<T>(),
            self.well_formed(),
        ensures
            found == self@.contains(target),
    {
        proof {
            lemma_found(self.shape(), target);
        }
        match search(&self.root, target) {
            Some(_) => true,
            None => false,
        }
    }

    /// The number of keys in the tree.
    pub fn size(&self) -> (count: usize)
        requires
            self.well_formed(),
        ensures
            count == self@.len(),
    {
        size(&self.root)
    }

    /// The number of nodes on the longest way from the root down.
    pub fn depth(&self) -> (levels: usize)
        requires
            self.well_formed(),
        ensures
            levels == self.shape().height(),
    {
        match &self.root {
            Some(node) => node.depth(),
            None => 0,
        }
    }

    /// The least key, if the tree holds a key.
    pub fn min(&self) -> (least: Option<&T>)
        requires
            total_order::<T>(),
            self.well_formed(),
        ensures
            self@.len() == 0 ==> least is None,
            self@.len() > 0 ==> least == Some(&self@.first()),
            least matches Some(m) ==> all_greater_eq(self@, *m),
    {
        proof {
            lemma_total_order_is_preorder::<T>();
            lemma_height(self.shape());
            lemma_in_order_sorted(self.shape());
            if self@.len() > 0 {
                crate::order::lemma_less_eq_refl(self@[0]);
            }
        }
        match &self.root {
            Some(node) => Some(node.min()),
            None => None,
        }
    }

    /// The greatest key, if the tree holds a key.
    pub fn max(&self) -> (greatest: Option<&T>)
        requires
            total_order::<T>(),
            self.well_formed(),
        ensures
            self@.len() == 0 ==> greatest is None,
            self@.len() > 0 ==> greatest == Some(&self@.last()),
            greatest matches Some(m) ==> all_less_eq(self@, *m),
    {
        proof {
            lemma_total_order_is_preorder::<T>();
            lemma_height(self.shape());
            lemma_in_order_sorted(self.shape());
            if self@.len() > 0 {
                crate::order::lemma_less_eq_refl(self@.last());
            }
        }
        match &self.root {
            Some(node) => Some(node.max()),
            None => None,
        }
    }

    /// Takes one occurrence of `target` out of the tree. A tree that does
    /// not hold `target` comes back as it was.
    pub fn delete(self, target: T) -> (rest: Self)
        requires
            total_order::<T>(),
            self.well_formed(),
        ensures
            rest.well_formed(),
            rest.shape() == self.shape().without(target),
            rest@ == self@.remove_value(target),
            self@.contains(target) ==> rest@.len() == self@.len() - 1,
            !self@.contains(target) ==> rest@ == self@,
    {
        proof {
            lemma_without(self.shape(), target);
            crate::ordered_seq::lemma_removal_keeps_bounds(self@, target, target);
        }
        let mut tree = self;
        tree.root = delete(tree.root, target);
        tree
    }

    /// Takes the least key out of the tree, if the tree holds a key.
    pub fn delete_min(self) -> (rest: Self)
        requires
            self.well_formed(),
        ensures
            rest.well_formed(),
            rest.shape() == self.shape().without_first(),
            self@.len() == 0 ==> rest@ == self@,
            self@.len() > 0 ==> rest@ == self@.drop_first(),
    {
        proof {
            lemma_height(self.shape());
            if self@.len() > 0 {
                lemma_without_first(self.shape());
            }
        }
        let mut tree = self;
        tree.root = delete_successor(tree.root);
        tree
    }

    /// A well-formed tree is in search-tree order, so that its keys read in
    /// ascending order, and it holds no more keys than the machine can count.
    pub proof fn lemma_sorted(self)
        requires
            total_order::<T>(),
            self.well_formed(),
        ensures
            self.shape().ordered(),
            sorted(self@),
            self@.len() <= usize::MAX,
    {
        lemma_total_order_is_preorder::<T>();
        lemma_in_order_sorted(self.shape());
    }

    /// A walk over the keys in ascending order, which starts at the least.
    pub fn iter(&self) -> (walk: Iter<'_, T>)
        ensures
            walk@ == self@,
    {
        Iter::new(self)
    }
}

/// A walk over the keys of a tree in ascending order. Its view is the
/// sequence of the keys that it has yet to give.
pub struct Iter<'a, T: Ord + Copy> {
    stack: Vec<&'a Node<T>>,
}

/// The keys that a walk with this stack has yet to give: for every node on
/// the stack, from the top down, its key and then the keys of its right
/// subtree.
spec fn pending<T: Ord + Copy>(stack: Seq<&Node<T>>) -> Seq<T>
    decreases stack.len(),
{
    if stack.len() == 0 {
        Seq::empty()
    } else {
        seq![stack.last().data] + shape_of(stack.last().right).in_order() + pending(
            stack.drop_last(),
        )
    }
}

impl<'a, T: Ord + Copy> View for Iter<'a, T> {
    type V = Seq<T>;

    open spec fn view(&self) -> Seq<T> {
        self.remaining()
    }
}

impl<'a, T: Ord + Copy> Iter<'a, T> {
    /// The keys that the walk has yet to give, in the order in which it
    /// gives them.
    pub closed spec fn remaining(&self) -> Seq<T> {
        pending(self.stack@)
    }

    /// A walk that has all keys of `bst` yet to give.
    fn new(bst: &'a BST<T>) -> (walk: Iter<'a, T>)
        ensures
            walk@ == bst@,
    {
        match &bst.root {
            Some(node) => {
                let mut iter = Iter { stack: Vec::new() };
                iter.push_left(node);
                assert(iter@ =~= bst@);
                iter
            },
            None => Iter { stack: Vec::new() },
        }
    }

    /// Puts `node` on the stack, and on top of it the nodes on the way from
    /// it to the leftmost node below it.
    fn push_left(&mut self, node: &'a Node<T>)
        ensures
            final(self)@ == node.shape().in_order() + old(self)@,
        decreases *node,
    {
        let ghost before = self.stack@;
        self.stack.push(node);
        proof {
            assert(self.stack@.drop_last() =~= before);
            assert(self.stack@.last() == node);
        }
        match node.left {
            Some(ref node_box) => {
                self.push_left(node_box);
                assert(self@ =~= node.shape().in_order() + pending(before));
            },
            None => {
                assert(shape_of(node.left).in_order() =~= Seq::<T>::empty());
                assert(node.shape().in_order() =~= seq![node.data] + shape_of(
                    node.right,
                ).in_order());
                assert(self@ =~= node.shape().in_order() + pending(before));
            },
        }
    }

    /// The next key of the walk, and `None` once all keys have been given.
    pub fn next(&mut self) -> (item: Option<&'a T>)
        ensures
            old(self)@.len() == 0 ==> item is None && final(self)@ == old(self)@,
            old(self)@.len() > 0 ==> item == Some(&old(self)@.first()) && final(self)@ == old(
                self,
            )@.drop_first(),
    {
        let ghost before = self.stack@;
        match self.stack.pop() {
            Some(node) => {
                proof {
                    assert(self.stack@ =~= before.drop_last());
                    assert(before.last() == node);
                }
                match node.right {
                    Some(ref node_box) => {
                        self.push_left(node_box);
                        assert(self@ =~= pending(before).drop_first());
                    },
                    None => {
                        assert(self@ =~= pending(before).drop_first());
                    },
                };
                Some(&node.data)
            },
            None => None,
        }
    }
}

} // verus!
