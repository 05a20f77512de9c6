//! A binary max-heap in a vector.

use vstd::prelude::*;
use vstd::multiset::Multiset;
use crate::heap::layout::{
    below, heap_but_child, heap_from, heap_ordered, lemma_below, lemma_first_is_greatest,
    parent, subtree_but, subtree_ordered,
};
use crate::order::{
    lemma_less_eq_trans, lemma_operators, lemma_operators_hold, less_eq, operators_hold,
    total_preorder,
};
use crate::permutation::lemma_swapped;

verus! {

/// A max-heap of elements of type `T`. Its view is the multiset of its
/// elements.
pub struct Heap<T: PartialOrd + Copy> {
    v: Vec<T>,
}

impl<T: PartialOrd + Copy> View for Heap<T> {
    type V = Multiset<T>;

    open spec fn view(&self) -> Multiset<T> {
        self.elements().to_multiset()
    }
}

impl<T: PartialOrd + Copy> Heap<T> {
    /// The elements level by level, as the vector holds them.
    pub closed spec fn elements(&self) -> Seq<T> {
        self.v@
    }

    /// No element comes after its parent.
    pub closed spec fn well_formed(&self) -> bool {
        heap_ordered(self.v@, self.v@.len() as int)
    }

    /// In a well-formed heap no element comes after its parent, which stands
    /// at half its position, and none comes after the first.
    pub proof fn lemma_heap_order(self)
        requires
            total_preorder::<T>(),
            self.well_formed(),
        ensures
            heap_ordered(self.elements(), self.elements().len() as int),
            forall|k: int|
                0 < k < self.elements().len() ==> less_eq(
                    #[trigger] self.elements()[k],
                    self.elements()[parent(k)],
                ),
            forall|k: int|
                0 <= k < self.elements().len() ==> less_eq(
                    #[trigger] self.elements()[k],
                    self.elements()[0],
                ),
    {
        let s = self.elements();
        assert forall|k: int| 0 <= k < s.len() implies less_eq(#[trigger] s[k], s[0]) by {
            lemma_first_is_greatest(s, s.len() as int, k);
        }
    }

    /// The empty heap.
    pub fn new() -> (empty: Heap<T>)
        ensures
            empty.well_formed(),
            empty@ == Multiset::<T>::empty(),
            empty.elements() == Seq::<T>::empty(),
    {
        let empty = Heap { v: Vec::new() };
        proof {
            assert(empty.v@ =~= Seq::<T>::empty());
            vstd::seq_lib::lemma_multiset_commutative(Seq::<T>::empty(), Seq::<T>::empty());
            vstd::seq_lib::to_multiset_len(empty.v@);
            assert(empty.v@.to_multiset() =~= Multiset::<T>::empty()) by {
                assert(empty.v@.to_multiset().len() == 0);
                vstd::multiset::lemma_multiset_empty_len(empty.v@.to_multiset());
            }
        }
        empty
    }

    /// A heap of the elements of `v`.
    pub fn from(v: Vec<T>) -> (heap: Heap<T>)
        requires
            total_preorder::<T>(),
        ensures
            heap.well_formed(),
            heap@ == v@.to_multiset(),
    {
        let mut heap = Heap { v };
        heap.fix();
        heap
    }

    /// Moves the element at `index` down, below every child that comes
    /// after it: it changes places with the greater of its children until
    /// neither comes after it. Only the subtree at `index` is touched.
    fn sink(&mut self, index: usize)
        requires
            total_preorder::<T>(),
            subtree_but(old(self).v@, index as int, old(self).v@.len() as int, index as int),
        ensures
            subtree_ordered(final(self).v@, index as int, final(self).v@.len() as int),
            final(self).v@.len() == old(self).v@.len(),
            final(self)@ == old(self)@,
            forall|k: int|
                0 <= k < old(self).v@.len() && !below(index as int, k) ==> final(self).v@[k]
                    == old(self).v@[k],
    {
        let mut i = index;
        let ghost top = index as int;
        // while v[i] is not a leaf
        while i < self.v.len() / 2
            invariant
                total_preorder::<T>(),
                below(top, i as int),
                top <= i,
                self.v@.len() == old(self).v@.len(),
                self@ == old(self)@,
                subtree_but(self.v@, top, self.v@.len() as int, i as int),
                i != top ==> forall|c: int|
                    0 < c < self.v@.len() && parent(c) == i ==> less_eq(
                        #[trigger] self.v@[c],
                        self.v@[parent(i as int)],
                    ),
                forall|k: int|
                    0 <= k < self.v@.len() && !below(top, k) ==> self.v@[k] == old(self).v@[k],
            ensures
                subtree_ordered(self.v@, top, self.v@.len() as int),
                self.v@.len() == old(self).v@.len(),
                self@ == old(self)@,
                forall|k: int|
                    0 <= k < self.v@.len() && !below(top, k) ==> self.v@[k] == old(self).v@[k],
            decreases self.v@.len() - i,
        {
            let left = i * 2 + 1;  // left child
            let right = i * 2 + 2;  // right child
            proof {
                lemma_operators(self.v@[right as int], self.v@[left as int]);
            }
            let j = if right < self.v.len() && self.v[right] > self.v[left] {
                right
            } else {
                left
            };
            proof {
                lemma_operators(self.v@[i as int], self.v@[j as int]);
                assert(parent(j as int) == i);
                assert(below(top, j as int));
            }
            if self.v[i] >= self.v[j] {
                proof {
                    let s = self.v@;
                    assert forall|c: int|
                        0 < c < s.len() && below(top, parent(c)) implies less_eq(
                        #[trigger] s[c],
                        s[parent(c)],
                    ) by {
                        if parent(c) == i {
                            assert(c == left || c == right);
                            if c != j {
                                lemma_less_eq_trans(s[c], s[j as int], s[i as int]);
                            }
                        }
                    }
                }
                break ;
            }
            let ghost before = self.v@;
            self.v.swap(i, j);
            proof {
                let s = self.v@;
                lemma_swapped(before, i as int, j as int);
                assert forall|c: int|
                    0 < c < s.len() && below(top, parent(c)) && parent(c) != j implies less_eq(
                    #[trigger] s[c],
                    s[parent(c)],
                ) by {
                    if c == i {
                        lemma_below(top, parent(c));
                        assert(i != top);
                        assert(less_eq(before[j as int], before[parent(i as int)]));
                    } else if c == j {
                    } else if parent(c) == i {
                        assert(c == left || c == right);
                        assert(less_eq(before[c], before[j as int]));
                    } else {
                        assert(less_eq(before[c], before[parent(c)]));
                    }
                }
                assert forall|c: int| 0 < c < s.len() && parent(c) == j implies less_eq(
                    #[trigger] s[c],
                    s[parent(j as int)],
                ) by {
                    assert(less_eq(before[c], before[parent(c)]));
                }
            }
            i = j;
        }
        proof {
            let s = self.v@;
            if i >= s.len() / 2 {
                assert forall|c: int| 0 < c < s.len() && below(top, parent(c)) implies less_eq(
                    #[trigger] s[c],
                    s[parent(c)],
                ) by {
                    assert(parent(c) != i);
                }
            }
        }
    }

    /// Moves the element at `index` up, above every parent that comes
    /// before it.
    fn swim(&mut self, index: usize)
        requires
            total_preorder::<T>(),
            index < old(self).v@.len(),
            heap_but_child(old(self).v@, index as int),
            forall|c: int|
                0 < c < old(self).v@.len() && parent(c) == index ==> less_eq(
                    #[trigger] old(self).v@[c],
                    old(self).v@[parent(index as int)],
                ),
        ensures
            final(self).well_formed(),
            final(self).v@.len() == old(self).v@.len(),
            final(self)@ == old(self)@,
    {
        let mut i = index;
        proof {
            lemma_operators_hold::<T>();
        }
        while i > 0 && self.v[i] > self.v[(i - 1) / 2]
            invariant
                total_preorder::<T>(),
                i < self.v@.len(),
                self.v@.len() == old(self).v@.len(),
                self@ == old(self)@,
                heap_but_child(self.v@, i as int),
                i > 0 ==> forall|c: int|
                    0 < c < self.v@.len() && parent(c) == i ==> less_eq(
                        #[trigger] self.v@[c],
                        self.v@[parent(i as int)],
                    ),
                operators_hold::<T>(),
            decreases i,
        {
            let ghost before = self.v@;
            let up = (i - 1) / 2;
            self.v.swap(i, up);
            proof {
                let s = self.v@;
                lemma_swapped(before, i as int, up as int);
                lemma_operators(before[up as int], before[i as int]);
                assert forall|c: int| 0 < c < s.len() && c != up implies less_eq(
                    #[trigger] s[c],
                    s[parent(c)],
                ) by {
                    if c == i {
                    } else if parent(c) == up {
                        assert(less_eq(before[c], before[up as int]));
                        lemma_less_eq_trans(before[c], before[up as int], before[i as int]);
                    } else if parent(c) == i {
                    } else {
                        assert(less_eq(before[c], before[parent(c)]));
                    }
                }
                if up > 0 {
                    assert forall|c: int| 0 < c < s.len() && parent(c) == up implies less_eq(
                        #[trigger] s[c],
                        s[parent(up as int)],
                    ) by {
                        assert(less_eq(before[up as int], before[parent(up as int)]));
                        if c != i {
                            assert(less_eq(before[c], before[up as int]));
                            lemma_less_eq_trans(
                                before[c],
                                before[up as int],
                                before[parent(up as int)],
                            );
                        }
                    }
                }
            }
            i = up;
        }
    }

    /// Brings the vector into heap order: every element that has a child is
    /// moved down, the last of them first.
    fn fix(&mut self)
        requires
            total_preorder::<T>(),
        ensures
            final(self).well_formed(),
            final(self)@ == old(self)@,
    {
        let mut i = self.v.len() / 2;
        proof {
            let s = self.v@;
            assert forall|c: int| 0 < c < s.len() && i <= parent(c) implies less_eq(
                #[trigger] s[c],
                s[parent(c)],
            ) by {
                assert(parent(c) < s.len() / 2);
            }
        }
        while i > 0
            invariant
                total_preorder::<T>(),
                i <= self.v@.len() / 2,
                self@ == old(self)@,
                heap_from(self.v@, i as int, self.v@.len() as int),
            decreases i,
        {
            i -= 1;
            let ghost before = self.v@;
            proof {
                assert forall|c: int|
                    0 < c < before.len() && below(i as int, parent(c)) && parent(c)
                        != i implies less_eq(#[trigger] before[c], before[parent(c)]) by {
                    lemma_below(i as int, parent(c));
                }
            }
            self.sink(i);
            proof {
                let s = self.v@;
                assert forall|c: int| 0 < c < s.len() && i <= parent(c) implies less_eq(
                    #[trigger] s[c],
                    s[parent(c)],
                ) by {
                    if !below(i as int, parent(c)) {
                        lemma_below(i as int, c);
                        assert(!below(i as int, c));
                        assert(less_eq(before[c], before[parent(c)]));
                    }
                }
            }
        }
    }

    /// Adds `target` to the heap.
    pub fn insert(&mut self, target: T)
        requires
            total_preorder::<T>(),
            old(self).well_formed(),
        ensures
            final(self).well_formed(),
            final(self)@ == old(self)@.insert(target),
    {
        self.v.push(target);
        proof {
            vstd::seq_lib::to_multiset_build(old(self).v@, target);
            let s = self.v@;
            assert forall|c: int| 0 < c < s.len() && c != s.len() - 1 implies less_eq(
                #[trigger] s[c],
                s[parent(c)],
            ) by {
                assert(less_eq(old(self).v@[c], old(self).v@[parent(c)]));
            }
        }
        self.swim(self.v.len() - 1);
    }

    /// Takes a greatest element out of the heap, if the heap holds an
    /// element.
    pub fn remove(&mut self) -> (greatest: Option<T>)
        requires
            total_preorder::<T>(),
            old(self).well_formed(),
        ensures
            final(self).well_formed(),
            old(self)@.len() == 0 ==> greatest is None && final(self)@ == old(self)@,
            old(self)@.len() > 0 ==> greatest is Some,
            greatest matches Some(m) ==> {
                &&& m == old(self).elements()[0]
                &&& old(self)@.count(m) > 0
                &&& final(self)@ == old(self)@.remove(m)
                &&& forall|x: T| old(self)@.count(x) > 0 ==> less_eq(x, m)
            },
    {
        proof {
            vstd::seq_lib::to_multiset_len(self.v@);
        }
        if self.v.is_empty() {
            None
        } else {
            let ghost before = self.v@;
            let i = self.v.len() - 1;
            self.v.swap(0, i);
            let ghost exchanged = self.v@;

            let res = Some(self.v.pop().unwrap());
            proof {
                let s = self.v@;
                lemma_swapped(before, 0, i as int);
                assert(s =~= exchanged.drop_last());
                assert(exchanged =~= s.push(before[0]));
                vstd::seq_lib::to_multiset_build(s, before[0]);
                assert(s.to_multiset() =~= before.to_multiset().remove(before[0]));
                assert forall|c: int|
                    0 < c < s.len() && 0 <= parent(c) && parent(c) != 0 implies less_eq(
                    #[trigger] s[c],
                    s[parent(c)],
                ) by {
                    assert(less_eq(before[c], before[parent(c)]));
                }
                assert forall|x: T| before.to_multiset().count(x) > 0 implies less_eq(
                    x,
                    before[0],
                ) by {
                    vstd::seq_lib::to_multiset_contains(before, x);
                    let k = choose|k: int| 0 <= k < before.len() && before[k] == x;
                    lemma_first_is_greatest(before, before.len() as int, k);
                }
                vstd::seq_lib::to_multiset_contains(before, before[0]);
                assert(before.contains(before[0]));
            }
            self.sink(0);
            proof {
                let s = self.v@;
                assert forall|c: int| 0 < c < s.len() && 0 <= parent(c) implies less_eq(
                    #[trigger] s[c],
                    s[parent(c)],
                ) by {
                    lemma_below(0, parent(c));
                }
            }

            res
        }
    }
}

} // verus!
