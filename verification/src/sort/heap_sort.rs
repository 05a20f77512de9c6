//! Heap sort.

use vstd::prelude::*;
use crate::heap::layout::{
    bridged, heap_but, heap_from, heap_ordered, lemma_first_is_greatest, parent,
};
use crate::order::{
    lemma_less_eq_trans, lemma_operators_hold, less_eq, operators_hold, total_preorder,
};
use crate::ordered_seq::{sorted, sorted_range};
use crate::permutation::{
    lemma_rearranged_chain, lemma_rearranged_elements, lemma_rearranged_whole, lemma_swapped,
    lemma_swapped_within, occurs_between, rearranged_within,
};

verus! {

/// Sorts `v` in ascending order. The vector is first brought into heap
/// order; then the greatest element of the heap changes places with the last
/// and leaves the heap, until the heap has one element left.
pub fn heap_sort<T: PartialOrd>(v: &mut Vec<T>) -> (result: &Vec<T>)
    requires
        total_preorder::<T>(),
    ensures
        sorted(final(v)@),
        final(v)@.to_multiset() == old(v)@.to_multiset(),
        final(v)@.len() == old(v)@.len(),
        result@ == final(v)@,
{
    if v.len() <= 1 {
        return v;
    }
    // build the binary heap from v

    let mut i: usize = v.len() / 2;
    proof {
        let s = v@;
        assert forall|c: int| 0 < c < s.len() && i <= parent(c) implies less_eq(
            #[trigger] s[c],
            s[parent(c)],
        ) by {
            assert(parent(c) < s.len() / 2);
        }
    }
    while i > 0
        invariant
            total_preorder::<T>(),
            i <= v@.len() / 2,
            v@.len() == old(v)@.len(),
            v@.to_multiset() == old(v)@.to_multiset(),
            heap_from(v@, i as int, v@.len() as int),
        decreases i,
    {
        i -= 1;
        let ghost before = v@;
        sink(v, i, v.len());
        proof {
            lemma_rearranged_whole(before, v@, 0, before.len() as int);
        }
    }

    // invariant:
    // [end+1..v.len()]: sorted;
    // [0..=end]:        to be examined.
    let mut end: usize = v.len() - 1;
    while end > 0
        invariant
            total_preorder::<T>(),
            end < v@.len(),
            v@.len() == old(v)@.len(),
            v@.to_multiset() == old(v)@.to_multiset(),
            heap_ordered(v@, end + 1),
            sorted_range(v@, end + 1, v@.len() as int),
            forall|a: int, b: int|
                0 <= a <= end < b < v@.len() ==> less_eq(#[trigger] v@[a], #[trigger] v@[b]),
        decreases end,
    {
        let ghost before = v@;
        v.swap(0, end);
        let ghost exchanged = v@;
        proof {
            lemma_swapped(before, 0, end as int);
            assert forall|c: int|
                0 < c < end && 0 <= parent(c) && parent(c) != 0 implies less_eq(
                #[trigger] exchanged[c],
                exchanged[parent(c)],
            ) by {
                assert(less_eq(before[c], before[parent(c)]));
            }
        }
        sink(v, 0, end);
        proof {
            let s = v@;
            lemma_rearranged_whole(exchanged, s, 0, end as int);
            lemma_rearranged_elements(exchanged, s, 0, end as int);
            assert forall|a: int, b: int| 0 <= a <= end - 1 < b < s.len() implies less_eq(
                #[trigger] s[a],
                #[trigger] s[b],
            ) by {
                assert(occurs_between(exchanged, 0, end as int, s[a]));
                let m = choose|m: int| 0 <= m < end && exchanged[m] == s[a];
                let from = if m == 0 {
                    end as int
                } else {
                    m
                };
                assert(exchanged[m] == before[from]);
                if b == end {
                    assert(s[b] == before[0]);
                    lemma_first_is_greatest(before, end + 1, from);
                } else {
                    assert(s[b] == before[b]);
                    assert(less_eq(before[from], before[b]));
                }
            }
            assert forall|a: int, b: int| end <= a < b < s.len() implies less_eq(
                #[trigger] s[a],
                #[trigger] s[b],
            ) by {
                assert(s[b] == before[b]);
                if a == end {
                    assert(s[a] == before[0]);
                    assert(less_eq(before[0], before[b]));
                } else {
                    assert(s[a] == before[a]);
                }
            }
        }
        end -= 1;
    }
    proof {
        assert forall|a: int, b: int| 0 <= a < b < v@.len() implies less_eq(
            #[trigger] v@[a],
            #[trigger] v@[b],
        ) by {
            if a == 0 {
                assert(less_eq(v@[a], v@[b]));
            }
        }
    }

    v
}

/// Moves the element at `start` down within the first `end` elements of `v`,
/// below every child that comes after it.
fn sink<T: PartialOrd>(v: &mut Vec<T>, start: usize, end: usize)
    requires
        total_preorder::<T>(),
        end <= old(v)@.len(),
        heap_but(old(v)@, start as int, end as int, start as int),
    ensures
        heap_from(final(v)@, start as int, end as int),
        rearranged_within(old(v)@, final(v)@, 0, end as int),
{
    let mut i = start;
    proof {
        lemma_operators_hold::<T>();
        lemma_rearranged_chain(v@, v@, v@, 0, end as int);
    }
    while i < end / 2
        invariant
            total_preorder::<T>(),
            operators_hold::<T>(),
            start <= i,
            end <= v@.len(),
            rearranged_within(old(v)@, v@, 0, end as int),
            heap_but(v@, start as int, end as int, i as int),
            bridged(v@, start as int, end as int, i as int),
        ensures
            heap_from(v@, start as int, end as int),
            rearranged_within(old(v)@, v@, 0, end as int),
        decreases end - i,
    {
        let left = i * 2 + 1;
        let right = i * 2 + 2;
        let j = if right < end && v[right] > v[left] {
            right
        } else {
            left
        };

        if v[i] >= v[j] {
            proof {
                let s = v@;
                assert forall|c: int| 0 < c < end && start <= parent(c) implies less_eq(
                    #[trigger] s[c],
                    s[parent(c)],
                ) by {
                    if parent(c) == i {
                        assert(c == left || c == right);
                        if c != j {
                            lemma_less_eq_trans(s[c], s[j as int], s[i as int]);
                        }
                    }
                }
            }
            break ;
        }
        let ghost before = v@;
        v.swap(i, j);
        proof {
            let s = v@;
            lemma_swapped(before, i as int, j as int);
            lemma_swapped_within(before, i as int, j as int, 0, end as int);
            lemma_rearranged_chain(old(v)@, before, s, 0, end as int);
            assert forall|c: int|
                0 < c < end && start <= parent(c) && parent(c) != j implies less_eq(
                #[trigger] s[c],
                s[parent(c)],
            ) by {
                if c == i {
                    assert(less_eq(before[j as int], before[parent(i as int)]));
                } else if c == j {
                } else if parent(c) == i {
                    assert(c == left || c == right);
                    assert(less_eq(before[c], before[j as int]));
                } else {
                    assert(less_eq(before[c], before[parent(c)]));
                }
            }
            assert forall|c: int| 0 < c < end && parent(c) == j implies less_eq(
                #[trigger] s[c],
                s[parent(j as int)],
            ) by {
                assert(less_eq(before[c], before[parent(c)]));
            }
        }
        i = j;
    }
    proof {
        let s = v@;
        if i >= end / 2 {
            assert forall|c: int| 0 < c < end && start <= parent(c) implies less_eq(
                #[trigger] s[c],
                s[parent(c)],
            ) by {
                assert(parent(c) != i);
            }
        }
    }
}

} // verus!
