//! Quicksort, with a partition in two and with a partition in three.

use vstd::prelude::*;
use crate::order::{
    lemma_less_eq_refl, lemma_less_eq_trans, lemma_operators, lemma_operators_hold, less,
    less_eq, operators_hold, total_preorder,
};
use crate::ordered_seq::{sorted, sorted_range};
use crate::random::next_below;
use crate::permutation::{
    lemma_rearranged_chain, lemma_rearranged_elements, lemma_rearranged_whole,
    lemma_rearranged_wider, lemma_swapped, lemma_swapped_within, occurs_between,
    rearranged_within,
};

verus! {

/// Sorts `v`, which holds an element at least, in ascending order. The
/// elements are first brought into a random order.
pub fn quick_sort_basic<T: PartialOrd>(v: &mut Vec<T>) -> (result: &Vec<T>)
    requires
        total_preorder::<T>(),
        old(v)@.len() > 0,
    ensures
        sorted(final(v)@),
        final(v)@.to_multiset() == old(v)@.to_multiset(),
        final(v)@.len() == old(v)@.len(),
        result@ == final(v)@,
{
    shuffle(v);
    let ghost shuffled = v@;
    let last = v.len() - 1;
    sort_basic(v, 0, last);
    proof {
        if 0 < last {
            lemma_rearranged_whole(shuffled, v@, 0, last + 1);
        }
    }
    v
}

/// Sorts `v`, which holds an element at least, in ascending order. The
/// elements are first brought into a random order. Elements that equal the
/// pivot are not sorted again, which serves where many elements are equal.
pub fn quick_sort_3way_partition<T: PartialOrd>(v: &mut Vec<T>) -> (result: &Vec<T>)
    requires
        total_preorder::<T>(),
        old(v)@.len() > 0,
    ensures
        sorted(final(v)@),
        final(v)@.to_multiset() == old(v)@.to_multiset(),
        final(v)@.len() == old(v)@.len(),
        result@ == final(v)@,
{
    shuffle(v);
    let ghost shuffled = v@;
    let last = v.len() - 1;
    sort_3way_partition(v, 0, last);
    proof {
        if 0 < last {
            lemma_rearranged_whole(shuffled, v@, 0, last + 1);
        }
    }
    v
}

/// Brings the elements of `v` into a random order: each in turn changes
/// places with one that stands at a random position not behind it.
fn shuffle<T>(v: &mut Vec<T>)
    ensures
        final(v)@.len() == old(v)@.len(),
        final(v)@.to_multiset() == old(v)@.to_multiset(),
{
    let mut gen = rand::thread_rng();
    let mut i: usize = 0;
    while i < v.len()
        invariant
            v@.len() == old(v)@.len(),
            v@.to_multiset() == old(v)@.to_multiset(),
        decreases v@.len() - i,
    {
        let ghost before = v@;
        let other = next_below(&mut gen, i + 1);
        v.swap(i, other);
        proof {
            lemma_swapped(before, i as int, other as int);
        }
        i += 1;
    }
}

/// Sorts the elements of `v` from `lo` to `hi`.
fn sort_basic<T: PartialOrd>(v: &mut Vec<T>, lo: usize, hi: usize)
    requires
        total_preorder::<T>(),
        lo < hi ==> hi < old(v)@.len(),
    ensures
        final(v)@.len() == old(v)@.len(),
        lo >= hi ==> final(v)@ == old(v)@,
        lo < hi ==> sorted_range(final(v)@, lo as int, hi + 1) && rearranged_within(
            old(v)@,
            final(v)@,
            lo as int,
            hi + 1,
        ),
    decreases
            (if lo < hi {
                hi - lo
            } else {
                0
            }),
{
    if lo >= hi {
        return ;
    }
    assert(hi < v.len());
    let mid = partition(v, lo, hi);
    let ghost parted = v@;

    if mid > 0 {
        sort_basic(v, lo, mid - 1);
    }
    let ghost left_done = v@;
    sort_basic(v, mid + 1, hi);
    proof {
        let s = v@;
        lemma_rearranged_chain(parted, parted, parted, lo as int, mid as int);
        lemma_rearranged_chain(left_done, left_done, left_done, mid + 1, hi + 1);
        assert(rearranged_within(parted, left_done, lo as int, mid as int));
        assert(rearranged_within(left_done, s, mid + 1, hi + 1));
        lemma_rearranged_elements(parted, left_done, lo as int, mid as int);
        lemma_rearranged_elements(left_done, s, mid + 1, hi + 1);
        lemma_rearranged_wider(parted, left_done, lo as int, mid as int, lo as int, hi + 1);
        lemma_rearranged_wider(left_done, s, mid + 1, hi + 1, lo as int, hi + 1);
        lemma_rearranged_chain(old(v)@, parted, left_done, lo as int, hi + 1);
        lemma_rearranged_chain(old(v)@, left_done, s, lo as int, hi + 1);
        let pivot = parted[mid as int];
        assert forall|a: int| lo <= a < mid implies less_eq(#[trigger] s[a], pivot) by {
            assert(s[a] == left_done[a]);
            assert(occurs_between(parted, lo as int, mid as int, left_done[a]));
            let m = choose|m: int| lo <= m < mid && parted[m] == left_done[a];
            assert(less_eq(parted[m], pivot));
        }
        assert forall|b: int| mid < b <= hi implies less_eq(pivot, #[trigger] s[b]) by {
            assert(occurs_between(left_done, mid + 1, hi + 1, s[b]));
            let m = choose|m: int| mid + 1 <= m < hi + 1 && left_done[m] == s[b];
            assert(left_done[m] == parted[m]);
            assert(less_eq(pivot, parted[m]));
        }
        assert(s[mid as int] == pivot);
        assert forall|a: int, b: int| lo <= a < b < hi + 1 implies less_eq(
            #[trigger] s[a],
            #[trigger] s[b],
        ) by {
            if b < mid {
                assert(s[a] == left_done[a] && s[b] == left_done[b]);
                assert(less_eq(left_done[a], left_done[b]));
            } else if a > mid {
            } else if a == mid {
            } else if b == mid {
            } else {
                lemma_less_eq_trans(s[a], pivot, s[b]);
            }
        }
    }
}

/// Sorts the elements of `v` from `lo` to `hi`. The elements are parted in
/// three: those that come before the pivot, those that equal it, and those
/// that come after it; the first and the last part are sorted in the same
/// way. While the elements are parted,
/// `v[lo..lt]` comes before the pivot, `v[lt..i]` equals it and `v[lt]` is the
/// pivot, `v[i..=gt]` is yet to be looked at, and `v[gt+1..=hi]` comes after
/// the pivot.
fn sort_3way_partition<T: PartialOrd>(v: &mut Vec<T>, lo: usize, hi: usize)
    requires
        total_preorder::<T>(),
        lo < hi ==> hi < old(v)@.len(),
    ensures
        final(v)@.len() == old(v)@.len(),
        lo >= hi ==> final(v)@ == old(v)@,
        lo < hi ==> sorted_range(final(v)@, lo as int, hi + 1) && rearranged_within(
            old(v)@,
            final(v)@,
            lo as int,
            hi + 1,
        ),
    decreases
            (if lo < hi {
                hi - lo
            } else {
                0
            }),
{
    if lo >= hi {
        return ;
    }
    assert(hi < v.len());
    let mut i = lo + 1;
    let mut lt = lo;
    let mut gt = hi;
    let ghost pivot = v@[lo as int];
    proof {
        lemma_operators_hold::<T>();
        lemma_less_eq_refl(pivot);
        lemma_rearranged_chain(v@, v@, v@, lo as int, hi + 1);
    }

    while i <= gt
        invariant
            total_preorder::<T>(),
            operators_hold::<T>(),
            lo <= lt < i <= gt + 1,
            gt <= hi < v@.len(),
            hi < usize::MAX,
            v@.len() == old(v)@.len(),
            rearranged_within(old(v)@, v@, lo as int, hi + 1),
            forall|p: int| lo <= p < lt ==> less(#[trigger] v@[p], pivot),
            forall|p: int|
                lt <= p < i ==> less_eq(#[trigger] v@[p], pivot) && less_eq(pivot, v@[p]),
            forall|p: int| gt < p <= hi ==> less(pivot, #[trigger] v@[p]),
        decreases gt + 1 - i,
    {
        let ghost before = v@;
        proof {
            lemma_operators(before[i as int], before[lt as int]);
            lemma_operators(before[i as int], pivot);
            lemma_operators(pivot, before[i as int]);
        }
        if v[i] < v[lt] {
            proof {
                crate::order::lemma_less_then_less_eq(before[i as int], before[lt as int], pivot);
            }
            v.swap(i, lt);
            proof {
                lemma_swapped(before, i as int, lt as int);
                lemma_swapped_within(before, i as int, lt as int, lo as int, hi + 1);
                lemma_rearranged_chain(old(v)@, before, v@, lo as int, hi + 1);
            }
            i += 1;
            lt += 1;
        } else if v[i] > v[lt] {
            proof {
                crate::order::lemma_less_eq_then_less(pivot, before[lt as int], before[i as int]);
            }
            v.swap(i, gt);
            proof {
                lemma_swapped(before, i as int, gt as int);
                lemma_swapped_within(before, i as int, gt as int, lo as int, hi + 1);
                lemma_rearranged_chain(old(v)@, before, v@, lo as int, hi + 1);
            }
            gt -= 1;
        } else   /* v[i] == v[lt] */
        {
            proof {
                lemma_operators(before[lt as int], before[i as int]);
                lemma_less_eq_trans(before[i as int], before[lt as int], pivot);
                lemma_less_eq_trans(pivot, before[lt as int], before[i as int]);
            }
            i += 1;
        }
    }
    let ghost parted = v@;

    if lt > 0 {
        sort_3way_partition(v, lo, lt - 1);
    }
    let ghost left_done = v@;
    sort_3way_partition(v, gt + 1, hi);
    proof {
        let s = v@;
        lemma_rearranged_chain(parted, parted, parted, lo as int, lt as int);
        lemma_rearranged_chain(left_done, left_done, left_done, gt + 1, hi + 1);
        assert(rearranged_within(parted, left_done, lo as int, lt as int));
        assert(rearranged_within(left_done, s, gt + 1, hi + 1));
        lemma_rearranged_elements(parted, left_done, lo as int, lt as int);
        lemma_rearranged_elements(left_done, s, gt + 1, hi + 1);
        lemma_rearranged_wider(parted, left_done, lo as int, lt as int, lo as int, hi + 1);
        lemma_rearranged_wider(left_done, s, gt + 1, hi + 1, lo as int, hi + 1);
        lemma_rearranged_chain(old(v)@, parted, left_done, lo as int, hi + 1);
        lemma_rearranged_chain(old(v)@, left_done, s, lo as int, hi + 1);
        assert forall|a: int| lo <= a < lt implies less_eq(#[trigger] s[a], pivot) by {
            assert(s[a] == left_done[a]);
            assert(occurs_between(parted, lo as int, lt as int, left_done[a]));
            let m = choose|m: int| lo <= m < lt && parted[m] == left_done[a];
            assert(less(parted[m], pivot));
            lemma_operators(parted[m], pivot);
        }
        assert forall|b: int| gt < b <= hi implies less_eq(pivot, #[trigger] s[b]) by {
            assert(occurs_between(left_done, gt + 1, hi + 1, s[b]));
            let m = choose|m: int| gt + 1 <= m < hi + 1 && left_done[m] == s[b];
            assert(left_done[m] == parted[m]);
            assert(less(pivot, parted[m]));
            lemma_operators(pivot, parted[m]);
        }
        assert forall|p: int| lt <= p <= gt implies less_eq(#[trigger] s[p], pivot) && less_eq(
            pivot,
            s[p],
        ) by {
            assert(s[p] == parted[p]);
        }
        assert forall|a: int, b: int| lo <= a < b < hi + 1 implies less_eq(
            #[trigger] s[a],
            #[trigger] s[b],
        ) by {
            if b < lt {
                assert(s[a] == left_done[a] && s[b] == left_done[b]);
                assert(less_eq(left_done[a], left_done[b]));
            } else if a > gt {
            } else {
                lemma_less_eq_trans(s[a], pivot, s[b]);
            }
        }
    }
}

/// Parts the elements of `v` from `lo` to `hi` around the one at `lo`, the
/// pivot: it comes to stand at the position that is returned, behind the
/// elements that do not come after it and in front of those that do not come
/// before it.
fn partition<T: PartialOrd>(v: &mut Vec<T>, lo: usize, hi: usize) -> (at: usize)
    requires
        total_preorder::<T>(),
        lo <= hi < old(v)@.len(),
    ensures
        lo <= at <= hi,
        final(v)@.len() == old(v)@.len(),
        rearranged_within(old(v)@, final(v)@, lo as int, hi + 1),
        final(v)@[at as int] == old(v)@[lo as int],
        forall|p: int| lo <= p < at ==> less_eq(#[trigger] final(v)@[p], final(v)@[at as int]),
        forall|p: int| at < p <= hi ==> less_eq(final(v)@[at as int], #[trigger] final(v)@[p]),
{
    let ghost pivot = v@[lo as int];
    assert(hi < v.len());
    let mut i = lo + 1;
    let mut j = hi;
    proof {
        lemma_operators_hold::<T>();
        lemma_less_eq_refl(pivot);
        lemma_rearranged_chain(v@, v@, v@, lo as int, hi + 1);
    }

    loop
        invariant_except_break
            i <= j + 1,
        invariant
            total_preorder::<T>(),
            operators_hold::<T>(),
            lo <= hi < v@.len(),
            hi < usize::MAX,
            lo + 1 <= i <= hi + 1,
            lo <= j <= hi,
            v@.len() == old(v)@.len(),
            v@[lo as int] == pivot,
            pivot == old(v)@[lo as int],
            rearranged_within(old(v)@, v@, lo as int, hi + 1),
            forall|p: int| lo < p < i ==> less_eq(#[trigger] v@[p], pivot),
            forall|p: int| j < p <= hi ==> less_eq(pivot, #[trigger] v@[p]),
        ensures
            i >= j,
            less_eq(v@[j as int], pivot),
        decreases j - lo,
    {
        let ghost reached = j;
        while i <= hi && v[i] < v[lo]
            invariant
                total_preorder::<T>(),
                operators_hold::<T>(),
                lo <= hi < v@.len(),
                hi < usize::MAX,
                lo + 1 <= i <= hi + 1,
                v@[lo as int] == pivot,
                forall|p: int| lo < p < i ==> less_eq(#[trigger] v@[p], pivot),
            decreases hi + 1 - i,
        {
            proof {
                lemma_operators(v@[i as int], pivot);
            }
            i += 1;
        }

        while j > lo && v[j] > v[lo]
            invariant
                total_preorder::<T>(),
                operators_hold::<T>(),
                lo <= hi < v@.len(),
                lo <= j <= hi,
                j <= reached,
                v@[lo as int] == pivot,
                forall|p: int| j < p <= hi ==> less_eq(pivot, #[trigger] v@[p]),
            decreases j,
        {
            proof {
                lemma_operators(pivot, v@[j as int]);
            }
            j -= 1;
        }
        proof {
            lemma_operators(v@[j as int], pivot);
        }

        if i >= j {
            break ;
        }
        let ghost before = v@;
        proof {
            lemma_operators(before[i as int], pivot);
        }
        v.swap(i, j);
        proof {
            lemma_swapped(before, i as int, j as int);
            lemma_swapped_within(before, i as int, j as int, lo as int, hi + 1);
            lemma_rearranged_chain(old(v)@, before, v@, lo as int, hi + 1);
        }
        i += 1;
        j -= 1;
    }
    let ghost before = v@;
    v.swap(lo, j);
    proof {
        lemma_swapped(before, lo as int, j as int);
        lemma_swapped_within(before, lo as int, j as int, lo as int, hi + 1);
        lemma_rearranged_chain(old(v)@, before, v@, lo as int, hi + 1);
    }
    j
}

} // verus!
