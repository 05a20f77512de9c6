//! Insertion sort and Shell sort.

use vstd::prelude::*;
use crate::order::{
    lemma_less_eq_trans, lemma_operators_hold, less_eq, operators_hold, total_preorder,
};
use crate::ordered_seq::{sorted, sorted_range};
use crate::permutation::{lemma_exchange_is_stable, lemma_swapped, stable};

verus! {

/// The elements of `s` up to position `last` are in ascending order, but for
/// the one at `moving`, which may come before elements in front of it.
spec fn sorted_but<T: PartialOrd>(s: Seq<T>, last: int, moving: int) -> bool {
    forall|a: int, b: int|
        0 <= a < b <= last && b != moving ==> less_eq(#[trigger] s[a], #[trigger] s[b])
}

/// Sorts `v` in ascending order: one element after the other is moved
/// towards the front, past the elements that come after it.
pub fn insertion_sort<T: PartialOrd>(v: &mut Vec<T>) -> (result: &Vec<T>)
    requires
        total_preorder::<T>(),
    ensures
        sorted(final(v)@),
        final(v)@.to_multiset() == old(v)@.to_multiset(),
        final(v)@.len() == old(v)@.len(),
        stable(old(v)@, final(v)@),
        result@ == final(v)@,
{
    if v.len() <= 1 {
        return v;
    }
    proof {
        lemma_operators_hold::<T>();
    }
    let mut i: usize = 1;
    while i < v.len()
        invariant
            total_preorder::<T>(),
            operators_hold::<T>(),
            1 <= i <= v@.len(),
            v@.len() == old(v)@.len(),
            v@.to_multiset() == old(v)@.to_multiset(),
            stable(old(v)@, v@),
            sorted_range(v@, 0, i as int),
        decreases v@.len() - i,
    {
        let mut j: usize = i;
        while j >= 1
            invariant_except_break
                sorted_but(v@, i as int, j as int),
            invariant
                total_preorder::<T>(),
                operators_hold::<T>(),
                j <= i < v@.len(),
                v@.len() == old(v)@.len(),
                v@.to_multiset() == old(v)@.to_multiset(),
                stable(old(v)@, v@),
            ensures
                sorted_range(v@, 0, i + 1),
            decreases j,
        {
            // compare v[j] with v[j-1]
            if v[j] < v[j - 1] {
                let ghost before = v@;
                v.swap(j, j - 1);
                proof {
                    lemma_swapped(before, j as int, j - 1);
                    lemma_exchange_is_stable(before, j as int);
                    let s = v@;
                    assert forall|a: int, b: int| 0 <= a < b <= i && b != j - 1 implies less_eq(
                        #[trigger] s[a],
                        #[trigger] s[b],
                    ) by {
                        if b == j {
                            if a < j - 1 {
                                assert(less_eq(before[a], before[j - 1]));
                            }
                        } else if a == j {
                            assert(less_eq(before[j - 1], before[b]));
                        } else if a == j - 1 {
                            assert(less_eq(before[j - 1], before[b]));
                            lemma_less_eq_trans(before[j as int], before[j - 1], before[b]);
                        } else {
                            assert(less_eq(before[a], before[b]));
                        }
                    }
                }
            } else {
                proof {
                    let s = v@;
                    assert forall|a: int, b: int| 0 <= a < b < i + 1 implies less_eq(
                        #[trigger] s[a],
                        #[trigger] s[b],
                    ) by {
                        if b == j && a < j - 1 {
                            assert(less_eq(s[a], s[j - 1]));
                            lemma_less_eq_trans(s[a], s[j - 1], s[j as int]);
                        }
                    }
                }
                break ;
            }
            j -= 1;
        }
        i += 1;
    }
    v
}

/// The gaps that Shell sort works with: 1, 4, 13 and so on, each three times
/// the one before and one more.
spec fn is_gap(h: int) -> bool
    decreases h,
{
    h == 1 || (h >= 4 && h % 3 == 1 && is_gap(h / 3))
}

/// Sorts `v` in ascending order. For a gap `h` that shrinks from pass to
/// pass, every element is moved towards the front in steps of `h`, past the
/// elements that come after it. The last pass, with the gap 1, is an
/// insertion sort.
pub fn shell_sort<T: PartialOrd>(v: &mut Vec<T>) -> (result: &Vec<T>)
    requires
        total_preorder::<T>(),
    ensures
        sorted(final(v)@),
        final(v)@.to_multiset() == old(v)@.to_multiset(),
        final(v)@.len() == old(v)@.len(),
        result@ == final(v)@,
{
    if v.len() <= 1 {
        return v;
    }
    proof {
        lemma_operators_hold::<T>();
    }
    let mut h: usize = 1;
    while h < v.len() / 3
        invariant
            is_gap(h as int),
            h < v@.len(),
        decreases v@.len() - h,
    {
        h = 3 * h + 1;
    }

    // when h == 1, shell sort becomes insertion sort
    while h >= 1
        invariant
            total_preorder::<T>(),
            operators_hold::<T>(),
            v@.len() == old(v)@.len(),
            v@.to_multiset() == old(v)@.to_multiset(),
            h >= 1 ==> is_gap(h as int),
            h == 0 ==> sorted(v@),
        decreases h,
    {
        let mut i: usize = h;
        while i < v.len()
            invariant
                total_preorder::<T>(),
                operators_hold::<T>(),
                1 <= h <= i,
                v@.len() == old(v)@.len(),
                v@.to_multiset() == old(v)@.to_multiset(),
                h == 1 ==> sorted_range(v@, 0, i as int),
            decreases v@.len() - i,
        {
            let mut j: usize = i;
            while j >= h
                invariant_except_break
                    h == 1 ==> sorted_but(v@, i as int, j as int),
                invariant
                    total_preorder::<T>(),
                    operators_hold::<T>(),
                    1 <= h,
                    j <= i < v@.len(),
                    v@.len() == old(v)@.len(),
                    v@.to_multiset() == old(v)@.to_multiset(),
                ensures
                    h == 1 ==> sorted_range(v@, 0, i + 1),
                decreases j,
            {
                if v[j] < v[j - h] {
                    let ghost before = v@;
                    v.swap(j, j - h);
                    proof {
                        lemma_swapped(before, j as int, j - h);
                        let s = v@;
                        if h == 1 {
                            assert forall|a: int, b: int|
                                0 <= a < b <= i && b != j - 1 implies less_eq(
                                #[trigger] s[a],
                                #[trigger] s[b],
                            ) by {
                                if b == j {
                                    if a < j - 1 {
                                        assert(less_eq(before[a], before[j - 1]));
                                    }
                                } else if a == j {
                                    assert(less_eq(before[j - 1], before[b]));
                                } else if a == j - 1 {
                                    assert(less_eq(before[j - 1], before[b]));
                                    lemma_less_eq_trans(
                                        before[j as int],
                                        before[j - 1],
                                        before[b],
                                    );
                                } else {
                                    assert(less_eq(before[a], before[b]));
                                }
                            }
                        }
                    }
                } else {
                    proof {
                        let s = v@;
                        if h == 1 {
                            assert forall|a: int, b: int| 0 <= a < b < i + 1 implies less_eq(
                                #[trigger] s[a],
                                #[trigger] s[b],
                            ) by {
                                if b == j && a < j - 1 {
                                    assert(less_eq(s[a], s[j - 1]));
                                    lemma_less_eq_trans(s[a], s[j - 1], s[j as int]);
                                }
                            }
                        }
                    }
                    break ;
                }
                j -= h;
            }
            i += 1;
        }

        h /= 3
    }

    v
}

} // verus!
