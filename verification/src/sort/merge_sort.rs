//! Merge sort, from the top down and from the bottom up.

use vstd::prelude::*;
use crate::order::{
    lemma_less_eq_trans, lemma_operators, lemma_operators_hold, less, less_eq, operators_hold,
    total_preorder,
};
use crate::ordered_seq::{sorted, sorted_range};
use crate::permutation::{
    alike, lemma_none_alike, lemma_rearranged_chain, lemma_rearranged_whole,
    lemma_rearranged_wider, lemma_stable_within, lemma_those_alike_concat,
    lemma_those_alike_push, rearranged_within, stable, those_alike,
};

verus! {

/// Sorts `v`, which holds an element at least, in ascending order: each half
/// is sorted by itself, and the two are merged.
pub fn merge_sort_top_down<T: PartialOrd + Copy>(v: &mut Vec<T>) -> (result: &Vec<T>)
    requires
        total_preorder::<T>(),
        old(v)@.len() > 0,
    ensures
        sorted(final(v)@),
        final(v)@.to_multiset() == old(v)@.to_multiset(),
        final(v)@.len() == old(v)@.len(),
        stable(old(v)@, final(v)@),
        result@ == final(v)@,
{
    let mut aux = v.clone();
    let last = v.len() - 1;
    sort(v, &mut aux, 0, last);
    proof {
        if 0 < last {
            lemma_rearranged_whole(old(v)@, v@, 0, last + 1);
        }
    }
    v
}

/// The positions of `s` that are multiples of `size` start runs of `size`
/// elements in ascending order; the last run may be shorter.
spec fn runs_sorted<T: PartialOrd>(s: Seq<T>, size: int, from: int, to: int) -> bool {
    forall|b: int|
        from <= b < to && #[trigger] (b % size) == 0 ==> sorted_range(
            s,
            b,
            if b + size < s.len() {
                b + size
            } else {
                s.len() as int
            },
        )
}

/// Multiples of twice a size are multiples of the size, and so are they with
/// the size added; two different multiples of a size lie the size apart at
/// least.
proof fn lemma_multiples(b: int, lo: int, size: int)
    requires
        size > 0,
        0 <= b,
        0 <= lo,
    ensures
        b % (2 * size) == 0 ==> b % size == 0 && (b + size) % size == 0 && (b + 2 * size) % (2
            * size) == 0,
        b % size == 0 && lo % size == 0 && b < lo ==> b + size <= lo,
        b % size == 0 ==> (b + size) % size == 0,
{
    assert(b % (2 * size) == 0 ==> b % size == 0 && (b + size) % size == 0 && (b + 2 * size) % (2
        * size) == 0) by (nonlinear_arith)
        requires
            size > 0,
            0 <= b,
    {
        if b % (2 * size) == 0 {
            let q = b / (2 * size);
            assert(b == (2 * size) * q + b % (2 * size));
            assert(b == size * (2 * q));
            assert((size * (2 * q)) % size == 0);
            assert(b + size == size * (2 * q + 1));
            assert((size * (2 * q + 1)) % size == 0);
            assert(b + 2 * size == (2 * size) * (q + 1));
            assert(((2 * size) * (q + 1)) % (2 * size) == 0);
        }
    }
    assert(b % size == 0 && lo % size == 0 && b < lo ==> b + size <= lo) by (nonlinear_arith)
        requires
            size > 0,
            0 <= b,
            0 <= lo,
    {
        if b % size == 0 && lo % size == 0 && b < lo {
            let p = b / size;
            let q = lo / size;
            assert(b == size * p + b % size);
            assert(lo == size * q + lo % size);
            assert(p < q);
            assert(size * (p + 1) <= size * q);
        }
    }
    assert(b % size == 0 ==> (b + size) % size == 0) by (nonlinear_arith)
        requires
            size > 0,
            0 <= b,
    {
        if b % size == 0 {
            let p = b / size;
            assert(b == size * p + b % size);
            assert(b + size == size * (p + 1));
            assert((size * (p + 1)) % size == 0);
        }
    }
}

/// Sorts `v` in ascending order: runs of one element are merged to runs of
/// two, these to runs of four, and so on, until one run is left.
pub fn merge_sort_bottom_up<T: PartialOrd + Copy>(v: &mut Vec<T>) -> (result: &Vec<T>)
    requires
        total_preorder::<T>(),
        old(v)@.len() <= usize::MAX / 2,
    ensures
        sorted(final(v)@),
        final(v)@.to_multiset() == old(v)@.to_multiset(),
        final(v)@.len() == old(v)@.len(),
        stable(old(v)@, final(v)@),
        result@ == final(v)@,
{
    let mut aux = v.clone();
    // first try to merge subarrays with size 1
    let mut size: usize = 1;

    // do not use size <= v.len()/2 as the loop termination condition;
    // size < v.len() works for both odd/even length.
    while size < v.len()
        invariant
            total_preorder::<T>(),
            size >= 1,
            v@.len() == old(v)@.len(),
            v@.len() <= usize::MAX / 2,
            aux@.len() == v@.len(),
            v@.to_multiset() == old(v)@.to_multiset(),
            stable(old(v)@, v@),
            runs_sorted(v@, size as int, 0, v@.len() as int),
        decreases
                (if size < v@.len() {
                    v@.len() - size
                } else {
                    0
                }),
    {
        // (v.len()-1 - lo)+1 > size -> lo < v.len() - size
        // v.len()-1: last index
        // lo: current lower bound
        // if the length from lo to the last index is less than or equal to size, a merge won't be necessary
        let mut lo: usize = 0;
        while lo < v.len() - size
            invariant
                total_preorder::<T>(),
                1 <= size < v@.len(),
                v@.len() == old(v)@.len(),
                v@.len() <= usize::MAX / 2,
                aux@.len() == v@.len(),
                v@.to_multiset() == old(v)@.to_multiset(),
                stable(old(v)@, v@),
                (lo as int) % (2 * size) == 0,
                runs_sorted(v@, 2 * size, 0, lo as int),
                runs_sorted(v@, size as int, lo as int, v@.len() as int),
            decreases v@.len() + 2 * size - lo,
        {
            let mid = lo + size - 1;
            let hi = if lo + 2 * size - 1 < v.len() - 1 {
                lo + 2 * size - 1
            } else {
                v.len() - 1
            };
            let ghost before = v@;
            proof {
                lemma_multiples(lo as int, lo as int, size as int);
                assert((lo as int) % (size as int) == 0);
                assert((lo + size) % (size as int) == 0);
            }
            merge(v, &mut aux, lo, mid, hi);
            proof {
                let s = v@;
                lemma_rearranged_whole(before, s, lo as int, hi + 1);
                assert forall|b: int|
                    0 <= b < lo + 2 * size && #[trigger] (b % (2 * size)) == 0 implies sorted_range(
                    s,
                    b,
                    if b + 2 * size < s.len() {
                        b + 2 * size
                    } else {
                        s.len() as int
                    },
                ) by {
                    lemma_multiples(b, lo as int, 2 * size);
                    lemma_multiples(lo as int, b, 2 * size);
                    if b < lo {
                        assert(sorted_range(
                            before,
                            b,
                            if b + 2 * size < before.len() {
                                b + 2 * size
                            } else {
                                before.len() as int
                            },
                        ));
                    }
                }
                assert forall|b: int|
                    lo + 2 * size <= b < s.len() && #[trigger] (b % (size as int))
                        == 0 implies sorted_range(
                    s,
                    b,
                    if b + size < s.len() {
                        b + size
                    } else {
                        s.len() as int
                    },
                ) by {
                    assert(sorted_range(
                        before,
                        b,
                        if b + size < before.len() {
                            b + size
                        } else {
                            before.len() as int
                        },
                    ));
                }
            }
            lo += 2 * size;
        }
        proof {
            let s = v@;
            assert forall|b: int|
                0 <= b < s.len() && #[trigger] (b % (2 * size)) == 0 implies sorted_range(
                s,
                b,
                if b + 2 * size < s.len() {
                    b + 2 * size
                } else {
                    s.len() as int
                },
            ) by {
                lemma_multiples(b, lo as int, size as int);
                if b >= lo {
                    assert(b % (size as int) == 0);
                    assert(sorted_range(
                        s,
                        b,
                        if b + size < s.len() {
                            b + size
                        } else {
                            s.len() as int
                        },
                    ));
                }
            }
        }
        size *= 2;
    }
    proof {
        if v@.len() > 0 {
            assert(0int % (size as int) == 0);
            assert(sorted_range(v@, 0, v@.len() as int));
        }
    }

    v
}

/// Sorts the elements of `v` from `lo` to `hi`.
fn sort<T: PartialOrd + Copy>(v: &mut Vec<T>, aux: &mut Vec<T>, lo: usize, hi: usize)
    requires
        total_preorder::<T>(),
        lo < hi ==> hi < old(v)@.len(),
        old(aux)@.len() == old(v)@.len(),
    ensures
        final(v)@.len() == old(v)@.len(),
        final(aux)@.len() == old(aux)@.len(),
        stable(old(v)@, final(v)@),
        lo >= hi ==> final(v)@ == old(v)@,
        lo < hi ==> sorted_range(final(v)@, lo as int, hi + 1) && rearranged_within(
            old(v)@,
            final(v)@,
            lo as int,
            hi + 1,
        ),
    decreases hi - lo,
{
    if lo >= hi {
        return
    }
    let mid = lo + (hi - lo) / 2;
    sort(v, aux, lo, mid);
    let ghost first = v@;
    sort(v, aux, mid + 1, hi);
    let ghost second = v@;
    proof {
        lemma_rearranged_chain(old(v)@, old(v)@, old(v)@, lo as int, hi + 1);
        if lo < mid {
            lemma_rearranged_wider(old(v)@, first, lo as int, mid + 1, lo as int, hi + 1);
        }
        lemma_rearranged_chain(first, first, first, lo as int, hi + 1);
        if mid + 1 < hi {
            lemma_rearranged_wider(first, second, mid + 1, hi + 1, lo as int, hi + 1);
        }
        lemma_rearranged_chain(old(v)@, first, second, lo as int, hi + 1);
    }
    merge(v, aux, lo, mid, hi);
    proof {
        lemma_rearranged_chain(old(v)@, second, v@, lo as int, hi + 1);
    }
}

/// Merges the elements of `v` from `lo` to `mid` with those from `mid + 1` to
/// `hi`, both in ascending order, so that the elements from `lo` to `hi` are
/// in ascending order.
fn merge<T: PartialOrd + Copy>(v: &mut Vec<T>, aux: &mut Vec<T>, lo: usize, mid: usize, hi: usize)
    requires
        total_preorder::<T>(),
        lo <= mid < hi < old(v)@.len(),
        old(aux)@.len() == old(v)@.len(),
        sorted_range(old(v)@, lo as int, mid + 1),
        sorted_range(old(v)@, mid + 1, hi + 1),
    ensures
        final(v)@.len() == old(v)@.len(),
        final(aux)@.len() == old(aux)@.len(),
        sorted_range(final(v)@, lo as int, hi + 1),
        rearranged_within(old(v)@, final(v)@, lo as int, hi + 1),
        stable(old(v)@.subrange(lo as int, hi + 1), final(v)@.subrange(lo as int, hi + 1)),
        stable(old(v)@, final(v)@),
{
    proof {
        lemma_operators_hold::<T>();
        lemma_rearranged_chain(v@, v@, v@, lo as int, hi + 1);
    }
    assert(hi < v.len());
    // skip if v[lo..=hi] is in sorted order
    if v[mid] <= v[mid + 1] {
        proof {
            let s = v@;
            assert forall|a: int, b: int| lo <= a < b < hi + 1 implies less_eq(
                #[trigger] s[a],
                #[trigger] s[b],
            ) by {
                if a <= mid && b > mid {
                    if a < mid {
                        assert(less_eq(s[a], s[mid as int]));
                    } else {
                        crate::order::lemma_less_eq_refl(s[a]);
                    }
                    if b > mid + 1 {
                        assert(less_eq(s[mid + 1], s[b]));
                    } else {
                        crate::order::lemma_less_eq_refl(s[b]);
                    }
                    lemma_less_eq_trans(s[a], s[mid as int], s[mid + 1]);
                    lemma_less_eq_trans(s[a], s[mid + 1], s[b]);
                }
            }
        }
        return
    }
    let mut c: usize = lo;
    while c <= hi
        invariant
            lo <= c <= hi + 1,
            hi < v@.len(),
            hi < usize::MAX,
            aux@.len() == v@.len(),
            forall|p: int| lo <= p < c ==> aux@[p] == v@[p],
        decreases hi + 1 - c,
    {
        aux[c] = v[c];
        c += 1;
    }

    let ghost held = aux@;
    let mut i: usize = lo;
    let mut j: usize = mid + 1;
    let mut k: usize = lo;
    proof {
        assert(v@.subrange(lo as int, k as int) =~= Seq::<T>::empty());
        assert(held.subrange(lo as int, i as int) =~= Seq::<T>::empty());
        assert(held.subrange(mid + 1, j as int) =~= Seq::<T>::empty());
        vstd::seq_lib::lemma_multiset_commutative(Seq::<T>::empty(), Seq::<T>::empty());
        assert forall|x: T| #[trigger]
            those_alike(v@.subrange(lo as int, k as int), x) == those_alike(
                held.subrange(lo as int, i as int),
                x,
            ) + those_alike(held.subrange(mid + 1, j as int), x) by {
            assert(Seq::<T>::empty() + Seq::<T>::empty() =~= Seq::<T>::empty());
        }
    }
    while k <= hi
        invariant
            total_preorder::<T>(),
            operators_hold::<T>(),
            lo <= mid < hi < v@.len(),
            hi < usize::MAX,
            v@.len() == old(v)@.len(),
            aux@ == held,
            held.len() == v@.len(),
            lo <= i <= mid + 1,
            mid + 1 <= j <= hi + 1,
            lo <= k <= hi + 1,
            k - lo == (i - lo) + (j - (mid + 1)),
            forall|p: int| lo <= p <= hi ==> held[p] == old(v)@[p],
            forall|p: int| 0 <= p < lo || hi < p < v@.len() ==> v@[p] == old(v)@[p],
            sorted_range(held, lo as int, mid + 1),
            sorted_range(held, mid + 1, hi + 1),
            sorted_range(v@, lo as int, k as int),
            forall|p: int, q: int|
                lo <= p < k && i <= q <= mid ==> less_eq(#[trigger] v@[p], #[trigger] held[q]),
            forall|p: int, q: int|
                lo <= p < k && j <= q <= hi ==> less_eq(#[trigger] v@[p], #[trigger] held[q]),
            v@.subrange(lo as int, k as int).to_multiset() == held.subrange(
                lo as int,
                i as int,
            ).to_multiset().add(held.subrange(mid + 1, j as int).to_multiset()),
            forall|x: T| #[trigger]
                those_alike(v@.subrange(lo as int, k as int), x) == those_alike(
                    held.subrange(lo as int, i as int),
                    x,
                ) + those_alike(held.subrange(mid + 1, j as int), x),
            forall|p: int, q: int|
                mid + 1 <= p < j && i <= q <= mid ==> less(#[trigger] held[p], #[trigger] held[q]),
        decreases hi + 1 - k,
    {
        let ghost before = v@;
        let ghost i0 = i as int;
        let ghost j0 = j as int;
        let ghost taken_left = i > mid || (j <= hi && crate::order::less(held[j as int], held[i as int]));
        if i > mid {
            v[k] = aux[j];
            j += 1
        } else if j > hi {
            v[k] = aux[i];
            i += 1
        } else if aux[i] > aux[j] {
            v[k] = aux[j];
            j += 1;
        } else {
            v[k] = aux[i];
            i += 1;
        }
        proof {
            let s = v@;
            let x = s[k as int];
            assert(s.subrange(lo as int, k as int) =~= before.subrange(lo as int, k as int));
            assert(s.subrange(lo as int, k + 1) =~= before.subrange(lo as int, k as int).push(x));
            vstd::seq_lib::to_multiset_build(before.subrange(lo as int, k as int), x);
            if taken_left {
                assert(x == held[j - 1]);
                assert(held.subrange(mid + 1, j as int) =~= held.subrange(mid + 1, j - 1).push(
                    x,
                ));
                vstd::seq_lib::to_multiset_build(held.subrange(mid + 1, j - 1), x);
                assert(held.subrange(lo as int, i as int).to_multiset().add(
                    held.subrange(mid + 1, j - 1).to_multiset(),
                ).insert(x) =~= held.subrange(lo as int, i as int).to_multiset().add(
                    held.subrange(mid + 1, j - 1).to_multiset().insert(x),
                ));
                assert forall|p: int, q: int| lo <= p < k + 1 && i <= q <= mid implies less_eq(
                    #[trigger] s[p],
                    #[trigger] held[q],
                ) by {
                    if p == k {
                        if q > i {
                            assert(less_eq(held[i as int], held[q]));
                            lemma_less_eq_trans(x, held[i as int], held[q]);
                        }
                    } else {
                        assert(less_eq(before[p], held[q]));
                    }
                }
                assert forall|p: int, q: int| lo <= p < k + 1 && j <= q <= hi implies less_eq(
                    #[trigger] s[p],
                    #[trigger] held[q],
                ) by {
                    if p == k {
                        assert(less_eq(held[j - 1], held[q]));
                    } else {
                        assert(less_eq(before[p], held[q]));
                    }
                }
            } else {
                assert(x == held[i - 1]);
                assert(held.subrange(lo as int, i as int) =~= held.subrange(lo as int, i - 1).push(
                    x,
                ));
                vstd::seq_lib::to_multiset_build(held.subrange(lo as int, i - 1), x);
                assert(held.subrange(lo as int, i - 1).to_multiset().add(
                    held.subrange(mid + 1, j as int).to_multiset(),
                ).insert(x) =~= held.subrange(lo as int, i - 1).to_multiset().insert(x).add(
                    held.subrange(mid + 1, j as int).to_multiset(),
                ));
                assert forall|p: int, q: int| lo <= p < k + 1 && i <= q <= mid implies less_eq(
                    #[trigger] s[p],
                    #[trigger] held[q],
                ) by {
                    if p == k {
                        assert(less_eq(held[i - 1], held[q]));
                    } else {
                        assert(less_eq(before[p], held[q]));
                    }
                }
                assert forall|p: int, q: int| lo <= p < k + 1 && j <= q <= hi implies less_eq(
                    #[trigger] s[p],
                    #[trigger] held[q],
                ) by {
                    if p == k {
                        if q > j {
                            assert(less_eq(held[j as int], held[q]));
                            lemma_less_eq_trans(x, held[j as int], held[q]);
                        }
                    } else {
                        assert(less_eq(before[p], held[q]));
                    }
                }
            }
            assert forall|a: int, b: int| lo <= a < b < k + 1 implies less_eq(
                #[trigger] s[a],
                #[trigger] s[b],
            ) by {
                if b == k {
                    if taken_left {
                        assert(less_eq(before[a], held[j - 1]));
                    } else {
                        assert(less_eq(before[a], held[i - 1]));
                    }
                } else {
                    assert(less_eq(before[a], before[b]));
                }
            }
            let out = before.subrange(lo as int, k as int);
            let left = held.subrange(lo as int, i0);
            let right = held.subrange(mid + 1, j0);
            assert forall|p: int, q: int| mid + 1 <= p < j && i <= q <= mid implies less(
                #[trigger] held[p],
                #[trigger] held[q],
            ) by {
                if p == j0 {
                    if q > i0 {
                        assert(less_eq(held[i0], held[q]));
                        crate::order::lemma_less_then_less_eq(held[p], held[i0], held[q]);
                    }
                }
            }
            assert forall|y: T| #[trigger]
                those_alike(s.subrange(lo as int, k + 1), y) == those_alike(
                    held.subrange(lo as int, i as int),
                    y,
                ) + those_alike(held.subrange(mid + 1, j as int), y) by {
                assert(those_alike(out, y) == those_alike(left, y) + those_alike(right, y));
                lemma_those_alike_push(out, x, y);
                if taken_left {
                    lemma_those_alike_push(right, x, y);
                    assert((those_alike(left, y) + those_alike(right, y)).push(x) =~= those_alike(
                        left,
                        y,
                    ) + those_alike(right, y).push(x));
                } else {
                    lemma_those_alike_push(left, x, y);
                    if alike(x, y) {
                        assert forall|m: int| 0 <= m < right.len() implies !alike(
                            #[trigger] right[m],
                            y,
                        ) by {
                            assert(right[m] == held[mid + 1 + m]);
                            assert(less(held[mid + 1 + m], held[i0]));
                            lemma_operators(held[mid + 1 + m], x);
                            if alike(right[m], y) {
                                lemma_less_eq_trans(x, y, right[m]);
                            }
                        }
                        lemma_none_alike(right, y);
                        assert((those_alike(left, y) + Seq::<T>::empty()).push(x) =~= those_alike(
                            left,
                            y,
                        ).push(x) + Seq::<T>::empty());
                    }
                }
            }
        }
        k += 1;
    }
    proof {
        let s = v@;
        assert(held.subrange(lo as int, hi + 1) =~= held.subrange(lo as int, mid + 1)
            + held.subrange(mid + 1, hi + 1));
        vstd::seq_lib::lemma_multiset_commutative(
            held.subrange(lo as int, mid + 1),
            held.subrange(mid + 1, hi + 1),
        );
        assert(held.subrange(lo as int, hi + 1) =~= old(v)@.subrange(lo as int, hi + 1));
        assert forall|x: T| #[trigger]
            those_alike(s.subrange(lo as int, hi + 1), x) == those_alike(
                old(v)@.subrange(lo as int, hi + 1),
                x,
            ) by {
            lemma_those_alike_concat(
                held.subrange(lo as int, mid + 1),
                held.subrange(mid + 1, hi + 1),
                x,
            );
        }
        lemma_stable_within(old(v)@, s, lo as int, hi + 1);
    }
}

} // verus!
