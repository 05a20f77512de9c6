//! Rearranging the elements of a vector: the exchange of two elements, and
//! what it leaves unchanged.

use vstd::prelude::*;
use crate::order::{lemma_less_eq_trans, less_eq, total_preorder};

verus! {

/// `s` with the elements at `i` and `j` exchanged.
pub open spec fn swapped<T>(s: Seq<T>, i: int, j: int) -> Seq<T> {
    s.update(i, s[j]).update(j, s[i])
}

/// The method `swap` of slices, which vectors have too. It exchanges the
/// elements at the two positions and leaves the others where they are; it
/// panics where a position lies outside the slice, which `requires` excludes.
pub assume_specification<Element>[ <[Element]>::swap ](slice: &mut [Element], a: usize, b: usize)
    requires
        a < old(slice)@.len(),
        b < old(slice)@.len(),
    ensures
        final(slice)@ == swapped(old(slice)@, a as int, b as int),
;

/// An exchange keeps the length and the elements, each as often as it occurred.
pub proof fn lemma_swapped<T>(s: Seq<T>, i: int, j: int)
    requires
        0 <= i < s.len(),
        0 <= j < s.len(),
    ensures
        swapped(s, i, j).len() == s.len(),
        swapped(s, i, j).to_multiset() == s.to_multiset(),
        swapped(s, i, j)[i] == s[j],
        swapped(s, i, j)[j] == s[i],
        forall|k: int| 0 <= k < s.len() && k != i && k != j ==> swapped(s, i, j)[k] == s[k],
{
    vstd::seq_lib::to_multiset_update(s, i, s[j]);
    vstd::seq_lib::to_multiset_update(s.update(i, s[j]), j, s[i]);
    vstd::seq_lib::to_multiset_contains(s, s[i]);
    vstd::seq_lib::to_multiset_contains(s, s[j]);
    assert(s.contains(s[i]));
    assert(s.contains(s[j]));
    if i == j {
        assert(swapped(s, i, j) =~= s);
    } else {
        assert(s.to_multiset().insert(s[j]).remove(s[i]).insert(s[i]).remove(s[j])
            =~= s.to_multiset());
    }
}

/// `after` holds between `lo` and `hi` what `before` holds there, each element
/// as often, and is `before` everywhere else.
pub open spec fn rearranged_within<T>(before: Seq<T>, after: Seq<T>, lo: int, hi: int) -> bool {
    &&& after.len() == before.len()
    &&& after.subrange(lo, hi).to_multiset() == before.subrange(lo, hi).to_multiset()
    &&& forall|k: int| 0 <= k < lo || hi <= k < before.len() ==> after[k] == before[k]
}

/// A sequence is a rearrangement of itself, and a rearrangement of a
/// rearrangement is one.
pub proof fn lemma_rearranged_chain<T>(a: Seq<T>, b: Seq<T>, c: Seq<T>, lo: int, hi: int)
    requires
        0 <= lo <= hi <= a.len(),
    ensures
        rearranged_within(a, a, lo, hi),
        rearranged_within(a, b, lo, hi) && rearranged_within(b, c, lo, hi) ==> rearranged_within(
            a,
            c,
            lo,
            hi,
        ),
{
}

/// An exchange of two elements between `lo` and `hi` is a rearrangement
/// within these bounds.
pub proof fn lemma_swapped_within<T>(s: Seq<T>, i: int, j: int, lo: int, hi: int)
    requires
        0 <= lo <= i < hi <= s.len(),
        lo <= j < hi,
    ensures
        rearranged_within(s, swapped(s, i, j), lo, hi),
{
    let part = s.subrange(lo, hi);
    lemma_swapped(part, i - lo, j - lo);
    assert(swapped(s, i, j).subrange(lo, hi) =~= swapped(part, i - lo, j - lo));
}

/// What is rearranged within narrow bounds is rearranged within wider ones.
pub proof fn lemma_rearranged_wider<T>(
    before: Seq<T>,
    after: Seq<T>,
    lo: int,
    hi: int,
    wide_lo: int,
    wide_hi: int,
)
    requires
        0 <= wide_lo <= lo <= hi <= wide_hi <= before.len(),
        rearranged_within(before, after, lo, hi),
    ensures
        rearranged_within(before, after, wide_lo, wide_hi),
{
    let b = before.subrange(wide_lo, wide_hi);
    let a = after.subrange(wide_lo, wide_hi);
    let b1 = before.subrange(wide_lo, lo);
    let b2 = before.subrange(lo, hi);
    let b3 = before.subrange(hi, wide_hi);
    let a1 = after.subrange(wide_lo, lo);
    let a2 = after.subrange(lo, hi);
    let a3 = after.subrange(hi, wide_hi);
    assert(a1 =~= b1);
    assert(a3 =~= b3);
    assert(b =~= (b1 + b2) + b3);
    assert(a =~= (a1 + a2) + a3);
    vstd::seq_lib::lemma_multiset_commutative(b1 + b2, b3);
    vstd::seq_lib::lemma_multiset_commutative(b1, b2);
    vstd::seq_lib::lemma_multiset_commutative(a1 + a2, a3);
    vstd::seq_lib::lemma_multiset_commutative(a1, a2);
}

/// What is rearranged within bounds holds as a whole what it held before,
/// each element as often.
pub proof fn lemma_rearranged_whole<T>(before: Seq<T>, after: Seq<T>, lo: int, hi: int)
    requires
        0 <= lo <= hi <= before.len(),
        rearranged_within(before, after, lo, hi),
    ensures
        after.to_multiset() == before.to_multiset(),
{
    lemma_rearranged_wider(before, after, lo, hi, 0, before.len() as int);
    assert(before.subrange(0, before.len() as int) =~= before);
    assert(after.subrange(0, after.len() as int) =~= after);
}

/// `x` stands in `s` at a position from `lo` up to `hi`, the latter excluded.
pub open spec fn occurs_between<T>(s: Seq<T>, lo: int, hi: int, x: T) -> bool {
    exists|m: int| lo <= m < hi && s[m] == x
}

/// Every element that stands between the bounds after a rearrangement stood
/// between them before, and the other way round.
pub proof fn lemma_rearranged_elements<T>(before: Seq<T>, after: Seq<T>, lo: int, hi: int)
    requires
        0 <= lo <= hi <= before.len(),
        rearranged_within(before, after, lo, hi),
    ensures
        forall|k: int| lo <= k < hi ==> occurs_between(before, lo, hi, #[trigger] after[k]),
        forall|k: int| lo <= k < hi ==> occurs_between(after, lo, hi, #[trigger] before[k]),
{
    let b = before.subrange(lo, hi);
    let a = after.subrange(lo, hi);
    assert forall|k: int| lo <= k < hi implies occurs_between(
        before,
        lo,
        hi,
        #[trigger] after[k],
    ) by {
        vstd::seq_lib::to_multiset_contains(a, after[k]);
        vstd::seq_lib::to_multiset_contains(b, after[k]);
        assert(a[k - lo] == after[k]);
        assert(a.contains(after[k]));
        let m = choose|m: int| 0 <= m < b.len() && b[m] == after[k];
        assert(before[lo + m] == after[k]);
    }
    assert forall|k: int| lo <= k < hi implies occurs_between(
        after,
        lo,
        hi,
        #[trigger] before[k],
    ) by {
        vstd::seq_lib::to_multiset_contains(a, before[k]);
        vstd::seq_lib::to_multiset_contains(b, before[k]);
        assert(b[k - lo] == before[k]);
        assert(b.contains(before[k]));
        let m = choose|m: int| 0 <= m < a.len() && a[m] == before[k];
        assert(after[lo + m] == before[k]);
    }
}

/// Neither of `a` and `b` comes before the other.
pub open spec fn alike<T: PartialOrd>(a: T, b: T) -> bool {
    less_eq(a, b) && less_eq(b, a)
}

/// The elements of `s` that are alike to `x`, in the order in which they
/// stand in `s`.
pub open spec fn those_alike<T: PartialOrd>(s: Seq<T>, x: T) -> Seq<T>
    decreases s.len(),
{
    if s.len() == 0 {
        Seq::empty()
    } else if alike(s.last(), x) {
        those_alike(s.drop_last(), x).push(s.last())
    } else {
        those_alike(s.drop_last(), x)
    }
}

/// Elements that are alike stand in `after` in the order in which they stood
/// in `before`.
pub open spec fn stable<T: PartialOrd>(before: Seq<T>, after: Seq<T>) -> bool {
    forall|x: T| #[trigger] those_alike(after, x) == those_alike(before, x)
}

/// The elements alike to `x` in a concatenation are those of the first part,
/// then those of the second.
pub proof fn lemma_those_alike_concat<T: PartialOrd>(a: Seq<T>, b: Seq<T>, x: T)
    ensures
        those_alike(a + b, x) == those_alike(a, x) + those_alike(b, x),
    decreases b.len(),
{
    if b.len() == 0 {
        assert(a + b =~= a);
        assert(those_alike(a, x) + those_alike(b, x) =~= those_alike(a, x));
    } else {
        lemma_those_alike_concat(a, b.drop_last(), x);
        assert((a + b).drop_last() =~= a + b.drop_last());
        assert((a + b).last() == b.last());
        if alike(b.last(), x) {
            assert((those_alike(a, x) + those_alike(b.drop_last(), x)).push(b.last())
                =~= those_alike(a, x) + those_alike(b.drop_last(), x).push(b.last()));
        }
    }
}

/// The elements alike to `x` in a sequence of one element.
pub proof fn lemma_those_alike_single<T: PartialOrd>(e: T, x: T)
    ensures
        those_alike(seq![e], x) == (if alike(e, x) {
            seq![e]
        } else {
            Seq::<T>::empty()
        }),
{
    let s = seq![e];
    assert(s.drop_last() =~= Seq::<T>::empty());
    assert(s.last() == e);
    assert(those_alike(s.drop_last(), x) =~= Seq::<T>::empty());
    if alike(e, x) {
        assert(Seq::<T>::empty().push(e) =~= seq![e]);
    }
}

/// The elements alike to `x` in a sequence with one more element at its end.
pub proof fn lemma_those_alike_push<T: PartialOrd>(s: Seq<T>, e: T, x: T)
    ensures
        those_alike(s.push(e), x) == (if alike(e, x) {
            those_alike(s, x).push(e)
        } else {
            those_alike(s, x)
        }),
{
    assert(s.push(e).drop_last() =~= s);
    assert(s.push(e).last() == e);
}

/// A sequence in which no element is alike to `x` holds none that is.
pub proof fn lemma_none_alike<T: PartialOrd>(s: Seq<T>, x: T)
    requires
        forall|k: int| 0 <= k < s.len() ==> !alike(#[trigger] s[k], x),
    ensures
        those_alike(s, x) == Seq::<T>::empty(),
    decreases s.len(),
{
    if s.len() > 0 {
        assert forall|k: int| 0 <= k < s.drop_last().len() implies !alike(
            #[trigger] s.drop_last()[k],
            x,
        ) by {
            assert(s.drop_last()[k] == s[k]);
        }
        lemma_none_alike(s.drop_last(), x);
    }
}

/// An exchange of two neighbours that are not alike leaves elements that are
/// alike in their order.
pub proof fn lemma_exchange_is_stable<T: PartialOrd>(s: Seq<T>, j: int)
    requires
        total_preorder::<T>(),
        0 < j < s.len(),
        !alike(s[j], s[j - 1]),
    ensures
        stable(s, swapped(s, j, j - 1)),
{
    let front = s.take(j - 1);
    let back = s.skip(j + 1);
    let a = s[j - 1];
    let b = s[j];
    let t = swapped(s, j, j - 1);
    assert(s =~= ((front + seq![a]) + seq![b]) + back);
    assert(t =~= ((front + seq![b]) + seq![a]) + back);
    assert forall|x: T| #[trigger] those_alike(t, x) == those_alike(s, x) by {
        lemma_those_alike_concat((front + seq![a]) + seq![b], back, x);
        lemma_those_alike_concat(front + seq![a], seq![b], x);
        lemma_those_alike_concat(front, seq![a], x);
        lemma_those_alike_concat((front + seq![b]) + seq![a], back, x);
        lemma_those_alike_concat(front + seq![b], seq![a], x);
        lemma_those_alike_concat(front, seq![b], x);
        lemma_those_alike_single(a, x);
        lemma_those_alike_single(b, x);
        if alike(a, x) && alike(b, x) {
            lemma_less_eq_trans(a, x, b);
            lemma_less_eq_trans(b, x, a);
        }
        let fa = those_alike(front, x);
        if alike(a, x) {
            assert((fa + seq![a]) + Seq::<T>::empty() =~= (fa + Seq::<T>::empty()) + seq![a]);
        } else if alike(b, x) {
            assert((fa + seq![b]) + Seq::<T>::empty() =~= (fa + Seq::<T>::empty()) + seq![b]);
        }
    }
}

/// Where elements that are alike keep their order between two bounds and
/// nothing else changes, they keep it in the whole sequence.
pub proof fn lemma_stable_within<T: PartialOrd>(before: Seq<T>, after: Seq<T>, lo: int, hi: int)
    requires
        0 <= lo <= hi <= before.len(),
        after.len() == before.len(),
        stable(before.subrange(lo, hi), after.subrange(lo, hi)),
        forall|k: int| 0 <= k < lo || hi <= k < before.len() ==> after[k] == before[k],
    ensures
        stable(before, after),
{
    let n = before.len() as int;
    assert(before =~= (before.subrange(0, lo) + before.subrange(lo, hi)) + before.subrange(hi, n));
    assert(after =~= (after.subrange(0, lo) + after.subrange(lo, hi)) + after.subrange(hi, n));
    assert(after.subrange(0, lo) =~= before.subrange(0, lo));
    assert(after.subrange(hi, n) =~= before.subrange(hi, n));
    assert forall|x: T| #[trigger] those_alike(after, x) == those_alike(before, x) by {
        lemma_those_alike_concat(
            before.subrange(0, lo) + before.subrange(lo, hi),
            before.subrange(hi, n),
            x,
        );
        lemma_those_alike_concat(before.subrange(0, lo), before.subrange(lo, hi), x);
        lemma_those_alike_concat(
            after.subrange(0, lo) + after.subrange(lo, hi),
            after.subrange(hi, n),
            x,
        );
        lemma_those_alike_concat(after.subrange(0, lo), after.subrange(lo, hi), x);
        assert(those_alike(after.subrange(lo, hi), x) == those_alike(before.subrange(lo, hi), x));
    }
}

} // verus!
