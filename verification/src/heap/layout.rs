//! A binary max-heap laid out in a sequence, level by level: the element at
//! position `k` has its parent at `(k - 1) / 2` and its children at
//! `2 * k + 1` and `2 * k + 2`.

use vstd::prelude::*;
use crate::order::{lemma_less_eq_refl, lemma_less_eq_trans, less_eq, total_preorder};

verus! {

/// The position of the parent of the element at `child`.
pub open spec fn parent(child: int) -> int {
    (child - 1) / 2
}

/// Among the first `end` elements of `s`, every element whose parent stands
/// at `start` or behind it, and not at `hole`, does not come after its parent.
pub open spec fn heap_but<T: PartialOrd>(s: Seq<T>, start: int, end: int, hole: int) -> bool {
    forall|c: int|
        0 < c < end && start <= parent(c) && parent(c) != hole ==> less_eq(
            #[trigger] s[c],
            s[parent(c)],
        )
}

/// Among the first `end` elements of `s`, every element whose parent stands
/// at `start` or behind it does not come after its parent.
pub open spec fn heap_from<T: PartialOrd>(s: Seq<T>, start: int, end: int) -> bool {
    forall|c: int|
        0 < c < end && start <= parent(c) ==> less_eq(#[trigger] s[c], s[parent(c)])
}

/// Where the parent of `hole` stands at `start` or behind it, no child of
/// `hole` among the first `end` elements comes after that parent.
pub open spec fn bridged<T: PartialOrd>(s: Seq<T>, start: int, end: int, hole: int) -> bool {
    hole > 0 && start <= parent(hole) ==> forall|c: int|
        0 < c < end && parent(c) == hole ==> less_eq(#[trigger] s[c], s[parent(hole)])
}

/// Every element of `s` but the one at `hole` does not come after its parent.
pub open spec fn heap_but_child<T: PartialOrd>(s: Seq<T>, hole: int) -> bool {
    forall|c: int| 0 < c < s.len() && c != hole ==> less_eq(#[trigger] s[c], s[parent(c)])
}

/// The first `end` elements of `s` are in heap order: none comes after its
/// parent.
pub open spec fn heap_ordered<T: PartialOrd>(s: Seq<T>, end: int) -> bool {
    heap_from(s, 0, end)
}

/// The position `k` lies in the subtree that starts at `top`: it is `top`, or
/// its parent lies in that subtree.
pub open spec fn below(top: int, k: int) -> bool
    decreases k,
{
    k == top || (k > top && k > 0 && below(top, parent(k)))
}

/// Among the first `end` elements of `s`, every element whose parent lies in
/// the subtree at `top`, and not at `hole`, does not come after its parent.
pub open spec fn subtree_but<T: PartialOrd>(s: Seq<T>, top: int, end: int, hole: int) -> bool {
    forall|c: int|
        0 < c < end && below(top, parent(c)) && parent(c) != hole ==> less_eq(
            #[trigger] s[c],
            s[parent(c)],
        )
}

/// Among the first `end` elements of `s`, the subtree at `top` is in heap
/// order: no element with a parent in it comes after that parent.
pub open spec fn subtree_ordered<T: PartialOrd>(s: Seq<T>, top: int, end: int) -> bool {
    forall|c: int|
        0 < c < end && below(top, parent(c)) ==> less_eq(#[trigger] s[c], s[parent(c)])
}

/// A position in a subtree does not stand in front of its top, and every
/// position lies in the subtree at 0.
pub proof fn lemma_below(top: int, k: int)
    requires
        0 <= k,
    ensures
        below(top, k) ==> top <= k,
        below(0, k),
    decreases k,
{
    if k > 0 {
        lemma_below(top, parent(k));
        lemma_below(0, parent(k));
    }
}

/// In heap order no element comes after the first.
pub proof fn lemma_first_is_greatest<T: PartialOrd>(s: Seq<T>, end: int, k: int)
    requires
        total_preorder::<T>(),
        heap_ordered(s, end),
        0 <= k < end <= s.len(),
    ensures
        less_eq(s[k], s[0]),
    decreases k,
{
    if k == 0 {
        lemma_less_eq_refl(s[0]);
    } else {
        lemma_first_is_greatest(s, end, parent(k));
        lemma_less_eq_trans(s[k], s[parent(k)], s[0]);
    }
}

} // verus!
