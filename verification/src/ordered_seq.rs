//! Sequences of keys in ascending order: what it means for a sequence to be
//! sorted or bounded, where a new key goes, and how these notions behave when
//! sequences are taken apart and put together.

use vstd::prelude::*;
use crate::order::{
    lemma_antisymmetric, lemma_less_eq_cases, lemma_less_eq_then_less, lemma_less_eq_trans,
    lemma_less_then_less_eq, lemma_operators, lemma_total_order_is_preorder, less, less_eq,
    total_order, total_preorder,
};

verus! {

/// Every element of `s` is followed only by elements that do not come before it.
pub open spec fn sorted<T: PartialOrd>(s: Seq<T>) -> bool {
    forall|i: int, j: int| 0 <= i < j < s.len() ==> less_eq(#[trigger] s[i], #[trigger] s[j])
}

/// The elements of `s` from position `lo` up to `hi`, the latter excluded,
/// are in ascending order.
pub open spec fn sorted_range<T: PartialOrd>(s: Seq<T>, lo: int, hi: int) -> bool {
    forall|i: int, j: int| lo <= i < j < hi ==> less_eq(#[trigger] s[i], #[trigger] s[j])
}

/// Every element of `s` is at most `bound`.
pub open spec fn all_less_eq<T: PartialOrd>(s: Seq<T>, bound: T) -> bool {
    forall|i: int| 0 <= i < s.len() ==> less_eq(#[trigger] s[i], bound)
}

/// Every element of `s` is strictly below `bound`.
pub open spec fn all_less<T: PartialOrd>(s: Seq<T>, bound: T) -> bool {
    forall|i: int| 0 <= i < s.len() ==> less(#[trigger] s[i], bound)
}

/// Every element of `s` is at least `bound`.
pub open spec fn all_greater_eq<T: PartialOrd>(s: Seq<T>, bound: T) -> bool {
    forall|i: int| 0 <= i < s.len() ==> less_eq(bound, #[trigger] s[i])
}

/// Every element of `s` is strictly above `bound`.
pub open spec fn all_greater<T: PartialOrd>(s: Seq<T>, bound: T) -> bool {
    forall|i: int| 0 <= i < s.len() ==> less(bound, #[trigger] s[i])
}

/// No element of `a` comes after an element of `b`.
pub open spec fn all_before<T: PartialOrd>(a: Seq<T>, b: Seq<T>) -> bool {
    forall|i: int, j: int|
        0 <= i < a.len() && 0 <= j < b.len() ==> less_eq(#[trigger] a[i], #[trigger] b[j])
}

/// How many elements of `s` do not come after `key`.
pub open spec fn rank<T: PartialOrd>(s: Seq<T>, key: T) -> nat
    decreases s.len(),
{
    if s.len() == 0 {
        0
    } else if less_eq(s.last(), key) {
        rank(s.drop_last(), key) + 1
    } else {
        rank(s.drop_last(), key)
    }
}

/// `s` with `key` added behind the elements that do not come after it. Where
/// `s` is sorted, so is the result.
pub open spec fn insert_sorted<T: PartialOrd>(s: Seq<T>, key: T) -> Seq<T> {
    s.insert(rank(s, key) as int, key)
}

/// The elements of a sorted sequence `s` that do not come after `key`.
pub open spec fn not_after<T: PartialOrd>(s: Seq<T>, key: T) -> Seq<T> {
    s.take(rank(s, key) as int)
}

/// The elements of a sorted sequence `s` that come after `key`.
pub open spec fn after<T: PartialOrd>(s: Seq<T>, key: T) -> Seq<T> {
    s.skip(rank(s, key) as int)
}

/// Every element of `s` is followed only by elements that come after it.
pub open spec fn strictly_sorted<T: PartialOrd>(s: Seq<T>) -> bool {
    forall|i: int, j: int| 0 <= i < j < s.len() ==> less(#[trigger] s[i], #[trigger] s[j])
}

/// `s` after the keys of `added` have been inserted one after the other.
pub open spec fn insert_all<T: PartialOrd>(s: Seq<T>, added: Seq<T>) -> Seq<T>
    decreases added.len(),
{
    if added.len() == 0 {
        s
    } else {
        insert_sorted(insert_all(s, added.drop_last()), added.last())
    }
}

/// The keys of a sequence of pairs of a key and a priority.
pub open spec fn keys_of<T>(entries: Seq<(T, u64)>) -> Seq<T> {
    Seq::new(entries.len(), |i: int| entries[i].0)
}

/// The priorities of a sequence of pairs of a key and a priority.
pub open spec fn priorities_of<T>(entries: Seq<(T, u64)>) -> Set<u64> {
    Set::new(|p: u64| exists|i: int| 0 <= i < entries.len() && (#[trigger] entries[i]).1 == p)
}

/// No priority occurs in two of the pairs.
pub open spec fn priorities_differ<T>(entries: Seq<(T, u64)>) -> bool {
    forall|i: int, j: int|
        0 <= i < entries.len() && 0 <= j < entries.len() && i != j ==> (#[trigger] entries[i]).1
            != (#[trigger] entries[j]).1
}

/// Of two pairs that may be absent, the one with the higher priority; the
/// second where the priorities are equal, and the other where one is absent.
pub open spec fn higher<T>(a: Option<(T, u64)>, b: Option<(T, u64)>) -> Option<(T, u64)> {
    match (a, b) {
        (None, _) => b,
        (_, None) => a,
        (Some(x), Some(y)) => if x.1 > y.1 {
            a
        } else {
            b
        },
    }
}

/// The pair at position `i` holds `key`, and no pair that holds `key` carries
/// a higher priority.
pub open spec fn heaviest_with<T>(entries: Seq<(T, u64)>, key: T, i: int) -> bool {
    &&& 0 <= i < entries.len()
    &&& entries[i].0 == key
    &&& forall|j: int|
        0 <= j < entries.len() && (#[trigger] entries[j]).0 == key ==> entries[j].1
            <= entries[i].1
}

/// Where the heaviest pair with a key stands in a sequence made of a first
/// part, one pair and a last part, of which only one holds the key.
pub proof fn lemma_heaviest_in_parts<T>(
    l: Seq<(T, u64)>,
    e: (T, u64),
    r: Seq<(T, u64)>,
    key: T,
    i: int,
)
    ensures
        heaviest_with(l, key, i) && e.0 != key && !keys_of(r).contains(key) ==> heaviest_with(
            l.push(e) + r,
            key,
            i,
        ),
        heaviest_with(r, key, i) && e.0 != key && !keys_of(l).contains(key) ==> heaviest_with(
            l.push(e) + r,
            key,
            l.len() + 1 + i,
        ),
        e.0 == key && (forall|j: int| 0 <= j < l.len() ==> (#[trigger] l[j]).1 <= e.1) && (forall|
            j: int,
        |
            0 <= j < r.len() ==> (#[trigger] r[j]).1 <= e.1) ==> heaviest_with(
            l.push(e) + r,
            key,
            l.len() as int,
        ),
{
    let all = l.push(e) + r;
    assert forall|j: int| 0 <= j < l.len() implies all[j] == l[j] by {}
    assert forall|j: int| 0 <= j < r.len() implies all[l.len() + 1 + j] == r[j] by {}
    assert(all[l.len() as int] == e);
    if heaviest_with(l, key, i) && e.0 != key && !keys_of(r).contains(key) {
        assert forall|j: int| 0 <= j < all.len() && (#[trigger] all[j]).0 == key implies all[j].1
            <= all[i].1 by {
            if j < l.len() {
                assert(all[j] == l[j]);
            } else if j > l.len() {
                assert(keys_of(r)[j - l.len() - 1] == r[j - l.len() - 1].0);
                assert(all[j] == r[j - l.len() - 1]);
            }
        }
    }
    if heaviest_with(r, key, i) && e.0 != key && !keys_of(l).contains(key) {
        assert forall|j: int| 0 <= j < all.len() && (#[trigger] all[j]).0 == key implies all[j].1
            <= all[l.len() + 1 + i].1 by {
            if j < l.len() {
                assert(keys_of(l)[j] == l[j].0);
                assert(all[j] == l[j]);
            } else if j > l.len() {
                assert(all[j] == r[j - l.len() - 1]);
            }
        }
    }
    if e.0 == key && (forall|j: int| 0 <= j < l.len() ==> (#[trigger] l[j]).1 <= e.1) && (forall|
        j: int,
    |
        0 <= j < r.len() ==> (#[trigger] r[j]).1 <= e.1) {
        assert forall|j: int| 0 <= j < all.len() && (#[trigger] all[j]).0 == key implies all[j].1
            <= all[l.len() as int].1 by {
            if j < l.len() {
                assert(all[j] == l[j]);
            } else if j > l.len() {
                assert(all[j] == r[j - l.len() - 1]);
            }
        }
    }
}

/// Where an element is inserted into one of the three parts that a sequence
/// is made of, a first part, one element and a last part.
pub proof fn lemma_insert_in_parts<E>(l: Seq<E>, e: E, r: Seq<E>, i: int, x: E)
    ensures
        0 <= i <= l.len() ==> l.insert(i, x).push(e) + r == (l.push(e) + r).insert(i, x),
        0 <= i <= r.len() ==> l.push(e) + r.insert(i, x) == (l.push(e) + r).insert(
            l.len() + 1 + i,
            x,
        ),
        l.push(x) + r == (l + r).insert(l.len() as int, x),
{
    if 0 <= i <= l.len() {
        assert(l.insert(i, x).push(e) + r =~= (l.push(e) + r).insert(i, x));
    }
    if 0 <= i <= r.len() {
        assert(l.push(e) + r.insert(i, x) =~= (l.push(e) + r).insert(l.len() + 1 + i, x));
    }
    assert(l.push(x) + r =~= (l + r).insert(l.len() as int, x));
}

/// Where an element is removed from one of the three parts that a sequence
/// is made of, a first part, one element and a last part.
pub proof fn lemma_remove_in_parts<E>(l: Seq<E>, e: E, r: Seq<E>, i: int)
    ensures
        0 <= i < l.len() ==> l.remove(i).push(e) + r == (l.push(e) + r).remove(i),
        0 <= i < r.len() ==> l.push(e) + r.remove(i) == (l.push(e) + r).remove(l.len() + 1 + i),
        l + r == (l.push(e) + r).remove(l.len() as int),
{
    if 0 <= i < l.len() {
        assert(l.remove(i).push(e) + r =~= (l.push(e) + r).remove(i));
    }
    if 0 <= i < r.len() {
        assert(l.push(e) + r.remove(i) =~= (l.push(e) + r).remove(l.len() + 1 + i));
    }
    assert(l + r =~= (l.push(e) + r).remove(l.len() as int));
}

/// Bounds on a concatenation are bounds on both parts.
pub proof fn lemma_bounds_of_concat<T: PartialOrd>(a: Seq<T>, b: Seq<T>, bound: T)
    ensures
        all_less_eq(a + b, bound) <==> all_less_eq(a, bound) && all_less_eq(b, bound),
        all_less(a + b, bound) <==> all_less(a, bound) && all_less(b, bound),
        all_greater_eq(a + b, bound) <==> all_greater_eq(a, bound) && all_greater_eq(b, bound),
        all_greater(a + b, bound) <==> all_greater(a, bound) && all_greater(b, bound),
{
    let s = a + b;
    assert forall|i: int| 0 <= i < a.len() implies a[i] == #[trigger] s[i] by {}
    assert forall|i: int| 0 <= i < b.len() implies b[i] == #[trigger] s[a.len() + i] by {}
    if all_less_eq(s, bound) {
        assert forall|i: int| 0 <= i < a.len() implies less_eq(#[trigger] a[i], bound) by {
            assert(a[i] == s[i]);
        }
        assert forall|i: int| 0 <= i < b.len() implies less_eq(#[trigger] b[i], bound) by {
            assert(b[i] == s[a.len() + i]);
        }
    }
    if all_less(s, bound) {
        assert forall|i: int| 0 <= i < a.len() implies less(#[trigger] a[i], bound) by {
            assert(a[i] == s[i]);
        }
        assert forall|i: int| 0 <= i < b.len() implies less(#[trigger] b[i], bound) by {
            assert(b[i] == s[a.len() + i]);
        }
    }
    if all_greater_eq(s, bound) {
        assert forall|i: int| 0 <= i < a.len() implies less_eq(bound, #[trigger] a[i]) by {
            assert(a[i] == s[i]);
        }
        assert forall|i: int| 0 <= i < b.len() implies less_eq(bound, #[trigger] b[i]) by {
            assert(b[i] == s[a.len() + i]);
        }
    }
    if all_greater(s, bound) {
        assert forall|i: int| 0 <= i < a.len() implies less(bound, #[trigger] a[i]) by {
            assert(a[i] == s[i]);
        }
        assert forall|i: int| 0 <= i < b.len() implies less(bound, #[trigger] b[i]) by {
            assert(b[i] == s[a.len() + i]);
        }
    }
}

/// Bounds on a sequence with one more element at its end are bounds on the
/// sequence and on that element.
pub proof fn lemma_bounds_of_push<T: PartialOrd>(a: Seq<T>, x: T, bound: T)
    ensures
        all_less_eq(a.push(x), bound) <==> all_less_eq(a, bound) && less_eq(x, bound),
        all_less(a.push(x), bound) <==> all_less(a, bound) && less(x, bound),
        all_greater_eq(a.push(x), bound) <==> all_greater_eq(a, bound) && less_eq(bound, x),
        all_greater(a.push(x), bound) <==> all_greater(a, bound) && less(bound, x),
{
    assert(a.push(x) =~= a + seq![x]);
    lemma_bounds_of_concat(a, seq![x], bound);
    assert(seq![x][0] == x);
}

/// A bound can be replaced by one that lies further out.
pub proof fn lemma_bounds_widen<T: PartialOrd>(s: Seq<T>, bound: T, wider: T)
    requires
        total_preorder::<T>(),
    ensures
        all_less_eq(s, bound) && less_eq(bound, wider) ==> all_less_eq(s, wider),
        all_less_eq(s, bound) && less(bound, wider) ==> all_less(s, wider),
        all_less(s, bound) && less_eq(bound, wider) ==> all_less(s, wider),
        all_greater_eq(s, bound) && less_eq(wider, bound) ==> all_greater_eq(s, wider),
        all_greater_eq(s, bound) && less(wider, bound) ==> all_greater(s, wider),
        all_greater(s, bound) && less_eq(wider, bound) ==> all_greater(s, wider),
{
    if all_less_eq(s, bound) && less_eq(bound, wider) {
        assert forall|i: int| 0 <= i < s.len() implies less_eq(#[trigger] s[i], wider) by {
            lemma_less_eq_trans(s[i], bound, wider);
        }
    }
    if all_less_eq(s, bound) && less(bound, wider) {
        assert forall|i: int| 0 <= i < s.len() implies less(#[trigger] s[i], wider) by {
            lemma_less_eq_then_less(s[i], bound, wider);
        }
    }
    if all_less(s, bound) && less_eq(bound, wider) {
        assert forall|i: int| 0 <= i < s.len() implies less(#[trigger] s[i], wider) by {
            lemma_less_then_less_eq(s[i], bound, wider);
        }
    }
    if all_greater_eq(s, bound) && less_eq(wider, bound) {
        assert forall|i: int| 0 <= i < s.len() implies less_eq(wider, #[trigger] s[i]) by {
            lemma_less_eq_trans(wider, bound, s[i]);
        }
    }
    if all_greater_eq(s, bound) && less(wider, bound) {
        assert forall|i: int| 0 <= i < s.len() implies less(wider, #[trigger] s[i]) by {
            lemma_less_then_less_eq(wider, bound, s[i]);
        }
    }
    if all_greater(s, bound) && less_eq(wider, bound) {
        assert forall|i: int| 0 <= i < s.len() implies less(wider, #[trigger] s[i]) by {
            lemma_less_eq_then_less(wider, bound, s[i]);
        }
    }
}

/// A strict bound is also a weak one.
pub proof fn lemma_bounds_weaken<T: PartialOrd>(s: Seq<T>, bound: T)
    requires
        total_preorder::<T>(),
    ensures
        all_less(s, bound) ==> all_less_eq(s, bound),
        all_greater(s, bound) ==> all_greater_eq(s, bound),
{
    if all_less(s, bound) {
        assert forall|i: int| 0 <= i < s.len() implies less_eq(#[trigger] s[i], bound) by {
            lemma_operators(s[i], bound);
        }
    }
    if all_greater(s, bound) {
        assert forall|i: int| 0 <= i < s.len() implies less_eq(bound, #[trigger] s[i]) by {
            lemma_operators(bound, s[i]);
        }
    }
}

/// A sequence lies before a concatenation exactly when it lies before both
/// parts, and a concatenation before a sequence exactly when both parts do.
pub proof fn lemma_all_before_concat<T: PartialOrd>(a: Seq<T>, b: Seq<T>, c: Seq<T>)
    ensures
        all_before(a + b, c) <==> all_before(a, c) && all_before(b, c),
        all_before(a, b + c) <==> all_before(a, b) && all_before(a, c),
{
    let ab = a + b;
    let bc = b + c;
    if all_before(ab, c) {
        assert forall|i: int, j: int| 0 <= i < a.len() && 0 <= j < c.len() implies less_eq(
            #[trigger] a[i],
            #[trigger] c[j],
        ) by {
            assert(a[i] == ab[i]);
        }
        assert forall|i: int, j: int| 0 <= i < b.len() && 0 <= j < c.len() implies less_eq(
            #[trigger] b[i],
            #[trigger] c[j],
        ) by {
            assert(b[i] == ab[a.len() + i]);
        }
    }
    if all_before(a, bc) {
        assert forall|i: int, j: int| 0 <= i < a.len() && 0 <= j < b.len() implies less_eq(
            #[trigger] a[i],
            #[trigger] b[j],
        ) by {
            assert(b[j] == bc[j]);
        }
        assert forall|i: int, j: int| 0 <= i < a.len() && 0 <= j < c.len() implies less_eq(
            #[trigger] a[i],
            #[trigger] c[j],
        ) by {
            assert(c[j] == bc[b.len() + j]);
        }
    }
}

/// A sequence lies before a one-element sequence exactly when that element
/// bounds it from above, and after it exactly when it bounds it from below.
pub proof fn lemma_all_before_single<T: PartialOrd>(a: Seq<T>, x: T)
    ensures
        all_before(a, seq![x]) <==> all_less_eq(a, x),
        all_before(seq![x], a) <==> all_greater_eq(a, x),
{
    let sx = seq![x];
    assert(sx[0] == x);
    if all_before(a, sx) {
        assert forall|i: int| 0 <= i < a.len() implies less_eq(#[trigger] a[i], x) by {
            assert(less_eq(a[i], sx[0]));
        }
    }
    if all_before(sx, a) {
        assert forall|i: int| 0 <= i < a.len() implies less_eq(x, #[trigger] a[i]) by {
            assert(less_eq(sx[0], a[i]));
        }
    }
}

/// A concatenation is sorted exactly when both parts are sorted and the first
/// lies before the second.
pub proof fn lemma_sorted_concat<T: PartialOrd>(a: Seq<T>, b: Seq<T>)
    ensures
        sorted(a + b) <==> sorted(a) && sorted(b) && all_before(a, b),
{
    let s = a + b;
    if sorted(s) {
        assert forall|i: int, j: int| 0 <= i < j < a.len() implies less_eq(
            #[trigger] a[i],
            #[trigger] a[j],
        ) by {
            assert(a[i] == s[i] && a[j] == s[j]);
        }
        assert forall|i: int, j: int| 0 <= i < j < b.len() implies less_eq(
            #[trigger] b[i],
            #[trigger] b[j],
        ) by {
            assert(b[i] == s[a.len() + i] && b[j] == s[a.len() + j]);
        }
        assert forall|i: int, j: int| 0 <= i < a.len() && 0 <= j < b.len() implies less_eq(
            #[trigger] a[i],
            #[trigger] b[j],
        ) by {
            assert(a[i] == s[i] && b[j] == s[a.len() + j]);
        }
    }
    if sorted(a) && sorted(b) && all_before(a, b) {
        assert forall|i: int, j: int| 0 <= i < j < s.len() implies less_eq(
            #[trigger] s[i],
            #[trigger] s[j],
        ) by {
            if j < a.len() {
                assert(s[i] == a[i] && s[j] == a[j]);
            } else if i < a.len() {
                assert(s[i] == a[i] && s[j] == b[j - a.len()]);
            } else {
                assert(s[i] == b[i - a.len()] && s[j] == b[j - a.len()]);
            }
        }
    }
}

/// The rank of a key in a concatenation is the sum of its ranks in the parts;
/// it is the whole length where nothing comes after the key, and zero where
/// everything does.
pub proof fn lemma_rank<T: PartialOrd>(a: Seq<T>, b: Seq<T>, key: T)
    requires
        total_preorder::<T>(),
    ensures
        rank(a + b, key) == rank(a, key) + rank(b, key),
        rank(a, key) <= a.len(),
        all_less_eq(a, key) ==> rank(a, key) == a.len(),
        all_greater(a, key) ==> rank(a, key) == 0,
    decreases a.len() + b.len(),
{
    if b.len() == 0 {
        assert(a + b =~= a);
        if a.len() > 0 {
            lemma_rank(a.drop_last(), b, key);
            lemma_operators(a.last(), key);
            if all_less_eq(a, key) {
                assert forall|i: int| 0 <= i < a.drop_last().len() implies less_eq(
                    #[trigger] a.drop_last()[i],
                    key,
                ) by {
                    assert(a.drop_last()[i] == a[i]);
                }
            }
            if all_greater(a, key) {
                assert forall|i: int| 0 <= i < a.drop_last().len() implies less(
                    key,
                    #[trigger] a.drop_last()[i],
                ) by {
                    assert(a.drop_last()[i] == a[i]);
                }
            }
        }
    } else {
        lemma_rank(a, b.drop_last(), key);
        lemma_rank(a, Seq::<T>::empty(), key);
        assert((a + b).drop_last() =~= a + b.drop_last());
        assert((a + b).last() == b.last());
    }
}

/// Where a sequence is cut so that nothing before the cut comes after `key`
/// and everything behind the cut does, `key` is inserted at the cut.
pub proof fn lemma_insert_sorted_at_cut<T: PartialOrd>(a: Seq<T>, b: Seq<T>, key: T)
    requires
        total_preorder::<T>(),
        all_less_eq(a, key),
        all_greater(b, key),
    ensures
        insert_sorted(a + b, key) == a.push(key) + b,
{
    lemma_rank(a, b, key);
    lemma_rank(b, Seq::<T>::empty(), key);
    assert(insert_sorted(a + b, key) =~= a.push(key) + b);
}

/// Inserting into a concatenation whose first part holds nothing that comes
/// after `key` inserts into the second part.
pub proof fn lemma_insert_sorted_right<T: PartialOrd>(a: Seq<T>, b: Seq<T>, key: T)
    requires
        total_preorder::<T>(),
        all_less_eq(a, key),
    ensures
        insert_sorted(a + b, key) == a + insert_sorted(b, key),
{
    lemma_rank(a, b, key);
    lemma_rank(b, Seq::<T>::empty(), key);
    assert(insert_sorted(a + b, key) =~= a + insert_sorted(b, key));
}

/// Inserting into a concatenation whose second part holds only what comes
/// after `key` inserts into the first part.
pub proof fn lemma_insert_sorted_left<T: PartialOrd>(a: Seq<T>, b: Seq<T>, key: T)
    requires
        total_preorder::<T>(),
        all_greater(b, key),
    ensures
        insert_sorted(a + b, key) == insert_sorted(a, key) + b,
{
    lemma_rank(a, b, key);
    lemma_rank(b, Seq::<T>::empty(), key);
    assert(insert_sorted(a + b, key) =~= insert_sorted(a, key) + b);
}

/// The bounds of a sequence after an insertion are those of the sequence and
/// of the new key.
pub proof fn lemma_bounds_of_insert_sorted<T: PartialOrd>(s: Seq<T>, key: T, bound: T)
    requires
        total_preorder::<T>(),
    ensures
        all_less_eq(insert_sorted(s, key), bound) <==> all_less_eq(s, bound) && less_eq(
            key,
            bound,
        ),
        all_greater_eq(insert_sorted(s, key), bound) <==> all_greater_eq(s, bound) && less_eq(
            bound,
            key,
        ),
{
    lemma_rank(s, Seq::<T>::empty(), key);
    let r = rank(s, key) as int;
    let a = s.take(r);
    let b = s.skip(r);
    assert(s =~= a + b);
    lemma_bounds_of_concat(a, b, bound);
    lemma_bounds_of_push(a, key, bound);
    lemma_bounds_of_concat(a.push(key), b, bound);
    assert(insert_sorted(s, key) =~= a.push(key) + b);
}

/// An insertion makes a sequence longer by one.
pub proof fn lemma_insert_sorted_len<T: PartialOrd>(s: Seq<T>, key: T)
    requires
        total_preorder::<T>(),
    ensures
        insert_sorted(s, key).len() == s.len() + 1,
{
    lemma_rank(s, Seq::<T>::empty(), key);
}

/// Two sequences on either side of a common bound lie one before the other.
pub proof fn lemma_all_before_across<T: PartialOrd>(a: Seq<T>, b: Seq<T>, mid: T)
    requires
        total_preorder::<T>(),
        all_less_eq(a, mid),
        all_greater_eq(b, mid),
    ensures
        all_before(a, b),
{
    assert forall|i: int, j: int| 0 <= i < a.len() && 0 <= j < b.len() implies less_eq(
        #[trigger] a[i],
        #[trigger] b[j],
    ) by {
        lemma_less_eq_trans(a[i], mid, b[j]);
    }
}

/// Where the second part of a sorted concatenation holds nothing that comes
/// before `key`, inserting `key` into the concatenation is inserting it into
/// the first part: the keys that it is moved across are `key` itself.
pub proof fn lemma_insert_into_run<T: Ord>(a: Seq<T>, b: Seq<T>, key: T)
    requires
        total_order::<T>(),
        sorted(b),
        all_before(a, b),
        all_greater_eq(b, key),
    ensures
        insert_sorted(a + b, key) == insert_sorted(a, key) + b,
{
    lemma_total_order_is_preorder::<T>();
    lemma_rank(a, b, key);
    lemma_rank(b, Seq::<T>::empty(), key);
    lemma_rank_cut(b, key);
    let rb = rank(b, key) as int;
    if rb == 0 {
        assert(b.skip(0) =~= b);
        lemma_insert_sorted_left(a, b, key);
    } else {
        assert forall|i: int| 0 <= i < rb implies b[i] == key by {
            assert(b.take(rb)[i] == b[i]);
            assert(less_eq(b.take(rb)[i], key));
            assert(less_eq(key, b[i]));
            lemma_antisymmetric(b[i], key);
        }
        assert(b[0] == key);
        assert forall|i: int| 0 <= i < a.len() implies less_eq(#[trigger] a[i], key) by {
            assert(less_eq(a[i], b[0]));
        }
        lemma_rank(a, Seq::<T>::empty(), key);
        let whole = insert_sorted(a + b, key);
        let short = insert_sorted(a, key) + b;
        assert(insert_sorted(a, key) =~= a.push(key));
        assert forall|i: int| 0 <= i < whole.len() implies whole[i] == short[i] by {
            let s = a + b;
            let at = a.len() + rb;
            if i < a.len() {
                assert(whole[i] == s[i]);
            } else if i < at {
                assert(whole[i] == s[i]);
                assert(s[i] == b[i - a.len()]);
                if i > a.len() {
                    assert(short[i] == b[i - a.len() - 1]);
                }
            } else if i == at {
                assert(whole[i] == key);
                assert(short[i] == b[i - a.len() - 1]);
            } else {
                assert(whole[i] == s[i - 1]);
                assert(short[i] == b[i - a.len() - 1]);
            }
        }
        assert(whole =~= short);
    }
}

/// In a sorted sequence the elements that do not come after `key` are the
/// first `rank(s, key)` ones.
pub proof fn lemma_rank_cut<T: PartialOrd>(s: Seq<T>, key: T)
    requires
        total_preorder::<T>(),
        sorted(s),
    ensures
        0 <= rank(s, key) <= s.len(),
        all_less_eq(s.take(rank(s, key) as int), key),
        all_greater(s.skip(rank(s, key) as int), key),
    decreases s.len(),
{
    lemma_rank(s, Seq::<T>::empty(), key);
    if s.len() > 0 {
        let front = s.drop_last();
        assert forall|i: int, j: int| 0 <= i < j < front.len() implies less_eq(
            #[trigger] front[i],
            #[trigger] front[j],
        ) by {
            assert(front[i] == s[i] && front[j] == s[j]);
        }
        lemma_rank_cut(front, key);
        lemma_rank(front, Seq::<T>::empty(), key);
        let r = rank(s, key) as int;
        lemma_operators(s.last(), key);
        if less_eq(s.last(), key) {
            assert forall|i: int| 0 <= i < s.len() implies less_eq(#[trigger] s[i], key) by {
                if i < s.len() - 1 {
                    assert(less_eq(s[i], s[s.len() - 1]));
                    lemma_less_eq_trans(s[i], s.last(), key);
                }
            }
            lemma_bounds_of_concat(front, seq![s.last()], key);
            assert(s =~= front + seq![s.last()]);
            assert(r == s.len());
            assert(s.take(r) =~= s);
        } else {
            let rf = rank(front, key) as int;
            assert(r == rf);
            assert(s.take(r) =~= front.take(rf));
            assert(s.skip(r) =~= front.skip(rf).push(s.last()));
            lemma_bounds_of_push(front.skip(rf), s.last(), key);
        }
    }
}

/// Inserting a key into a sorted sequence gives a sorted sequence with that
/// one key more.
pub proof fn lemma_insert_sorted<T: PartialOrd>(s: Seq<T>, key: T)
    requires
        total_preorder::<T>(),
        sorted(s),
    ensures
        sorted(insert_sorted(s, key)),
        insert_sorted(s, key).len() == s.len() + 1,
        insert_sorted(s, key).to_multiset() == s.to_multiset().insert(key),
{
    broadcast use vstd::seq_lib::to_multiset_insert;

    lemma_rank_cut(s, key);
    let r = rank(s, key) as int;
    let a = s.take(r);
    let b = s.skip(r);
    assert(s =~= a + b);
    lemma_sorted_concat(a, b);
    lemma_insert_sorted_at_cut(a, b, key);
    assert(a.push(key) =~= a + seq![key]);
    lemma_bounds_weaken(b, key);
    lemma_all_before_single(a, key);
    lemma_all_before_single(b, key);
    lemma_sorted_concat(a, seq![key]);
    lemma_all_before_concat(a, seq![key], b);
    lemma_sorted_concat(a + seq![key], b);
}

/// In a sorted sequence over a total order, removing the first occurrence of a
/// key is removing any occurrence of it.
pub proof fn lemma_remove_value_at<T: Ord>(s: Seq<T>, i: int)
    requires
        total_order::<T>(),
        sorted(s),
        0 <= i < s.len(),
    ensures
        s.remove_value(s[i]) == s.remove(i),
{
    let key = s[i];
    s.index_of_first_ensures(key);
    let j = s.index_of_first(key)->0;
    assert(j <= i) by {
        if i < j {
            assert(s[i] != key);
        }
    }
    assert forall|m: int| j <= m <= i implies s[m] == key by {
        if j < m < i {
            assert(less_eq(s[j], s[m]));
            assert(less_eq(s[m], s[i]));
            lemma_antisymmetric(s[m], key);
        }
    }
    assert(s.remove(j) =~= s.remove(i));
}

/// Where a key does not occur in the second part of a concatenation, its
/// first occurrence is removed from the first part.
pub proof fn lemma_removal_on_the_left<T>(a: Seq<T>, b: Seq<T>, key: T)
    requires
        !b.contains(key),
    ensures
        (a + b).remove_value(key) == a.remove_value(key) + b,
        (a + b).contains(key) <==> a.contains(key),
{
    let s = a + b;
    s.index_of_first_ensures(key);
    a.index_of_first_ensures(key);
    if a.contains(key) {
        let i = a.index_of_first(key)->0;
        assert(s[i] == key);
        let j = s.index_of_first(key)->0;
        assert(i == j) by {
            if j < i {
                assert(a[j] == s[j]);
            }
        }
        assert(s.remove(i) =~= a.remove(i) + b);
    } else {
        if s.contains(key) {
            let j = s.index_of_first(key)->0;
            if j < a.len() {
                assert(a[j] == key);
            } else {
                assert(b[j - a.len()] == key);
            }
        }
    }
}

/// Where a key does not occur in the first part of a concatenation, its first
/// occurrence is removed from the second part.
pub proof fn lemma_removal_on_the_right<T>(a: Seq<T>, b: Seq<T>, key: T)
    requires
        !a.contains(key),
    ensures
        (a + b).remove_value(key) == a + b.remove_value(key),
        (a + b).contains(key) <==> b.contains(key),
{
    let s = a + b;
    s.index_of_first_ensures(key);
    b.index_of_first_ensures(key);
    if b.contains(key) {
        let i = b.index_of_first(key)->0;
        assert(s[a.len() + i] == key);
        let j = s.index_of_first(key)->0;
        assert(j == a.len() + i) by {
            if j < a.len() {
                assert(a[j] == key);
            } else if j < a.len() + i {
                assert(b[j - a.len()] == s[j]);
            }
        }
        assert(s.remove(j) =~= a + b.remove(i));
    } else {
        if s.contains(key) {
            let j = s.index_of_first(key)->0;
            if j < a.len() {
                assert(a[j] == key);
            } else {
                assert(b[j - a.len()] == key);
            }
        }
    }
}

/// What bounds a sequence bounds it still after a removal, and a sorted
/// sequence stays sorted.
pub proof fn lemma_removal_keeps_bounds<T: PartialOrd>(s: Seq<T>, key: T, bound: T)
    ensures
        all_less_eq(s, bound) ==> all_less_eq(s.remove_value(key), bound),
        all_greater_eq(s, bound) ==> all_greater_eq(s.remove_value(key), bound),
        sorted(s) ==> sorted(s.remove_value(key)),
        s.remove_value(key).len() <= s.len(),
        s.contains(key) ==> s.remove_value(key).len() == s.len() - 1,
        !s.contains(key) ==> s.remove_value(key) == s,
{
    s.index_of_first_ensures(key);
    if s.contains(key) {
        let i = s.index_of_first(key)->0;
        let t = s.remove(i);
        assert forall|m: int| 0 <= m < t.len() implies #[trigger] t[m] == s[if m < i {
            m
        } else {
            m + 1
        }] by {}
        if all_less_eq(s, bound) {
            assert forall|m: int| 0 <= m < t.len() implies less_eq(#[trigger] t[m], bound) by {
                assert(t[m] == s[if m < i { m } else { m + 1 }]);
            }
        }
        if all_greater_eq(s, bound) {
            assert forall|m: int| 0 <= m < t.len() implies less_eq(bound, #[trigger] t[m]) by {
                assert(t[m] == s[if m < i { m } else { m + 1 }]);
            }
        }
        if sorted(s) {
            assert forall|m: int, n: int| 0 <= m < n < t.len() implies less_eq(
                #[trigger] t[m],
                #[trigger] t[n],
            ) by {
                assert(t[m] == s[if m < i { m } else { m + 1 }]);
                assert(t[n] == s[if n < i { n } else { n + 1 }]);
            }
        }
    }
}

/// A sequence that holds the elements of two others, each as often as the two
/// together, has their combined length and shares every bound that both have.
pub proof fn lemma_bounds_of_combination<T: PartialOrd>(s: Seq<T>, a: Seq<T>, b: Seq<T>, bound: T)
    requires
        s.to_multiset() == a.to_multiset().add(b.to_multiset()),
    ensures
        s.len() == a.len() + b.len(),
        all_less_eq(a, bound) && all_less_eq(b, bound) ==> all_less_eq(s, bound),
        all_greater_eq(a, bound) && all_greater_eq(b, bound) ==> all_greater_eq(s, bound),
{
    assert((a + b).len() == s.len()) by {
        vstd::seq_lib::lemma_multiset_commutative(a, b);
        vstd::seq_lib::to_multiset_len(a + b);
        vstd::seq_lib::to_multiset_len(s);
    }
    assert forall|i: int| 0 <= i < s.len() implies a.contains(#[trigger] s[i]) || b.contains(
        s[i],
    ) by {
        vstd::seq_lib::to_multiset_contains(s, s[i]);
        vstd::seq_lib::to_multiset_contains(a, s[i]);
        vstd::seq_lib::to_multiset_contains(b, s[i]);
        assert(s.contains(s[i]));
    }
    if all_less_eq(a, bound) && all_less_eq(b, bound) {
        assert forall|i: int| 0 <= i < s.len() implies less_eq(#[trigger] s[i], bound) by {
            if a.contains(s[i]) {
                let j = choose|j: int| 0 <= j < a.len() && a[j] == s[i];
                assert(less_eq(a[j], bound));
            } else {
                let j = choose|j: int| 0 <= j < b.len() && b[j] == s[i];
                assert(less_eq(b[j], bound));
            }
        }
    }
    if all_greater_eq(a, bound) && all_greater_eq(b, bound) {
        assert forall|i: int| 0 <= i < s.len() implies less_eq(bound, #[trigger] s[i]) by {
            if a.contains(s[i]) {
                let j = choose|j: int| 0 <= j < a.len() && a[j] == s[i];
                assert(less_eq(bound, a[j]));
            } else {
                let j = choose|j: int| 0 <= j < b.len() && b[j] == s[i];
                assert(less_eq(bound, b[j]));
            }
        }
    }
}

/// A sequence that is cut in two, with nothing that comes after `key` before
/// the cut and only what comes after it behind the cut, is cut at the rank of
/// `key`.
pub proof fn lemma_cut_at_rank<T: PartialOrd>(a: Seq<T>, b: Seq<T>, key: T)
    requires
        total_preorder::<T>(),
        all_less_eq(a, key),
        all_greater(b, key),
    ensures
        not_after(a + b, key) == a,
        after(a + b, key) == b,
{
    lemma_rank(a, b, key);
    lemma_rank(b, Seq::<T>::empty(), key);
    assert((a + b).take(a.len() as int) =~= a);
    assert((a + b).skip(a.len() as int) =~= b);
}

/// A sorted sequence without repetitions over a total order is strictly
/// sorted, and a strictly sorted sequence is sorted and without repetitions.
pub proof fn lemma_strictly_sorted<T: Ord>(s: Seq<T>)
    requires
        total_order::<T>(),
    ensures
        strictly_sorted(s) <==> sorted(s) && s.no_duplicates(),
{
    lemma_total_order_is_preorder::<T>();
    if strictly_sorted(s) {
        assert forall|i: int, j: int| 0 <= i < j < s.len() implies less_eq(
            #[trigger] s[i],
            #[trigger] s[j],
        ) by {
            lemma_operators(s[i], s[j]);
        }
        assert forall|i: int, j: int| 0 <= i < s.len() && 0 <= j < s.len() && i != j implies s[i]
            != s[j] by {
            if i < j {
                assert(less(s[i], s[j]));
                lemma_less_eq_cases(s[i], s[j]);
            } else {
                assert(less(s[j], s[i]));
                lemma_less_eq_cases(s[j], s[i]);
            }
        }
    }
    if sorted(s) && s.no_duplicates() {
        assert forall|i: int, j: int| 0 <= i < j < s.len() implies less(
            #[trigger] s[i],
            #[trigger] s[j],
        ) by {
            assert(less_eq(s[i], s[j]));
            lemma_less_eq_cases(s[i], s[j]);
        }
    }
}

/// A key that lies strictly outside the bounds of a sequence does not occur in it.
pub proof fn lemma_bounded_excludes<T: PartialOrd>(s: Seq<T>, key: T)
    requires
        total_preorder::<T>(),
    ensures
        all_less(s, key) ==> !s.contains(key),
        all_greater(s, key) ==> !s.contains(key),
{
    lemma_operators(key, key);
}

} // verus!
