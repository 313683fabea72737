use vstd::prelude::*;

use core::cmp::Ordering;
use vstd::std_specs::cmp::PartialOrdSpec;

use crate::order::{
    all_comparable, follows, lawful_order, le, lemma_comparable_permutation, lemma_le_iff, precedes,
    sorted_by,
};

verus! {

/// Exchanges the elements at positions `i` and `j` of `arr`.
fn swap_at<T>(arr: &mut [T], i: usize, j: usize)
    requires
        i < j < old(arr)@.len(),
    ensures
        final(arr)@ == old(arr)@.update(i as int, old(arr)@[j as int]).update(
            j as int,
            old(arr)@[i as int],
        ),
{
    let (left, right) = arr.split_at_mut(j);
    core::mem::swap(&mut left[i], &mut right[0]);
}

/// Exchanging two elements of `s` inside `lo..hi` keeps the multiset of that range.
proof fn lemma_swap_keeps_range<T>(s: Seq<T>, lo: int, hi: int, i: int, j: int)
    requires
        0 <= lo <= i < j < hi <= s.len(),
    ensures
        s.update(i, s[j]).update(j, s[i]).subrange(lo, hi).to_multiset() =~= s.subrange(
            lo,
            hi,
        ).to_multiset(),
{
    broadcast use vstd::seq_lib::group_to_multiset_ensures;

    let r = s.subrange(lo, hi);
    let once = r.update(i - lo, s[j]);
    assert(s.update(i, s[j]).update(j, s[i]).subrange(lo, hi) =~= once.update(j - lo, s[i]));
    assert(once.to_multiset() =~= r.to_multiset().insert(s[j]).remove(s[i]));
    assert(once.update(j - lo, s[i]).to_multiset() =~= once.to_multiset().insert(s[i]).remove(
        s[j],
    ));
}

/// One cursor pass over `arr[lo..hi]`. The element at `hi - 1` is the pivot; the
/// second cursor always rests on it while the first walks towards it, and a
/// misordered pair is exchanged, after which the two cursors trade roles. The pass
/// ends where the cursors meet, and returns that index: the pivot stands there,
/// nothing before it belongs after it and nothing after it belongs before it.
fn place_pivot<T: PartialOrd>(arr: &mut [T], lo: usize, hi: usize, descending: bool) -> (p: usize)
    requires
        lo < hi <= old(arr)@.len(),
    ensures
        lo <= p < hi,
        final(arr)@.len() == old(arr)@.len(),
        forall|k: int|
            0 <= k < old(arr)@.len() && !(lo <= k < hi) ==> final(arr)@[k] == old(arr)@[k],
        final(arr)@.subrange(lo as int, hi as int).to_multiset() == old(arr)@.subrange(
            lo as int,
            hi as int,
        ).to_multiset(),
        T::obeys_partial_cmp_spec() ==> forall|k: int|
            lo <= k < p ==> !follows(#[trigger] final(arr)@[k], final(arr)@[p as int], descending),
        T::obeys_partial_cmp_spec() ==> forall|k: int|
            p < k < hi ==> !precedes(#[trigger] final(arr)@[k], final(arr)@[p as int], descending),
        T::obeys_partial_cmp_spec() && sorted_by(old(arr)@.subrange(lo as int, hi as int), descending)
            ==> final(arr)@ == old(arr)@,
{
    let ghost init = arr@;
    let mut cur1: usize = lo;
    let mut cur2: usize = hi - 1;
    while cur1 != cur2
        invariant
            lo <= cur1 < hi,
            lo <= cur2 < hi,
            hi <= init.len(),
            arr@.len() == init.len(),
            forall|k: int| 0 <= k < init.len() && !(lo <= k < hi) ==> arr@[k] == init[k],
            arr@.subrange(lo as int, hi as int).to_multiset() == init.subrange(
                lo as int,
                hi as int,
            ).to_multiset(),
            T::obeys_partial_cmp_spec() ==> forall|k: int|
                lo <= k < cur1 && lo <= k < cur2 ==> !follows(
                    #[trigger] arr@[k],
                    arr@[cur2 as int],
                    descending,
                ),
            T::obeys_partial_cmp_spec() ==> forall|k: int|
                cur1 < k < hi && cur2 < k < hi ==> !precedes(
                    #[trigger] arr@[k],
                    arr@[cur2 as int],
                    descending,
                ),
            T::obeys_partial_cmp_spec() && sorted_by(init.subrange(lo as int, hi as int), descending)
                ==> arr@ == init && cur2 == hi - 1 && cur1 <= cur2,
        decreases
                if cur1 < cur2 {
                    cur2 - cur1
                } else {
                    cur1 - cur2
                },
    {
        let order = arr[cur1].partial_cmp(&arr[cur2]);
        let misordered = match order {
            Some(Ordering::Greater) => {
                if descending {
                    cur1 > cur2
                } else {
                    cur1 < cur2
                }
            },
            Some(Ordering::Less) => {
                if descending {
                    cur1 < cur2
                } else {
                    cur1 > cur2
                }
            },
            _ => false,
        };
        proof {
            if T::obeys_partial_cmp_spec() && sorted_by(init.subrange(lo as int, hi as int), descending) {
                let sub = init.subrange(lo as int, hi as int);
                assert(!follows(sub[cur1 - lo], sub[cur2 - lo], descending));
            }
        }
        if misordered {
            let ghost before = arr@;
            if cur1 < cur2 {
                swap_at(arr, cur1, cur2);
                proof { lemma_swap_keeps_range(before, lo as int, hi as int, cur1 as int, cur2 as int); }
            } else {
                swap_at(arr, cur2, cur1);
                proof { lemma_swap_keeps_range(before, lo as int, hi as int, cur2 as int, cur1 as int); }
            }
            let moved = cur1;
            cur1 = cur2;
            cur2 = moved;
        }
        if cur1 < cur2 {
            cur1 = cur1 + 1;
        } else {
            cur1 = cur1 - 1;
        }
    }
    cur1
}

/// What holds of every element of `a` holds of every element of a rearrangement of it.
proof fn lemma_all_permutation<T>(a: Seq<T>, b: Seq<T>, f: spec_fn(T) -> bool)
    requires
        a.to_multiset() == b.to_multiset(),
        forall|i: int| 0 <= i < a.len() ==> f(#[trigger] a[i]),
    ensures
        forall|i: int| 0 <= i < b.len() ==> f(#[trigger] b[i]),
{
    broadcast use vstd::seq_lib::group_to_multiset_ensures;

    assert forall|i: int| 0 <= i < b.len() implies f(#[trigger] b[i]) by {
        assert(b.contains(b[i]));
        assert(b.to_multiset().count(b[i]) > 0);
        assert(a.contains(b[i]));
    }
}

/// A stretch of a sorted sequence is sorted.
proof fn lemma_sorted_subrange<T: PartialOrd>(s: Seq<T>, lo: int, hi: int, descending: bool)
    requires
        0 <= lo <= hi <= s.len(),
        sorted_by(s, descending),
    ensures
        sorted_by(s.subrange(lo, hi), descending),
{
    let r = s.subrange(lo, hi);
    assert forall|i: int, j: int| 0 <= i < j < r.len() implies !follows(
        #[trigger] r[i],
        #[trigger] r[j],
        descending,
    ) by {
        assert(r[i] == s[lo + i] && r[j] == s[lo + j]);
    }
}

/// A stretch of a pairwise comparable sequence is pairwise comparable.
proof fn lemma_comparable_subrange<T: PartialOrd>(s: Seq<T>, lo: int, hi: int)
    requires
        0 <= lo <= hi <= s.len(),
        all_comparable(s),
    ensures
        all_comparable(s.subrange(lo, hi)),
{
    let r = s.subrange(lo, hi);
    assert forall|i: int, j: int|
        #![trigger r[i], r[j]]
        0 <= i < r.len() && 0 <= j < r.len() implies r[i].partial_cmp_spec(&r[j]) is Some by {
        assert(r[i] == s[lo + i] && r[j] == s[lo + j]);
    }
}

/// A sorted stretch, a pivot, and a sorted stretch make a sorted sequence, when
/// nothing before the pivot belongs after it and nothing after it belongs before it.
proof fn lemma_join_sorted<T: PartialOrd>(s: Seq<T>, p: int, descending: bool)
    requires
        lawful_order::<T>(),
        all_comparable(s),
        0 <= p < s.len(),
        sorted_by(s.subrange(0, p), descending),
        sorted_by(s.subrange(p + 1, s.len() as int), descending),
        forall|k: int| 0 <= k < p ==> !follows(#[trigger] s[k], s[p], descending),
        forall|k: int| p < k < s.len() ==> !precedes(#[trigger] s[k], s[p], descending),
    ensures
        sorted_by(s, descending),
{
    let left = s.subrange(0, p);
    let right = s.subrange(p + 1, s.len() as int);
    assert forall|i: int, j: int| 0 <= i < j < s.len() implies !follows(
        #[trigger] s[i],
        #[trigger] s[j],
        descending,
    ) by {
        lemma_le_iff(s[i], s[p]);
        lemma_le_iff(s[p], s[i]);
        lemma_le_iff(s[j], s[p]);
        lemma_le_iff(s[p], s[j]);
        lemma_le_iff(s[i], s[j]);
        lemma_le_iff(s[j], s[i]);
        if j < p {
            assert(left[i] == s[i] && left[j] == s[j]);
        } else if p < i {
            assert(right[i - p - 1] == s[i] && right[j - p - 1] == s[j]);
        } else if i < p && p < j {
            if descending {
                assert(le(s[j], s[i]));
            } else {
                assert(le(s[i], s[j]));
            }
        }
    }
}

/// Sorts `arr[lo..hi]` in place, leaving the rest of `arr` as it was.
fn sort_range<T: PartialOrd>(arr: &mut [T], lo: usize, hi: usize, descending: bool)
    requires
        lo <= hi <= old(arr)@.len(),
    ensures
        final(arr)@.len() == old(arr)@.len(),
        forall|k: int|
            0 <= k < old(arr)@.len() && !(lo <= k < hi) ==> final(arr)@[k] == old(arr)@[k],
        final(arr)@.subrange(lo as int, hi as int).to_multiset() == old(arr)@.subrange(
            lo as int,
            hi as int,
        ).to_multiset(),
        T::obeys_partial_cmp_spec() && sorted_by(old(arr)@.subrange(lo as int, hi as int), descending)
            ==> final(arr)@ == old(arr)@,
        lawful_order::<T>() && all_comparable(old(arr)@.subrange(lo as int, hi as int))
            ==> sorted_by(final(arr)@.subrange(lo as int, hi as int), descending),
    decreases hi - lo,
{
    if hi - lo <= 1 {
        return;
    }
    let ghost init = arr@;
    let p = place_pivot(arr, lo, hi, descending);
    let ghost mid = arr@;
    sort_range(arr, lo, p, descending);
    let ghost left_done = arr@;
    sort_range(arr, p + 1, hi, descending);
    proof {
        broadcast use vstd::seq_lib::lemma_multiset_commutative;

        let fin = arr@;
        let (lo, hi, p) = (lo as int, hi as int, p as int);
        let pv = mid[p];
        assert(fin[p] == pv);
        assert(fin.subrange(lo, p) =~= left_done.subrange(lo, p));
        assert(left_done.subrange(p + 1, hi) =~= mid.subrange(p + 1, hi));
        assert(fin.subrange(lo, hi) =~= fin.subrange(lo, p) + (seq![pv] + fin.subrange(p + 1, hi)));
        assert(mid.subrange(lo, hi) =~= mid.subrange(lo, p) + (seq![pv] + mid.subrange(p + 1, hi)));
        if T::obeys_partial_cmp_spec() && sorted_by(init.subrange(lo, hi), descending) {
            assert(mid == init);
            lemma_sorted_subrange(init.subrange(lo, hi), 0, p - lo, descending);
            assert(init.subrange(lo, hi).subrange(0, p - lo) =~= mid.subrange(lo, p));
            assert(left_done == mid);
            lemma_sorted_subrange(init.subrange(lo, hi), p + 1 - lo, hi - lo, descending);
            assert(init.subrange(lo, hi).subrange(p + 1 - lo, hi - lo) =~= left_done.subrange(
                p + 1,
                hi,
            ));
        }
        if lawful_order::<T>() && all_comparable(init.subrange(lo, hi)) {
            lemma_comparable_permutation(init.subrange(lo, hi), mid.subrange(lo, hi));
            let ms = mid.subrange(lo, hi);
            lemma_comparable_subrange(ms, 0, p - lo);
            assert(ms.subrange(0, p - lo) =~= mid.subrange(lo, p));
            lemma_comparable_subrange(ms, p + 1 - lo, hi - lo);
            assert(ms.subrange(p + 1 - lo, hi - lo) =~= left_done.subrange(p + 1, hi));
            let fs = fin.subrange(lo, hi);
            lemma_comparable_permutation(init.subrange(lo, hi), fs);
            let before_pivot = |x: T| !follows(x, pv, descending);
            let after_pivot = |x: T| !precedes(x, pv, descending);
            assert forall|i: int| 0 <= i < p - lo implies before_pivot(
                #[trigger] mid.subrange(lo, p)[i],
            ) by {
                assert(mid.subrange(lo, p)[i] == mid[lo + i]);
            }
            lemma_all_permutation(mid.subrange(lo, p), fin.subrange(lo, p), before_pivot);
            assert forall|i: int| 0 <= i < hi - p - 1 implies after_pivot(
                #[trigger] mid.subrange(p + 1, hi)[i],
            ) by {
                assert(mid.subrange(p + 1, hi)[i] == mid[p + 1 + i]);
            }
            lemma_all_permutation(mid.subrange(p + 1, hi), fin.subrange(p + 1, hi), after_pivot);
            assert(fs.subrange(0, p - lo) =~= fin.subrange(lo, p));
            assert(fs.subrange(p - lo + 1, fs.len() as int) =~= fin.subrange(p + 1, hi));
            assert forall|k: int| 0 <= k < p - lo implies !follows(
                #[trigger] fs[k],
                fs[p - lo],
                descending,
            ) by {
                assert(fs[k] == fin.subrange(lo, p)[k]);
            }
            assert forall|k: int| p - lo < k < fs.len() implies !precedes(
                #[trigger] fs[k],
                fs[p - lo],
                descending,
            ) by {
                assert(fs[k] == fin.subrange(p + 1, hi)[k - (p - lo) - 1]);
            }
            lemma_join_sorted(fs, p - lo, descending);
        }
    }
}

/// Sorts `arr` in place, ascending or, when `descending` is set, descending.
///
/// The result is always a rearrangement of the input, of the same length. When the
/// comparison of `T` is a lawful partial order and every two elements are
/// comparable, no element stands after one that it belongs after. A sequence that
/// is already in the requested order is left exactly as it was.
pub fn cursorsort<T: PartialOrd>(arr: &mut [T], descending: bool)
    ensures
        final(arr)@.len() == old(arr)@.len(),
        final(arr)@.to_multiset() == old(arr)@.to_multiset(),
        T::obeys_partial_cmp_spec() && sorted_by(old(arr)@, descending) ==> final(arr)@ == old(
            arr,
        )@,
        lawful_order::<T>() && all_comparable(old(arr)@) ==> sorted_by(final(arr)@, descending),
{
    let ghost init = arr@;
    let n = arr.len();
    sort_range(arr, 0, n, descending);
    proof {
        assert(init.subrange(0, n as int) =~= init);
        assert(arr@.subrange(0, n as int) =~= arr@);
    }
}

} // verus!
