use vstd::prelude::*;

use core::cmp::Ordering;
use vstd::std_specs::cmp::PartialOrdSpec;

use crate::order::{
    all_comparable, follows, lawful_order, lemma_comparable_permutation, lemma_le_iff, sorted_by,
    ties_identical,
};

verus! {

/// Two elements of a rearrangement of `a` that compare equal are the same value,
/// when that holds in `a`.
proof fn lemma_ties_permutation<T: PartialOrd>(a: Seq<T>, b: Seq<T>)
    requires
        ties_identical(a),
        a.to_multiset() == b.to_multiset(),
    ensures
        ties_identical(b),
{
    broadcast use vstd::seq_lib::group_to_multiset_ensures;

    assert forall|i: int, j: int|
        #![trigger b[i], b[j]]
        0 <= i < b.len() && 0 <= j < b.len() && b[i].partial_cmp_spec(&b[j]) == Some(
            Ordering::Equal,
        ) implies b[i] == b[j] by {
        assert(b.contains(b[i]) && b.contains(b[j]));
        assert(b.to_multiset().count(b[i]) > 0 && b.to_multiset().count(b[j]) > 0);
        assert(a.contains(b[i]) && a.contains(b[j]));
    }
}

/// Two arrangements of the same elements that are both sorted in one direction are
/// the same sequence, when the elements are pairwise comparable and two of them
/// that compare equal are the same value.
pub proof fn lemma_sorted_arrangement_unique<T: PartialOrd>(
    a: Seq<T>,
    b: Seq<T>,
    descending: bool,
)
    requires
        lawful_order::<T>(),
        all_comparable(a),
        ties_identical(a),
        a.to_multiset() == b.to_multiset(),
        sorted_by(a, descending),
        sorted_by(b, descending),
    ensures
        a == b,
    decreases a.len(),
{
    broadcast use vstd::seq_lib::group_to_multiset_ensures;

    assert(a.len() == a.to_multiset().len());
    assert(b.len() == b.to_multiset().len());
    if a.len() == 0 {
        assert(a =~= b);
    } else {
        let x = a[0];
        let y = b[0];
        assert(b.to_multiset().count(y) > 0);
        assert(a.contains(y));
        let k = choose|k: int| 0 <= k < a.len() && a[k] == y;
        assert(a.to_multiset().count(x) > 0);
        assert(b.contains(x));
        let m = choose|m: int| 0 <= m < b.len() && b[m] == x;
        assert(k == 0 || !follows(a[0], a[k], descending));
        assert(m == 0 || !follows(b[0], b[m], descending));
        assert(x.partial_cmp_spec(&y) is Some);
        lemma_le_iff(x, y);
        lemma_le_iff(y, x);
        assert(x.partial_cmp_spec(&y) == Some(Ordering::Equal));
        assert(x == y);
        let ta = a.drop_first();
        let tb = b.drop_first();
        assert(a.remove(0) =~= ta);
        assert(b.remove(0) =~= tb);
        assert(ta.to_multiset() == tb.to_multiset());
        assert(all_comparable(ta)) by {
            assert forall|i: int, j: int|
                #![trigger ta[i], ta[j]]
                0 <= i < ta.len() && 0 <= j < ta.len() implies ta[i].partial_cmp_spec(
                &ta[j],
            ) is Some by {
                assert(ta[i] == a[i + 1] && ta[j] == a[j + 1]);
            }
        }
        assert(ties_identical(ta)) by {
            assert forall|i: int, j: int|
                #![trigger ta[i], ta[j]]
                0 <= i < ta.len() && 0 <= j < ta.len() && ta[i].partial_cmp_spec(&ta[j]) == Some(
                    Ordering::Equal,
                ) implies ta[i] == ta[j] by {
                assert(ta[i] == a[i + 1] && ta[j] == a[j + 1]);
            }
        }
        assert(sorted_by(ta, descending)) by {
            assert forall|i: int, j: int| 0 <= i < j < ta.len() implies !follows(
                #[trigger] ta[i],
                #[trigger] ta[j],
                descending,
            ) by {
                assert(ta[i] == a[i + 1] && ta[j] == a[j + 1]);
            }
        }
        assert(sorted_by(tb, descending)) by {
            assert forall|i: int, j: int| 0 <= i < j < tb.len() implies !follows(
                #[trigger] tb[i],
                #[trigger] tb[j],
                descending,
            ) by {
                assert(tb[i] == b[i + 1] && tb[j] == b[j + 1]);
            }
        }
        lemma_sorted_arrangement_unique(ta, tb, descending);
        assert forall|i: int| 0 < i < a.len() implies a[i] == b[i] by {
            assert(a[i] == ta[i - 1] && b[i] == tb[i - 1]);
        }
        assert(a =~= b);
    }
}

/// Sorting ascending and then reversing gives what sorting descending gives, for
/// elements that are pairwise comparable: `up` and `down` stand for what sorting
/// `s` ascending and descending leaves. Where two distinct values compare equal the
/// two results may order them differently, so such inputs are left out.
pub proof fn lemma_descending_is_reversed_ascending<T: PartialOrd>(
    s: Seq<T>,
    up: Seq<T>,
    down: Seq<T>,
)
    requires
        lawful_order::<T>(),
        all_comparable(s),
        ties_identical(s),
        up.to_multiset() == s.to_multiset(),
        sorted_by(up, false),
        down.to_multiset() == s.to_multiset(),
        sorted_by(down, true),
    ensures
        up.reverse() == down,
{
    let r = up.reverse();
    up.lemma_reverse_to_multiset();
    lemma_comparable_permutation(s, down);
    lemma_ties_permutation(s, down);
    assert forall|i: int, j: int| 0 <= i < j < r.len() implies !follows(
        #[trigger] r[i],
        #[trigger] r[j],
        true,
    ) by {
        let (a, b) = (up.len() - 1 - j, up.len() - 1 - i);
        assert(r[i] == up[b] && r[j] == up[a]);
        assert(!follows(up[a], up[b], false));
        lemma_comparable_permutation(s, up);
        lemma_le_iff(up[a], up[b]);
    }
    lemma_sorted_arrangement_unique(down, r, true);
}

} // verus!
