use vstd::prelude::*;

use core::cmp::Ordering;
use vstd::std_specs::cmp::PartialOrdSpec;

verus! {

/// In the requested direction, `x` strictly belongs before `y`.
pub open spec fn precedes<T: PartialOrd>(x: T, y: T, descending: bool) -> bool {
    if descending {
        x.partial_cmp_spec(&y) == Some(Ordering::Greater)
    } else {
        x.partial_cmp_spec(&y) == Some(Ordering::Less)
    }
}

/// In the requested direction, `x` strictly belongs after `y`.
pub open spec fn follows<T: PartialOrd>(x: T, y: T, descending: bool) -> bool {
    if descending {
        x.partial_cmp_spec(&y) == Some(Ordering::Less)
    } else {
        x.partial_cmp_spec(&y) == Some(Ordering::Greater)
    }
}

/// No element of `s` strictly belongs after an element that stands to its right.
/// For comparable elements at `i < j` this is `s[i] <= s[j]` (ascending) or
/// `s[i] >= s[j]` (descending); incomparable pairs may stand either way.
pub open spec fn sorted_by<T: PartialOrd>(s: Seq<T>, descending: bool) -> bool {
    forall|i: int, j: int| 0 <= i < j < s.len() ==> !follows(#[trigger] s[i], #[trigger] s[j], descending)
}

/// Every two elements of `s` are comparable.
pub open spec fn all_comparable<T: PartialOrd>(s: Seq<T>) -> bool {
    forall|i: int, j: int|
        #![trigger s[i], s[j]]
        0 <= i < s.len() && 0 <= j < s.len() ==> s[i].partial_cmp_spec(&s[j]) is Some
}

/// Two elements of `s` that compare equal are the same value.
pub open spec fn ties_identical<T: PartialOrd>(s: Seq<T>) -> bool {
    forall|i: int, j: int|
        #![trigger s[i], s[j]]
        0 <= i < s.len() && 0 <= j < s.len() && s[i].partial_cmp_spec(&s[j]) == Some(
            Ordering::Equal,
        ) ==> s[i] == s[j]
}

/// `x <= y` under the comparison of `T`.
pub open spec fn le<T: PartialOrd>(x: T, y: T) -> bool {
    x.partial_cmp_spec(&y) matches Some(Ordering::Less | Ordering::Equal)
}

/// `partial_cmp` follows its specification, and that specification is a partial
/// order: `x < y` exactly when `y > x`, and `<=` is transitive.
pub open spec fn lawful_order<T: PartialOrd>() -> bool {
    &&& T::obeys_partial_cmp_spec()
    &&& forall|x: T, y: T|
        #[trigger] x.partial_cmp_spec(&y) == Some(Ordering::Less) <==> y.partial_cmp_spec(&x) == Some(
            Ordering::Greater,
        )
    &&& forall|x: T, y: T, z: T| #[trigger] le(x, y) && #[trigger] le(y, z) ==> le(x, z)
}

/// For two comparable elements, `x <= y` exactly when `x > y` fails, and exactly
/// when `y < x` fails.
pub proof fn lemma_le_iff<T: PartialOrd>(x: T, y: T)
    requires
        lawful_order::<T>(),
        x.partial_cmp_spec(&y) is Some,
    ensures
        le(x, y) <==> x.partial_cmp_spec(&y) != Some(Ordering::Greater),
        le(x, y) <==> y.partial_cmp_spec(&x) != Some(Ordering::Less),
{
    assert(x.partial_cmp_spec(&y) == Some(Ordering::Less) <==> y.partial_cmp_spec(&x) == Some(
        Ordering::Greater,
    ));
    assert(y.partial_cmp_spec(&x) == Some(Ordering::Less) <==> x.partial_cmp_spec(&y) == Some(
        Ordering::Greater,
    ));
}

/// The comparison of `u8` is a lawful order.
pub proof fn lemma_u8_lawful()
    ensures
        lawful_order::<u8>(),
{
}

/// The comparison of `i32` is a lawful order.
pub proof fn lemma_i32_lawful()
    ensures
        lawful_order::<i32>(),
{
}

/// Elements drawn from a pairwise comparable sequence stay pairwise comparable in
/// any rearrangement of it.
pub proof fn lemma_comparable_permutation<T: PartialOrd>(a: Seq<T>, b: Seq<T>)
    requires
        all_comparable(a),
        a.to_multiset() == b.to_multiset(),
    ensures
        all_comparable(b),
{
    broadcast use vstd::seq_lib::group_to_multiset_ensures;

    assert forall|i: int, j: int|
        #![trigger b[i], b[j]]
        0 <= i < b.len() && 0 <= j < b.len() implies b[i].partial_cmp_spec(&b[j]) is Some by {
        assert(b.contains(b[i]));
        assert(b.contains(b[j]));
        assert(b.to_multiset().count(b[i]) > 0);
        assert(b.to_multiset().count(b[j]) > 0);
        assert(a.contains(b[i]));
        assert(a.contains(b[j]));
    }
}

} // verus!
