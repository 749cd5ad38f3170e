//! The order that a type's own comparison defines, and ranks under it.

use vstd::prelude::*;
use vstd::std_specs::cmp::PartialOrdIs;
use vstd::std_specs::cmp::PartialOrdSpec;
use crate::perm::lemma_filter_len_at_least;
use crate::perm::lemma_filter_len_at_most;
use crate::perm::lemma_filter_len_permutation;

verus! {

/// `a <= b`, as the comparison of `T` decides it.
pub open spec fn le<T: PartialOrd>(a: T, b: T) -> bool {
    a.is_le(&b)
}

/// The comparison operators of `T` return what `le` says.
pub open spec fn obeys_order<T: PartialOrd>() -> bool {
    T::obeys_partial_cmp_spec()
}

/// `<=` on `T` obeys `le`, which relates any two values one way or the other
/// and is transitive. Distinct values may be equivalent under it.
pub open spec fn total_order<T: PartialOrd>() -> bool {
    &&& obeys_order::<T>()
    &&& forall|a: T, b: T| #[trigger] le(a, b) || le(b, a)
    &&& forall|a: T, b: T, c: T| #[trigger] le(a, b) && #[trigger] le(b, c) ==> le(a, c)
}

/// How many elements of `s` are strictly below `v`.
pub open spec fn count_below<T: PartialOrd>(s: Seq<T>, v: T) -> nat {
    s.filter(|x: T| !le(v, x)).len()
}

/// How many elements of `s` are at most `v`.
pub open spec fn count_up_to<T: PartialOrd>(s: Seq<T>, v: T) -> nat {
    s.filter(|x: T| le(x, v)).len()
}

/// `v` is what a fully sorted arrangement of `s` holds at rank `k` (counted
/// from 0): at most `k` elements are strictly below it, and more than `k`
/// elements are at most it.
pub open spec fn is_kth_smallest<T: PartialOrd>(s: Seq<T>, k: int, v: T) -> bool {
    count_below(s, v) <= k < count_up_to(s, v)
}

/// A rank does not depend on the order in which the elements stand.
pub proof fn lemma_rank_of_permutation<T: PartialOrd>(s1: Seq<T>, s2: Seq<T>, k: int, v: T)
    requires
        s1.to_multiset() == s2.to_multiset(),
    ensures
        count_below(s1, v) == count_below(s2, v),
        count_up_to(s1, v) == count_up_to(s2, v),
        is_kth_smallest(s1, k, v) == is_kth_smallest(s2, k, v),
{
    lemma_filter_len_permutation(s1, s2, |x: T| !le(v, x));
    lemma_filter_len_permutation(s1, s2, |x: T| le(x, v));
}

/// In a sequence split around position `k`, with nothing larger before it and
/// nothing smaller after it, the element at `k` has rank `k`.
pub proof fn lemma_split_point_has_rank<T: PartialOrd>(s: Seq<T>, k: int)
    requires
        0 <= k < s.len(),
        forall|i: int| 0 <= i <= k ==> le(#[trigger] s[i], s[k]),
        forall|i: int| k <= i < s.len() ==> le(s[k], #[trigger] s[i]),
    ensures
        is_kth_smallest(s, k, s[k]),
{
    let v = s[k];
    lemma_filter_len_at_most(s, |x: T| !le(v, x), k);
    lemma_filter_len_at_least(s, |x: T| le(x, v), k + 1);
}

/// If exactly the first `h` elements are at most `v`, then `h` elements are.
pub proof fn lemma_count_of_split<T: PartialOrd>(s: Seq<T>, h: int, v: T)
    requires
        0 <= h <= s.len(),
        forall|i: int| 0 <= i < h ==> le(#[trigger] s[i], v),
        forall|i: int| h <= i < s.len() ==> !le(#[trigger] s[i], v),
    ensures
        count_up_to(s, v) == h,
{
    lemma_filter_len_at_most(s, |x: T| le(x, v), h);
    lemma_filter_len_at_least(s, |x: T| le(x, v), h);
}

} // verus!
