//! In-place selection of an order statistic.

use vstd::prelude::*;
use crate::order::count_up_to;
use crate::order::is_kth_smallest;
use crate::order::le;
use crate::order::lemma_count_of_split;
use crate::order::lemma_rank_of_permutation;
use crate::order::lemma_split_point_has_rank;
use crate::order::obeys_order;
use crate::order::total_order;
use crate::perm::lemma_same_multiset_same_elements;
use crate::perm::lemma_swap_keeps_multiset;
use crate::perm::lemma_window_permutation;

verus! {

/// `<[E]>::swap` of the standard library: exchanges the elements at `a` and
/// `b`, which may be the same position, and touches nothing else. It panics
/// on an index out of bounds, which the precondition rules out.
pub assume_specification<E>[ <[E]>::swap ](slice: &mut [E], a: usize, b: usize)
    requires
        a < old(slice)@.len(),
        b < old(slice)@.len(),
    ensures
        final(slice)@ == old(slice)@.update(a as int, old(slice)@[b as int]).update(
            b as int,
            old(slice)@[a as int],
        ),
;

/// Nothing before `cut` is larger than anything from `cut` on.
pub open spec fn ordered_across<T: PartialOrd>(s: Seq<T>, cut: int) -> bool {
    forall|i: int, j: int| 0 <= i < cut && cut <= j < s.len() ==> le(#[trigger] s[i], #[trigger] s[j])
}

/// Nothing before position `k` is larger than the element at `k`, and nothing
/// from `k` on is smaller.
pub open spec fn selected<T: PartialOrd>(s: Seq<T>, k: int) -> bool {
    &&& forall|i: int| 0 <= i < k ==> le(#[trigger] s[i], s[k])
    &&& forall|i: int| k <= i < s.len() ==> le(s[k], #[trigger] s[i])
}

/// Rearranges `vec` around the element that stands at `k`, the pivot, in one
/// pass, and returns the boundary: the pivot ends at `higher - 1`, the
/// elements at most the pivot stand before it, and all others after it. With
/// `k` out of range nothing moves and the length is returned.
pub fn partition<T: PartialOrd>(vec: &mut [T], k: usize) -> (higher: usize)
    ensures
        final(vec)@.len() == old(vec)@.len(),
        final(vec)@.to_multiset() == old(vec)@.to_multiset(),
        k >= old(vec)@.len() ==> higher == old(vec)@.len() && final(vec)@ == old(vec)@,
        k < old(vec)@.len() ==> 1 <= higher <= old(vec)@.len() && final(vec)@[higher - 1] == old(
            vec,
        )@[k as int],
        k < old(vec)@.len() && obeys_order::<T>() ==> forall|i: int|
            0 <= i < higher - 1 ==> le(#[trigger] final(vec)@[i], old(vec)@[k as int]),
        k < old(vec)@.len() && obeys_order::<T>() ==> forall|i: int|
            higher <= i < old(vec)@.len() ==> !le(#[trigger] final(vec)@[i], old(vec)@[k as int]),
        k < old(vec)@.len() && total_order::<T>() ==> higher == count_up_to(
            old(vec)@,
            old(vec)@[k as int],
        ),
{
    let n = vec.len();
    if k >= n {
        return n;
    }
    let ghost before = vec@;
    let ghost pivot = vec@[k as int];
    proof {
        lemma_swap_keeps_multiset(vec@, k as int, 0);
    }
    vec.swap(k, 0);
    let mut higher: usize = 1;
    let mut j: usize = 1;
    while j < n
        invariant
            n == vec@.len(),
            1 <= higher <= j <= n,
            vec@.to_multiset() == before.to_multiset(),
            vec@[0] == pivot,
            obeys_order::<T>() ==> forall|i: int| 1 <= i < higher ==> le(#[trigger] vec@[i], pivot),
            obeys_order::<T>() ==> forall|i: int| higher <= i < j ==> !le(#[trigger] vec@[i], pivot),
        decreases n - j,
    {
        if vec[j] <= vec[0] {
            proof {
                lemma_swap_keeps_multiset(vec@, higher as int, j as int);
            }
            vec.swap(higher, j);
            higher += 1;
        }
        j += 1;
    }
    proof {
        lemma_swap_keeps_multiset(vec@, 0, higher - 1);
    }
    vec.swap(0, higher - 1);
    proof {
        if total_order::<T>() {
            lemma_count_of_split(vec@, higher as int, pivot);
            lemma_rank_of_permutation(vec@, before, 0, pivot);
        }
    }
    higher
}

/// One pass keeps the order across the window and adds two cuts. The pass
/// rearranges the window `lo..hi` of `s` into that of `t`, with the pivot at
/// `at`, nothing larger before it and only larger elements after it.
pub proof fn lemma_pass_orders_window<T: PartialOrd>(
    s: Seq<T>,
    t: Seq<T>,
    lo: int,
    hi: int,
    at: int,
)
    requires
        total_order::<T>(),
        0 <= lo <= at < hi <= s.len(),
        s.len() == t.len(),
        forall|i: int| 0 <= i < lo || hi <= i < s.len() ==> s[i] == t[i],
        s.subrange(lo, hi).to_multiset() == t.subrange(lo, hi).to_multiset(),
        forall|i: int| lo <= i < at ==> le(#[trigger] t[i], t[at]),
        forall|i: int| at < i < hi ==> !le(#[trigger] t[i], t[at]),
        ordered_across(s, lo),
        ordered_across(s, hi),
    ensures
        ordered_across(t, lo),
        ordered_across(t, hi),
        ordered_across(t, at),
        ordered_across(t, at + 1),
{
    let n = s.len() as int;
    let w = s.subrange(lo, hi);
    let v = t.subrange(lo, hi);
    let pivot = t[at];
    lemma_same_multiset_same_elements(v, w);
    assert forall|j: int| lo <= j < hi implies exists|j2: int|
        lo <= j2 < hi && s[j2] == #[trigger] t[j] by {
        assert(w.contains(v[j - lo]));
        let i2 = choose|i2: int| 0 <= i2 < w.len() && w[i2] == v[j - lo];
        assert(s[lo + i2] == t[j]);
    }
    assert forall|i: int, j: int| 0 <= i < lo && lo <= j < n implies le(
        #[trigger] t[i],
        #[trigger] t[j],
    ) by {
        if j < hi {
            let j2 = choose|j2: int| lo <= j2 < hi && s[j2] == t[j];
            assert(le(s[i], s[j2]));
        } else {
            assert(le(s[i], s[j]));
        }
    }
    assert forall|i: int, j: int| 0 <= i < hi && hi <= j < n implies le(
        #[trigger] t[i],
        #[trigger] t[j],
    ) by {
        if lo <= i {
            let i2 = choose|i2: int| lo <= i2 < hi && s[i2] == t[i];
            assert(le(s[i2], s[j]));
        } else {
            assert(le(s[i], s[j]));
        }
    }
    assert(le(pivot, pivot));
    assert forall|j: int| at <= j < hi implies le(pivot, #[trigger] t[j]) by {
        assert(le(t[j], pivot) || le(pivot, t[j]));
    }
    assert forall|i: int, j: int| 0 <= i < at && at <= j < n implies le(
        #[trigger] t[i],
        #[trigger] t[j],
    ) by {
        if lo <= i && j < hi {
            assert(le(t[i], pivot) && le(pivot, t[j]));
        }
    }
    assert forall|i: int, j: int| 0 <= i < at + 1 && at + 1 <= j < n implies le(
        #[trigger] t[i],
        #[trigger] t[j],
    ) by {
        if lo <= i && j < hi {
            assert(le(t[i], pivot) && le(pivot, t[j]));
        }
    }
}

/// Rearranges `vec` so that the element of rank `k` stands at position `k`,
/// with nothing larger before it and nothing smaller after it. With `k` out of
/// range nothing moves.
///
/// Each pass partitions the window that still holds position `k` around the
/// element at `k`, and goes on with the part left or right of the boundary
/// that holds `k`, until the pivot comes to stand at `k`.
pub fn quick_select<T: PartialOrd>(vec: &mut [T], k: usize)
    ensures
        final(vec)@.len() == old(vec)@.len(),
        final(vec)@.to_multiset() == old(vec)@.to_multiset(),
        k >= old(vec)@.len() ==> final(vec)@ == old(vec)@,
        k < old(vec)@.len() && total_order::<T>() ==> selected(final(vec)@, k as int),
        k < old(vec)@.len() && total_order::<T>() ==> is_kth_smallest(
            old(vec)@,
            k as int,
            final(vec)@[k as int],
        ),
{
    let n = vec.len();
    if k >= n {
        return ;
    }
    let ghost before = vec@;
    let mut lo: usize = 0;
    let mut hi: usize = n;
    let mut idx: usize = k;
    let mut done = false;
    while !done
        invariant
            vec@.len() == n,
            vec@.to_multiset() == before.to_multiset(),
            lo <= hi <= n,
            idx < hi - lo,
            lo + idx == k,
            total_order::<T>() ==> ordered_across(vec@, lo as int) && ordered_across(vec@, hi as int),
            total_order::<T>() && done ==> selected(vec@, k as int),
        decreases hi - lo + if done { 0int } else { 1int },
    {
        let ghost s = vec@;
        let (_, rest) = vec.split_at_mut(lo);
        let (window, _) = rest.split_at_mut(hi - lo);
        let ghost w = window@;
        let higher = partition(window, idx);
        let ghost v = window@;
        proof {
            let t = vec@;
            assert(w =~= s.subrange(lo as int, hi as int));
            assert(v =~= t.subrange(lo as int, hi as int));
            lemma_window_permutation(s, t, lo as int, hi as int);
            if total_order::<T>() {
                lemma_pass_orders_window(s, t, lo as int, hi as int, lo + higher - 1);
            }
        }
        if higher > idx + 1 {
            hi = lo + higher - 1;
        } else if higher < idx + 1 {
            lo = lo + higher;
            idx = idx - higher;
        } else {
            done = true;
        }
    }
    proof {
        if total_order::<T>() {
            lemma_split_point_has_rank(vec@, k as int);
            lemma_rank_of_permutation(vec@, before, k as int, vec@[k as int]);
        }
    }
}

} // verus!
