//! Facts about sequences that hold the same elements in another order.

use vstd::prelude::*;
use vstd::seq_lib::*;

verus! {

/// The sequence `s` with the elements at `a` and `b` exchanged.
pub open spec fn swapped<A>(s: Seq<A>, a: int, b: int) -> Seq<A> {
    s.update(a, s[b]).update(b, s[a])
}

/// Exchanging two elements keeps the multiset of elements.
pub proof fn lemma_swap_keeps_multiset<A>(s: Seq<A>, a: int, b: int)
    requires
        0 <= a < s.len(),
        0 <= b < s.len(),
    ensures
        swapped(s, a, b).to_multiset() == s.to_multiset(),
{
    broadcast use vstd::multiset::group_multiset_axioms;

    let mid = s.update(a, s[b]);
    to_multiset_update(s, a, s[b]);
    to_multiset_update(mid, b, s[a]);
    to_multiset_contains(s, s[a]);
    to_multiset_contains(s, s[b]);
}

/// A sequence that changes only inside a window, and keeps the multiset of the
/// window, keeps its multiset.
pub proof fn lemma_window_permutation<A>(s1: Seq<A>, s2: Seq<A>, lo: int, hi: int)
    requires
        0 <= lo <= hi <= s1.len(),
        s1.len() == s2.len(),
        forall|i: int| 0 <= i < lo || hi <= i < s1.len() ==> s1[i] == s2[i],
        s1.subrange(lo, hi).to_multiset() == s2.subrange(lo, hi).to_multiset(),
    ensures
        s1.to_multiset() == s2.to_multiset(),
{
    let n = s1.len() as int;
    assert(s1.subrange(0, lo) =~= s2.subrange(0, lo));
    assert(s1.subrange(hi, n) =~= s2.subrange(hi, n));
    assert(s1 =~= s1.subrange(0, lo) + s1.subrange(lo, hi) + s1.subrange(hi, n));
    assert(s2 =~= s2.subrange(0, lo) + s2.subrange(lo, hi) + s2.subrange(hi, n));
    lemma_multiset_commutative(s1.subrange(0, lo), s1.subrange(lo, hi));
    lemma_multiset_commutative(s1.subrange(0, lo) + s1.subrange(lo, hi), s1.subrange(hi, n));
    lemma_multiset_commutative(s2.subrange(0, lo), s2.subrange(lo, hi));
    lemma_multiset_commutative(s2.subrange(0, lo) + s2.subrange(lo, hi), s2.subrange(hi, n));
}

/// Every element of a sequence occurs in any sequence with the same multiset.
pub proof fn lemma_same_multiset_same_elements<A>(s1: Seq<A>, s2: Seq<A>)
    requires
        s1.to_multiset() == s2.to_multiset(),
    ensures
        s1.len() == s2.len(),
        forall|i: int| 0 <= i < s1.len() ==> s2.contains(#[trigger] s1[i]),
{
    to_multiset_len(s1);
    to_multiset_len(s2);
    assert forall|i: int| 0 <= i < s1.len() implies s2.contains(#[trigger] s1[i]) by {
        to_multiset_contains(s1, s1[i]);
        to_multiset_contains(s2, s1[i]);
    }
}

/// Mapping two sequences with the same multiset gives sequences with the same multiset.
pub proof fn lemma_map_keeps_permutation<A, B>(s1: Seq<A>, s2: Seq<A>, f: spec_fn(A) -> B)
    requires
        s1.to_multiset() == s2.to_multiset(),
    ensures
        s1.map_values(f).to_multiset() == s2.map_values(f).to_multiset(),
    decreases s1.len(),
{
    broadcast use vstd::multiset::group_multiset_axioms;

    lemma_same_multiset_same_elements(s1, s2);
    if s1.len() == 0 {
        assert(s1.map_values(f) =~= s2.map_values(f));
    } else {
        let x = s1.last();
        let r1 = s1.drop_last();
        let j = choose|j: int| 0 <= j < s2.len() && s2[j] == x;
        let r2 = s2.remove(j);
        assert(s1 =~= r1.push(x));
        to_multiset_build(r1, x);
        to_multiset_remove(s2, j);
        assert(r1.to_multiset() =~= r2.to_multiset());
        lemma_map_keeps_permutation(r1, r2, f);
        assert(s1.map_values(f) =~= r1.map_values(f).push(f(x)));
        to_multiset_build(r1.map_values(f), f(x));
        assert(s2.map_values(f).remove(j) =~= r2.map_values(f));
        to_multiset_remove(s2.map_values(f), j);
        to_multiset_contains(s2.map_values(f), f(x));
    }
}

/// Removing the element at `j` lowers the number of elements that satisfy `p`
/// by one if that element satisfies it, and leaves it as it is otherwise.
pub proof fn lemma_filter_len_remove<A>(s: Seq<A>, p: spec_fn(A) -> bool, j: int)
    requires
        0 <= j < s.len(),
    ensures
        s.filter(p).len() == s.remove(j).filter(p).len() + if p(s[j]) { 1int } else { 0int },
    decreases s.len(),
{
    let front = s.drop_last();
    assert(s =~= front.push(s.last()));
    front.lemma_filter_len_push(p, s.last());
    if j < s.len() - 1 {
        lemma_filter_len_remove(front, p, j);
        assert(s.remove(j) =~= front.remove(j).push(s.last()));
        front.remove(j).lemma_filter_len_push(p, s.last());
    }
}

/// Two sequences with the same multiset hold equally many elements that satisfy `p`.
pub proof fn lemma_filter_len_permutation<A>(s1: Seq<A>, s2: Seq<A>, p: spec_fn(A) -> bool)
    requires
        s1.to_multiset() == s2.to_multiset(),
    ensures
        s1.filter(p).len() == s2.filter(p).len(),
    decreases s1.len(),
{
    broadcast use vstd::multiset::group_multiset_axioms;

    lemma_same_multiset_same_elements(s1, s2);
    if s1.len() > 0 {
        let x = s1.last();
        let r1 = s1.drop_last();
        let j = choose|j: int| 0 <= j < s2.len() && s2[j] == x;
        let r2 = s2.remove(j);
        assert(s1 =~= r1.push(x));
        to_multiset_build(r1, x);
        to_multiset_remove(s2, j);
        assert(r1.to_multiset() =~= r2.to_multiset());
        lemma_filter_len_permutation(r1, r2, p);
        r1.lemma_filter_len_push(p, x);
        lemma_filter_len_remove(s2, p, j);
    }
}

/// If no element from position `k` on satisfies `p`, at most `k` elements do.
pub proof fn lemma_filter_len_at_most<A>(s: Seq<A>, p: spec_fn(A) -> bool, k: int)
    requires
        0 <= k,
        forall|i: int| k <= i < s.len() ==> !p(#[trigger] s[i]),
    ensures
        s.filter(p).len() <= k,
    decreases s.len(),
{
    s.lemma_filter_len(p);
    if s.len() > k {
        let front = s.drop_last();
        assert(s =~= front.push(s.last()));
        front.lemma_filter_len_push(p, s.last());
        lemma_filter_len_at_most(front, p, k);
    }
}

/// If each of the first `n` elements satisfies `p`, at least `n` elements do.
pub proof fn lemma_filter_len_at_least<A>(s: Seq<A>, p: spec_fn(A) -> bool, n: int)
    requires
        0 <= n <= s.len(),
        forall|i: int| 0 <= i < n ==> p(#[trigger] s[i]),
    ensures
        s.filter(p).len() >= n,
    decreases s.len(),
{
    if s.len() > 0 {
        let front = s.drop_last();
        assert(s =~= front.push(s.last()));
        front.lemma_filter_len_push(p, s.last());
        if n == s.len() {
            lemma_filter_len_at_least(front, p, n - 1);
        } else {
            lemma_filter_len_at_least(front, p, n);
        }
    }
}

} // verus!
