//! The shape of a vantage-point tree laid out in a sequence of entries.

use vstd::prelude::*;
use crate::circle::lemma_circles_ordered_by_radius;
use crate::circle::Circle;
use crate::metric::Metric;
use crate::metric::Scalar;
use crate::order::is_kth_smallest;
use crate::order::le;
use crate::order::lemma_split_point_has_rank;
use crate::perm::lemma_map_keeps_permutation;
use crate::perm::lemma_same_multiset_same_elements;
use crate::perm::lemma_window_permutation;

use crate::utils::selected;

verus! {

/// The objects that the entries of `s` stand for, in the order of the entries.
pub open spec fn centers<'a, T>(s: Seq<Circle<'a, T>>) -> Seq<T> {
    s.map_values(|c: Circle<'a, T>| *c.center)
}

/// Where the members of the range `lo..hi` split: the vantage point stands at
/// `lo`, its near members from `lo + 1` up to the split, its far members from
/// the split up to `hi`.
pub open spec fn split_of(lo: int, hi: int) -> int {
    lo + 1 + (hi - lo - 1) / 2
}

/// The radius of the vantage point at `lo` separates the members of the range
/// `lo..hi`: no near member is farther from the vantage point, no far member
/// is nearer.
pub open spec fn node_ok<'a, T, M: Metric<T>>(s: Seq<Circle<'a, T>>, m: M, lo: int, hi: int) -> bool {
    &&& forall|i: int|
        lo < i < split_of(lo, hi) ==> m.dist(*s[lo].center, *(#[trigger] s[i]).center)
            <= s[lo].radius
    &&& forall|i: int|
        split_of(lo, hi) <= i < hi ==> m.dist(*s[lo].center, *(#[trigger] s[i]).center)
            >= s[lo].radius
}

/// The entries of `s` stand arranged around the vantage point at the front:
/// each other entry holds its distance from the vantage point, the vantage
/// point holds the distance of the member at the split, which no near member
/// exceeds and no far member falls short of.
pub open spec fn arranged<'a, T, M: Metric<T>>(s: Seq<Circle<'a, T>>, m: M) -> bool {
    &&& forall|i: int|
        1 <= i < s.len() ==> (#[trigger] s[i]).radius == m.dist(*s[0].center, *s[i].center)
    &&& s.len() == 1 ==> s[0].radius == m.dist(*s[0].center, *s[0].center)
    &&& s.len() >= 2 ==> s[0].radius == s[split_of(0, s.len() as int)].radius
    &&& forall|i: int| 1 <= i < split_of(0, s.len() as int) ==> (#[trigger] s[i]).radius <= s[0].radius
    &&& forall|i: int|
        split_of(0, s.len() as int) <= i < s.len() ==> (#[trigger] s[i]).radius >= s[0].radius
}

/// An arranged window of two entries or more is a node of the sequence that
/// it is a window of.
pub proof fn lemma_arranged_window_is_node<'a, T, M: Metric<T>>(
    t: Seq<Circle<'a, T>>,
    m: M,
    a: int,
    b: int,
)
    requires
        0 <= a,
        a + 2 <= b <= t.len(),
        arranged(t.subrange(a, b), m),
    ensures
        node_ok(t, m, a, b),
{
    let w = t.subrange(a, b);
    assert(split_of(a, b) == a + split_of(0, b - a));
    assert forall|i: int| a < i < split_of(a, b) implies m.dist(
        *t[a].center,
        *(#[trigger] t[i]).center,
    ) <= t[a].radius by {
        assert(w[i - a].radius <= w[0].radius);
    }
    assert forall|i: int| split_of(a, b) <= i < b implies m.dist(
        *t[a].center,
        *(#[trigger] t[i]).center,
    ) >= t[a].radius by {
        assert(w[i - a].radius >= w[0].radius);
    }
}

/// Selecting the middle one among the members arranges a range. In `s` each
/// member holds its distance from the vantage point at the front. In `t` the
/// members stand rearranged, split at their middle by those distances, and
/// the vantage point holds the distance of the member at the split.
pub proof fn lemma_selection_arranges<'a, T, M: Metric<T>>(
    s: Seq<Circle<'a, T>>,
    t: Seq<Circle<'a, T>>,
    m: M,
)
    requires
        s.len() >= 2,
        t.len() == s.len(),
        t[0].center == s[0].center,
        forall|i: int|
            1 <= i < s.len() ==> (#[trigger] s[i]).radius == m.dist(*s[0].center, *s[i].center),
        t.subrange(1, t.len() as int).to_multiset() == s.subrange(1, s.len() as int).to_multiset(),
        selected(t.subrange(1, t.len() as int), (t.len() - 1) / 2),
        t[0].radius == t[split_of(0, t.len() as int)].radius,
    ensures
        arranged(t, m),
        centers(t).to_multiset() == centers(s).to_multiset(),
{
    let n = s.len() as int;
    let s_tail = s.subrange(1, n);
    let t_tail = t.subrange(1, n);
    let k = (n - 1) / 2;
    lemma_circles_ordered_by_radius::<T>();
    lemma_same_multiset_same_elements(t_tail, s_tail);
    assert forall|i: int| 1 <= i < n implies (#[trigger] t[i]).radius == m.dist(
        *t[0].center,
        *t[i].center,
    ) by {
        assert(s_tail.contains(t_tail[i - 1]));
        let j = choose|j: int| 0 <= j < s_tail.len() && s_tail[j] == t_tail[i - 1];
        assert(s_tail[j] == s[j + 1]);
    }
    assert forall|i: int| 1 <= i < split_of(0, n) implies (#[trigger] t[i]).radius
        <= t[0].radius by {
        assert(le(t_tail[i - 1], t_tail[k]));
    }
    assert forall|i: int| split_of(0, n) <= i < n implies (#[trigger] t[i]).radius
        >= t[0].radius by {
        assert(le(t_tail[k], t_tail[i - 1]));
    }
    lemma_map_keeps_permutation(t_tail, s_tail, |c: Circle<'a, T>| *c.center);
    assert(centers(t).subrange(1, n) =~= centers(t_tail));
    assert(centers(s).subrange(1, n) =~= centers(s_tail));
    assert(centers(t)[0] == centers(s)[0]);
    lemma_window_permutation(centers(t), centers(s), 1, n);
}

/// The radii that the members of a range hold, in the order of the members.
pub open spec fn member_radii<'a, T>(s: Seq<Circle<'a, T>>) -> Seq<Scalar> {
    Seq::new((s.len() - 1) as nat, |i: int| s[i + 1].radius)
}

/// The radius of the vantage point of an arranged range is the middle one of
/// the distances that its members hold: with `n` members, the distance of
/// rank `n / 2` among them.
pub proof fn lemma_radius_is_middle_distance<'a, T, M: Metric<T>>(s: Seq<Circle<'a, T>>, m: M)
    requires
        s.len() >= 2,
        arranged(s, m),
    ensures
        is_kth_smallest(member_radii(s), (s.len() - 1) / 2, s[0].radius),
{
    let radii = member_radii(s);
    let k = (s.len() - 1) / 2;
    assert(radii[k] == s[split_of(0, s.len() as int)].radius);
    assert forall|i: int| 0 <= i <= k implies le(#[trigger] radii[i], radii[k]) by {
        assert(s[i + 1].radius <= s[0].radius);
    }
    assert forall|i: int| k <= i < radii.len() implies le(radii[k], #[trigger] radii[i]) by {
        assert(s[i + 1].radius >= s[0].radius);
    }
    lemma_split_point_has_rank(radii, k);
}

/// Every range of the tree laid out in `lo..hi` is a node: the entry at the
/// front of a range is its vantage point, the rest of the range splits at its
/// middle into the near members and the far members, and the two parts are
/// laid out in the same way.
pub open spec fn shaped<'a, T, M: Metric<T>>(s: Seq<Circle<'a, T>>, m: M, lo: int, hi: int) -> bool
    decreases hi - lo,
{
    hi - lo <= 1 || {
        &&& node_ok(s, m, lo, hi)
        &&& shaped(s, m, lo + 1, split_of(lo, hi))
        &&& shaped(s, m, split_of(lo, hi), hi)
    }
}

/// The range `a..b` is one of the ranges of the tree laid out in `lo..hi`.
pub open spec fn in_tree(lo: int, hi: int, a: int, b: int) -> bool
    decreases hi - lo,
{
    (lo == a && hi == b) || (hi - lo >= 2 && (in_tree(lo + 1, split_of(lo, hi), a, b) || in_tree(
        split_of(lo, hi),
        hi,
        a,
        b,
    )))
}

/// The range `lo..hi` waits on the work list.
pub open spec fn pending(work: Seq<(usize, usize)>, lo: int, hi: int) -> bool {
    exists|i: int| 0 <= i < work.len() && (#[trigger] work[i]).0 == lo && work[i].1 == hi
}

/// The number of entries in the ranges of the work list.
pub open spec fn pending_len(work: Seq<(usize, usize)>) -> nat
    decreases work.len(),
{
    if work.len() == 0 {
        0
    } else {
        pending_len(work.drop_last()) + (work.last().1 - work.last().0) as nat
    }
}

/// A range put on the work list adds its length.
pub proof fn lemma_pending_len_push(work: Seq<(usize, usize)>, range: (usize, usize))
    requires
        range.0 <= range.1,
    ensures
        pending_len(work.push(range)) == pending_len(work) + (range.1 - range.0),
{
    assert(work.push(range).drop_last() =~= work);
}

/// The work list `rest` with the two parts of the range `a..b` put on it, the
/// near members first, the far members on top. An empty part is left out.
pub open spec fn with_parts(rest: Seq<(usize, usize)>, a: usize, b: usize) -> Seq<(usize, usize)> {
    let mid = split_of(a as int, b as int) as usize;
    let with_near = if a + 1 < mid {
        rest.push(((a + 1) as usize, mid))
    } else {
        rest
    };
    if mid < b {
        with_near.push((mid, b))
    } else {
        with_near
    }
}

/// A work list on which the parts of a range take the place of the range
/// holds fewer entries. What waited on it still waits, but for the range, and
/// the parts that are not empty wait too.
pub proof fn lemma_with_parts(rest: Seq<(usize, usize)>, a: usize, b: usize)
    requires
        a < b,
    ensures
        pending_len(with_parts(rest, a, b)) < pending_len(rest.push((a, b))),
        forall|l: int, h: int| #[trigger]
            pending(rest.push((a, b)), l, h) ==> (l == a && h == b) || pending(
                with_parts(rest, a, b),
                l,
                h,
            ),
        a + 1 < split_of(a as int, b as int) ==> pending(
            with_parts(rest, a, b),
            a + 1,
            split_of(a as int, b as int),
        ),
        split_of(a as int, b as int) < b ==> pending(
            with_parts(rest, a, b),
            split_of(a as int, b as int),
            b as int,
        ),
{
    let mid = split_of(a as int, b as int) as usize;
    let near = ((a + 1) as usize, mid);
    let far = (mid, b);
    let with_near = if a + 1 < mid { rest.push(near) } else { rest };
    let after = with_parts(rest, a, b);
    lemma_pending_len_push(rest, (a, b));
    if a + 1 < mid {
        lemma_pending_len_push(rest, near);
        assert(after[rest.len() as int] == near);
    }
    if mid < b {
        lemma_pending_len_push(with_near, far);
        assert(after[with_near.len() as int] == far);
    }
    assert forall|l: int, h: int| #[trigger] pending(rest.push((a, b)), l, h) implies (l == a && h
        == b) || pending(after, l, h) by {
        let before = rest.push((a, b));
        let i = choose|i: int| 0 <= i < before.len() && (#[trigger] before[i]).0 == l && before[i].1 == h;
        if i < rest.len() {
            assert(after[i] == rest[i]);
        }
    }
}

/// The tree laid out in `lo..hi` has its shape down to the ranges that wait
/// on the work list.
pub open spec fn shaped_except<'a, T, M: Metric<T>>(
    s: Seq<Circle<'a, T>>,
    m: M,
    lo: int,
    hi: int,
    work: Seq<(usize, usize)>,
) -> bool
    decreases hi - lo,
{
    pending(work, lo, hi) || hi - lo <= 1 || {
        &&& node_ok(s, m, lo, hi)
        &&& shaped_except(s, m, lo + 1, split_of(lo, hi), work)
        &&& shaped_except(s, m, split_of(lo, hi), hi, work)
    }
}

/// An entry of `s` in the range `a..b` stands for the object `x`.
pub open spec fn holds_object<'a, T>(s: Seq<Circle<'a, T>>, a: int, b: int, x: T) -> bool {
    exists|j: int| a <= j < b && *(#[trigger] s[j]).center == x
}

/// Each entry of `t` in the range `a..b` stands for an object that an entry
/// of `s` in that range stands for.
pub open spec fn same_objects<'a, T>(
    s: Seq<Circle<'a, T>>,
    t: Seq<Circle<'a, T>>,
    a: int,
    b: int,
) -> bool {
    forall|i: int| a <= i < b ==> holds_object(s, a, b, *(#[trigger] t[i]).center)
}

/// A sequence that is rearranged inside a window, and holds the same objects
/// there as before, holds the same objects as before.
pub proof fn lemma_window_keeps_objects<'a, T>(
    s: Seq<Circle<'a, T>>,
    t: Seq<Circle<'a, T>>,
    a: int,
    b: int,
)
    requires
        0 <= a <= b <= s.len(),
        s.len() == t.len(),
        forall|i: int| 0 <= i < a || b <= i < s.len() ==> t[i] == s[i],
        centers(t.subrange(a, b)).to_multiset() == centers(s.subrange(a, b)).to_multiset(),
    ensures
        centers(t).to_multiset() == centers(s).to_multiset(),
        same_objects(s, t, a, b),
{
    let w0 = centers(s.subrange(a, b));
    let w1 = centers(t.subrange(a, b));
    assert(centers(t).subrange(a, b) =~= w1);
    assert(centers(s).subrange(a, b) =~= w0);
    lemma_window_permutation(centers(t), centers(s), a, b);
    lemma_same_multiset_same_elements(w1, w0);
    assert forall|i: int| a <= i < b implies holds_object(s, a, b, *(#[trigger] t[i]).center) by {
        assert(w0.contains(w1[i - a]));
        let j0 = choose|j0: int| 0 <= j0 < w0.len() && w0[j0] == w1[i - a];
        assert(*s[a + j0].center == *t[i].center);
    }
}

/// A range of the tree lies inside the range of the whole tree.
pub proof fn lemma_in_tree_inside(lo: int, hi: int, a: int, b: int)
    requires
        lo <= hi,
        in_tree(lo, hi, a, b),
    ensures
        lo <= a,
        b <= hi,
        a <= b,
    decreases hi - lo,
{
    if !(lo == a && hi == b) {
        if in_tree(lo + 1, split_of(lo, hi), a, b) {
            lemma_in_tree_inside(lo + 1, split_of(lo, hi), a, b);
        } else {
            lemma_in_tree_inside(split_of(lo, hi), hi, a, b);
        }
    }
}

/// The two parts of a range of the tree are ranges of the tree.
pub proof fn lemma_parts_in_tree(lo: int, hi: int, a: int, b: int)
    requires
        in_tree(lo, hi, a, b),
        b - a >= 2,
    ensures
        in_tree(lo, hi, a + 1, split_of(a, b)),
        in_tree(lo, hi, split_of(a, b), b),
    decreases hi - lo,
{
    if lo == a && hi == b {
        assert(in_tree(lo + 1, split_of(lo, hi), a + 1, split_of(a, b)));
        assert(in_tree(split_of(lo, hi), hi, split_of(a, b), b));
    } else if in_tree(lo + 1, split_of(lo, hi), a, b) {
        lemma_parts_in_tree(lo + 1, split_of(lo, hi), a, b);
    } else {
        lemma_parts_in_tree(split_of(lo, hi), hi, a, b);
    }
}

/// With nothing on the work list the tree has its shape throughout.
pub proof fn lemma_nothing_pending<'a, T, M: Metric<T>>(
    s: Seq<Circle<'a, T>>,
    m: M,
    lo: int,
    hi: int,
    work: Seq<(usize, usize)>,
)
    requires
        work.len() == 0,
        shaped_except(s, m, lo, hi, work),
    ensures
        shaped(s, m, lo, hi),
    decreases hi - lo,
{
    if hi - lo > 1 {
        lemma_nothing_pending(s, m, lo + 1, split_of(lo, hi), work);
        lemma_nothing_pending(s, m, split_of(lo, hi), hi, work);
    }
}

/// What one step of the construction does to the tree laid out in `lo..hi`,
/// a range of the whole tree: see `lemma_step_keeps_shape`. Here `before` and
/// `after` are the work list before and after the step.
pub proof fn lemma_step_keeps_range<'a, T, M: Metric<T>>(
    s: Seq<Circle<'a, T>>,
    t: Seq<Circle<'a, T>>,
    m: M,
    lo: int,
    hi: int,
    before: Seq<(usize, usize)>,
    after: Seq<(usize, usize)>,
    a: int,
    b: int,
)
    requires
        0 <= lo <= hi <= s.len(),
        s.len() == t.len(),
        0 <= a < b <= s.len(),
        in_tree(lo, hi, a, b) || b <= lo || hi <= a,
        shaped_except(s, m, lo, hi, before),
        forall|i: int| 0 <= i < a || b <= i < s.len() ==> t[i] == s[i],
        same_objects(s, t, a, b),
        b - a >= 2 ==> node_ok(t, m, a, b),
        forall|l: int, h: int| #[trigger]
            pending(before, l, h) ==> (l == a && h == b) || pending(after, l, h),
        a + 1 < split_of(a, b) ==> pending(after, a + 1, split_of(a, b)),
        split_of(a, b) < b ==> pending(after, split_of(a, b), b),
    ensures
        shaped_except(t, m, lo, hi, after),
    decreases hi - lo,
{
    let mid = split_of(lo, hi);
    if pending(after, lo, hi) || hi - lo <= 1 {
    } else if lo == a && hi == b {
        assert(shaped_except(t, m, lo + 1, mid, after));
        assert(shaped_except(t, m, mid, hi, after));
    } else {
        assert(!pending(before, lo, hi));
        assert(node_ok(s, m, lo, hi));
        if in_tree(lo, hi, a, b) {
            if in_tree(lo + 1, mid, a, b) {
                lemma_in_tree_inside(lo + 1, mid, a, b);
            } else {
                lemma_in_tree_inside(mid, hi, a, b);
            }
        }
        assert(t[lo] == s[lo]);
        assert forall|i: int| lo < i < mid implies m.dist(*t[lo].center, *(#[trigger] t[i]).center)
            <= t[lo].radius by {
            if a <= i < b {
                let j = choose|j: int| a <= j < b && *(#[trigger] s[j]).center == *t[i].center;
                assert(m.dist(*s[lo].center, *s[j].center) <= s[lo].radius);
            } else {
                assert(t[i] == s[i]);
            }
        }
        assert forall|i: int| mid <= i < hi implies m.dist(*t[lo].center, *(#[trigger] t[i]).center)
            >= t[lo].radius by {
            if a <= i < b {
                let j = choose|j: int| a <= j < b && *(#[trigger] s[j]).center == *t[i].center;
                assert(m.dist(*s[lo].center, *s[j].center) >= s[lo].radius);
            } else {
                assert(t[i] == s[i]);
            }
        }
        lemma_step_keeps_range(s, t, m, lo + 1, mid, before, after, a, b);
        lemma_step_keeps_range(s, t, m, mid, hi, before, after, a, b);
    }
}

/// One step of the construction keeps what has been built. The step takes
/// the range `a..b` from the work list, rearranges the objects inside it so
/// that it becomes a node, and puts its two parts on the work list. The rest
/// of the tree stays as it is, and each node above `a..b` stays a node,
/// because its near and far members are still the same objects.
pub proof fn lemma_step_keeps_shape<'a, T, M: Metric<T>>(
    s: Seq<Circle<'a, T>>,
    t: Seq<Circle<'a, T>>,
    m: M,
    rest: Seq<(usize, usize)>,
    a: usize,
    b: usize,
)
    requires
        s.len() == t.len(),
        a < b <= s.len(),
        in_tree(0, s.len() as int, a as int, b as int),
        shaped_except(s, m, 0, s.len() as int, rest.push((a, b))),
        forall|i: int| 0 <= i < a || b <= i < s.len() ==> t[i] == s[i],
        same_objects(s, t, a as int, b as int),
        b - a >= 2 ==> node_ok(t, m, a as int, b as int),
    ensures
        shaped_except(t, m, 0, t.len() as int, with_parts(rest, a, b)),
{
    lemma_with_parts(rest, a, b);
    lemma_step_keeps_range(
        s,
        t,
        m,
        0,
        s.len() as int,
        rest.push((a, b)),
        with_parts(rest, a, b),
        a as int,
        b as int,
    );
}

} // verus!
