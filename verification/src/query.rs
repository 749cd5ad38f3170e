//! What a range search of a vantage-point tree finds, and when that is all
//! there is to find.

use vstd::prelude::*;
use vstd::seq_lib::lemma_no_dup_in_concat;
use vstd::seq_lib::to_multiset_contains;
use crate::circle::Circle;
use crate::metric::is_metric;
use crate::metric::Metric;
use crate::shape::centers;
use crate::shape::lemma_pending_len_push;
use crate::shape::pending_len;
use crate::shape::shaped;
use crate::shape::split_of;

verus! {

/// The object at position `p` lies within `eps` of the target `t`.
pub open spec fn within<'a, T, M: Metric<T>>(
    s: Seq<Circle<'a, T>>,
    m: M,
    p: int,
    t: T,
    eps: int,
) -> bool {
    m.dist(*s[p].center, t) <= eps
}

/// The positions that a search of the tree laid out in `lo..hi` reports, in
/// the order in which it reports them. The search looks at the vantage point
/// first. It goes on with the far members unless the target is nearer to the
/// vantage point than its radius less `eps`, and then with the near members
/// if the target is nearer to the vantage point than its radius plus `eps`.
pub open spec fn hits<'a, T, M: Metric<T>>(
    s: Seq<Circle<'a, T>>,
    m: M,
    lo: int,
    hi: int,
    t: T,
    eps: int,
) -> Seq<int>
    decreases hi - lo,
{
    if hi <= lo {
        Seq::empty()
    } else {
        let d = m.dist(*s[lo].center, t);
        let r = s[lo].radius as int;
        let mid = split_of(lo, hi);
        (if d <= eps {
            seq![lo]
        } else {
            Seq::empty()
        }) + (if d >= r - eps {
            hits(s, m, mid, hi, t, eps)
        } else {
            Seq::empty()
        }) + (if d < r + eps {
            hits(s, m, lo + 1, mid, t, eps)
        } else {
            Seq::empty()
        })
    }
}

/// The positions that the ranges of the work list will still report, the last
/// range first.
pub open spec fn pending_hits<'a, T, M: Metric<T>>(
    s: Seq<Circle<'a, T>>,
    m: M,
    work: Seq<(usize, usize)>,
    t: T,
    eps: int,
) -> Seq<int>
    decreases work.len(),
{
    if work.len() == 0 {
        Seq::empty()
    } else {
        hits(s, m, work.last().0 as int, work.last().1 as int, t, eps) + pending_hits(
            s,
            m,
            work.drop_last(),
            t,
            eps,
        )
    }
}

/// The objects that a search of the whole tree reports, in the order in which
/// it reports them.
pub open spec fn found<'a, T, M: Metric<T>>(s: Seq<Circle<'a, T>>, m: M, t: T, eps: int) -> Seq<
    &'a T,
> {
    hits(s, m, 0, s.len() as int, t, eps).map_values(|p: int| s[p].center)
}

/// No near member of a vantage point in the tree laid out in `lo..hi` lies at
/// exactly `eps` from the target while the target lies at exactly the radius
/// plus `eps` from that vantage point. In that one position the search does
/// not look at the near members, though the triangle inequality lets such a
/// member lie within `eps`.
pub open spec fn boundary_free<'a, T, M: Metric<T>>(
    s: Seq<Circle<'a, T>>,
    m: M,
    lo: int,
    hi: int,
    t: T,
    eps: int,
) -> bool
    decreases hi - lo,
{
    hi - lo <= 1 || {
        &&& m.dist(*s[lo].center, t) == s[lo].radius + eps ==> forall|i: int|
            lo < i < split_of(lo, hi) ==> m.dist(*(#[trigger] s[i]).center, t) != eps
        &&& boundary_free(s, m, lo + 1, split_of(lo, hi), t, eps)
        &&& boundary_free(s, m, split_of(lo, hi), hi, t, eps)
    }
}

/// A range put on the work list will report its positions before the ranges
/// below it.
pub proof fn lemma_pending_hits_push<'a, T, M: Metric<T>>(
    s: Seq<Circle<'a, T>>,
    m: M,
    work: Seq<(usize, usize)>,
    range: (usize, usize),
    t: T,
    eps: int,
)
    ensures
        pending_hits(s, m, work.push(range), t, eps) == hits(
            s,
            m,
            range.0 as int,
            range.1 as int,
            t,
            eps,
        ) + pending_hits(s, m, work, t, eps),
{
    assert(work.push(range).drop_last() =~= work);
}

/// The work list `rest` after a step of the search on the range `a..b`: the
/// near members are put on it if the target is nearer to the vantage point
/// than its radius plus `eps`, then the far members unless the target is
/// nearer to the vantage point than its radius less `eps`. An empty part is
/// left out.
pub open spec fn with_open_parts<'a, T, M: Metric<T>>(
    s: Seq<Circle<'a, T>>,
    m: M,
    rest: Seq<(usize, usize)>,
    a: usize,
    b: usize,
    t: T,
    eps: int,
) -> Seq<(usize, usize)> {
    let d = m.dist(*s[a as int].center, t);
    let r = s[a as int].radius as int;
    let mid = split_of(a as int, b as int) as usize;
    let with_near = if d < r + eps && a + 1 < mid {
        rest.push(((a + 1) as usize, mid))
    } else {
        rest
    };
    if d >= r - eps && mid < b {
        with_near.push((mid, b))
    } else {
        with_near
    }
}

/// A step of the search on the range `a..b` reports the vantage point of the
/// range, if it lies within `eps` of the target, and leaves to the work list
/// what the range and the work list had to report besides. The work list
/// holds fewer entries after the step.
pub proof fn lemma_search_step<'a, T, M: Metric<T>>(
    s: Seq<Circle<'a, T>>,
    m: M,
    rest: Seq<(usize, usize)>,
    a: usize,
    b: usize,
    t: T,
    eps: int,
)
    requires
        a < b,
    ensures
        pending_hits(s, m, rest.push((a, b)), t, eps) == (if within(s, m, a as int, t, eps) {
            seq![a as int]
        } else {
            Seq::empty()
        }) + pending_hits(s, m, with_open_parts(s, m, rest, a, b, t, eps), t, eps),
        pending_len(with_open_parts(s, m, rest, a, b, t, eps)) < pending_len(rest.push((a, b))),
{
    let d = m.dist(*s[a as int].center, t);
    let r = s[a as int].radius as int;
    let mid = split_of(a as int, b as int) as usize;
    let near = ((a + 1) as usize, mid);
    let far = (mid, b);
    let own = if d <= eps { seq![a as int] } else { Seq::<int>::empty() };
    let far_hits = if d >= r - eps { hits(s, m, mid as int, b as int, t, eps) } else { Seq::<int>::empty() };
    let near_hits = if d < r + eps { hits(s, m, a + 1, mid as int, t, eps) } else { Seq::<int>::empty() };
    let with_near = if d < r + eps && a + 1 < mid { rest.push(near) } else { rest };
    let after = with_open_parts(s, m, rest, a, b, t, eps);
    let left = pending_hits(s, m, rest, t, eps);
    lemma_pending_hits_push(s, m, rest, (a, b), t, eps);
    lemma_pending_len_push(rest, (a, b));
    assert(hits(s, m, a as int, b as int, t, eps) == own + far_hits + near_hits);
    assert(pending_hits(s, m, with_near, t, eps) == near_hits + left) by {
        if d < r + eps && a + 1 < mid {
            lemma_pending_hits_push(s, m, rest, near, t, eps);
            lemma_pending_len_push(rest, near);
        } else {
            assert(near_hits =~= Seq::<int>::empty());
        }
    }
    assert(pending_hits(s, m, after, t, eps) == far_hits + (near_hits + left)) by {
        if d >= r - eps && mid < b {
            lemma_pending_hits_push(s, m, with_near, far, t, eps);
        } else {
            assert(far_hits =~= Seq::<int>::empty());
        }
    }
    if d < r + eps && a + 1 < mid {
        lemma_pending_len_push(rest, near);
    }
    if d >= r - eps && mid < b {
        lemma_pending_len_push(with_near, far);
    }
    assert(own + far_hits + near_hits + left =~= own + (far_hits + (near_hits + left)));
}

/// A search reports only positions of its range, and only objects within
/// `eps` of the target: there are no false positives, whatever the metric.
pub proof fn lemma_hits_are_within<'a, T, M: Metric<T>>(
    s: Seq<Circle<'a, T>>,
    m: M,
    lo: int,
    hi: int,
    t: T,
    eps: int,
)
    ensures
        forall|i: int|
            0 <= i < hits(s, m, lo, hi, t, eps).len() ==> {
                let p = #[trigger] hits(s, m, lo, hi, t, eps)[i];
                lo <= p < hi && within(s, m, p, t, eps)
            },
    decreases hi - lo,
{
    if hi > lo {
        let mid = split_of(lo, hi);
        let d = m.dist(*s[lo].center, t);
        let r = s[lo].radius as int;
        let own = if d <= eps { seq![lo] } else { Seq::<int>::empty() };
        let far = if d >= r - eps { hits(s, m, mid, hi, t, eps) } else { Seq::<int>::empty() };
        let near = if d < r + eps { hits(s, m, lo + 1, mid, t, eps) } else { Seq::<int>::empty() };
        let all = hits(s, m, lo, hi, t, eps);
        assert(all == own + far + near);
        lemma_hits_are_within(s, m, lo + 1, mid, t, eps);
        lemma_hits_are_within(s, m, mid, hi, t, eps);
        assert forall|i: int| 0 <= i < all.len() implies {
            let p = #[trigger] all[i];
            lo <= p < hi && within(s, m, p, t, eps)
        } by {
            if i < own.len() {
            } else if i < own.len() + far.len() {
                assert(all[i] == far[i - own.len()]);
            } else {
                assert(all[i] == near[i - own.len() - far.len()]);
            }
        }
    }
}

/// A search reports no position twice.
pub proof fn lemma_hits_are_distinct<'a, T, M: Metric<T>>(
    s: Seq<Circle<'a, T>>,
    m: M,
    lo: int,
    hi: int,
    t: T,
    eps: int,
)
    ensures
        hits(s, m, lo, hi, t, eps).no_duplicates(),
    decreases hi - lo,
{
    if hi > lo {
        let mid = split_of(lo, hi);
        let d = m.dist(*s[lo].center, t);
        let r = s[lo].radius as int;
        let own = if d <= eps { seq![lo] } else { Seq::<int>::empty() };
        let far = if d >= r - eps { hits(s, m, mid, hi, t, eps) } else { Seq::<int>::empty() };
        let near = if d < r + eps { hits(s, m, lo + 1, mid, t, eps) } else { Seq::<int>::empty() };
        lemma_hits_are_distinct(s, m, lo + 1, mid, t, eps);
        lemma_hits_are_distinct(s, m, mid, hi, t, eps);
        lemma_hits_are_within(s, m, lo + 1, mid, t, eps);
        lemma_hits_are_within(s, m, mid, hi, t, eps);
        lemma_no_dup_in_concat(own, far);
        lemma_no_dup_in_concat(own + far, near);
    }
}

/// Under a metric, on a tree that has its shape, a search reports the
/// position `p` if its object lies nearer to the target than `eps`, or lies
/// within `eps` while no near member lies on the boundary.
pub proof fn lemma_position_is_reported<'a, T, M: Metric<T>>(
    s: Seq<Circle<'a, T>>,
    m: M,
    lo: int,
    hi: int,
    t: T,
    eps: int,
    p: int,
)
    requires
        0 <= lo <= p < hi <= s.len(),
        is_metric(m),
        shaped(s, m, lo, hi),
        within(s, m, p, t, eps),
        m.dist(*s[p].center, t) < eps || boundary_free(s, m, lo, hi, t, eps),
    ensures
        hits(s, m, lo, hi, t, eps).contains(p),
    decreases hi - lo,
{
    let mid = split_of(lo, hi);
    let v = *s[lo].center;
    let x = *s[p].center;
    let d = m.dist(v, t);
    let r = s[lo].radius as int;
    let own = if d <= eps { seq![lo] } else { Seq::<int>::empty() };
    let far = if d >= r - eps { hits(s, m, mid, hi, t, eps) } else { Seq::<int>::empty() };
    let near = if d < r + eps { hits(s, m, lo + 1, mid, t, eps) } else { Seq::<int>::empty() };
    let all = hits(s, m, lo, hi, t, eps);
    assert(all == own + far + near);
    if p == lo {
        assert(all[0] == lo);
    } else if p < mid {
        assert(m.dist(v, x) <= r);
        assert(m.dist(v, t) <= m.dist(v, x) + m.dist(x, t));
        assert(d < r + eps);
        lemma_position_is_reported(s, m, lo + 1, mid, t, eps, p);
        let i = choose|i: int| 0 <= i < near.len() && near[i] == p;
        assert(all[own.len() + far.len() + i] == p);
    } else {
        assert(m.dist(v, x) >= r);
        assert(m.dist(x, t) == m.dist(t, x));
        assert(m.dist(v, x) <= m.dist(v, t) + m.dist(t, x));
        assert(d >= r - eps);
        lemma_position_is_reported(s, m, mid, hi, t, eps, p);
        let i = choose|i: int| 0 <= i < far.len() && far[i] == p;
        assert(all[own.len() + i] == p);
    }
}

/// Under a metric, on a tree that has its shape, a search misses no object
/// within `eps` of the target, unless a near member lies on the boundary that
/// `boundary_free` describes.
pub proof fn lemma_hits_are_complete<'a, T, M: Metric<T>>(
    s: Seq<Circle<'a, T>>,
    m: M,
    lo: int,
    hi: int,
    t: T,
    eps: int,
)
    requires
        0 <= lo <= hi <= s.len(),
        is_metric(m),
        shaped(s, m, lo, hi),
        boundary_free(s, m, lo, hi, t, eps),
    ensures
        forall|p: int|
            lo <= p < hi && within(s, m, p, t, eps) ==> hits(s, m, lo, hi, t, eps).contains(p),
{
    assert forall|p: int| lo <= p < hi && within(s, m, p, t, eps) implies hits(
        s,
        m,
        lo,
        hi,
        t,
        eps,
    ).contains(p) by {
        lemma_position_is_reported(s, m, lo, hi, t, eps, p);
    }
}

/// Under a metric, on a tree that has its shape, a search misses no object
/// that lies nearer to the target than `eps`, boundary or not: an object that
/// it misses lies at exactly `eps`.
pub proof fn lemma_hits_hold_the_interior<'a, T, M: Metric<T>>(
    s: Seq<Circle<'a, T>>,
    m: M,
    lo: int,
    hi: int,
    t: T,
    eps: int,
)
    requires
        0 <= lo <= hi <= s.len(),
        is_metric(m),
        shaped(s, m, lo, hi),
    ensures
        forall|p: int|
            lo <= p < hi && m.dist(*(#[trigger] s[p]).center, t) < eps ==> hits(
                s,
                m,
                lo,
                hi,
                t,
                eps,
            ).contains(p),
{
    assert forall|p: int| lo <= p < hi && m.dist(*(#[trigger] s[p]).center, t) < eps implies hits(
        s,
        m,
        lo,
        hi,
        t,
        eps,
    ).contains(p) by {
        lemma_position_is_reported(s, m, lo, hi, t, eps, p);
    }
}

/// Where a near member lies on the boundary, the search misses an object
/// within `eps` of the target: `boundary_free` leaves out no more than it has
/// to.
pub proof fn lemma_boundary_is_missed<'a, T, M: Metric<T>>(
    s: Seq<Circle<'a, T>>,
    m: M,
    lo: int,
    hi: int,
    t: T,
    eps: int,
)
    requires
        0 <= lo <= hi <= s.len(),
        !boundary_free(s, m, lo, hi, t, eps),
    ensures
        exists|p: int|
            lo <= p < hi && within(s, m, p, t, eps) && !hits(s, m, lo, hi, t, eps).contains(p),
    decreases hi - lo,
{
    let mid = split_of(lo, hi);
    let d = m.dist(*s[lo].center, t);
    let r = s[lo].radius as int;
    let all = hits(s, m, lo, hi, t, eps);
    lemma_hits_are_within(s, m, lo + 1, mid, t, eps);
    lemma_hits_are_within(s, m, mid, hi, t, eps);
    let far = if d >= r - eps { hits(s, m, mid, hi, t, eps) } else { Seq::<int>::empty() };
    let near = if d < r + eps { hits(s, m, lo + 1, mid, t, eps) } else { Seq::<int>::empty() };
    let own = if d <= eps { seq![lo] } else { Seq::<int>::empty() };
    assert(all == own + far + near);
    let p = if !boundary_free(s, m, lo + 1, mid, t, eps) {
        lemma_boundary_is_missed(s, m, lo + 1, mid, t, eps);
        choose|p: int|
            lo + 1 <= p < mid && within(s, m, p, t, eps) && !hits(s, m, lo + 1, mid, t, eps).contains(
                p,
            )
    } else if !boundary_free(s, m, mid, hi, t, eps) {
        lemma_boundary_is_missed(s, m, mid, hi, t, eps);
        choose|p: int|
            mid <= p < hi && within(s, m, p, t, eps) && !hits(s, m, mid, hi, t, eps).contains(p)
    } else {
        choose|i: int| lo < i < mid && m.dist(*(#[trigger] s[i]).center, t) == eps
    };
    assert(lo < p < hi && within(s, m, p, t, eps));
    assert(!all.contains(p)) by {
        if all.contains(p) {
            let i = choose|i: int| 0 <= i < all.len() && all[i] == p;
            if i < own.len() {
            } else if i < own.len() + far.len() {
                assert(far[i - own.len()] == p);
            } else {
                assert(near[i - own.len() - far.len()] == p);
            }
        }
    }
}

/// With no object at exactly `eps` from the target, no near member lies on
/// the boundary, however the tree is laid out.
pub proof fn lemma_off_sphere_is_boundary_free<'a, T, M: Metric<T>>(
    s: Seq<Circle<'a, T>>,
    m: M,
    lo: int,
    hi: int,
    t: T,
    eps: int,
)
    requires
        forall|i: int| lo <= i < hi ==> m.dist(*(#[trigger] s[i]).center, t) != eps,
    ensures
        boundary_free(s, m, lo, hi, t, eps),
    decreases hi - lo,
{
    if hi - lo > 1 {
        lemma_off_sphere_is_boundary_free(s, m, lo + 1, split_of(lo, hi), t, eps);
        lemma_off_sphere_is_boundary_free(s, m, split_of(lo, hi), hi, t, eps);
    }
}

/// With a radius below 0 a search finds nothing, if no distance is negative.
pub proof fn lemma_negative_radius_finds_nothing<'a, T, M: Metric<T>>(
    s: Seq<Circle<'a, T>>,
    m: M,
    t: T,
    eps: int,
)
    requires
        eps < 0,
        forall|a: T, b: T| #[trigger] m.dist(a, b) >= 0,
    ensures
        found(s, m, t, eps).len() == 0,
{
    let all = hits(s, m, 0, s.len() as int, t, eps);
    lemma_hits_are_within(s, m, 0, s.len() as int, t, eps);
    if all.len() > 0 {
        assert(within(s, m, all[0], t, eps));
    }
}

/// Search is sound and complete: under a metric, on a tree that has its
/// shape and with no near member on the boundary, it reports each position
/// whose object lies within `eps` of the target exactly once, and no other
/// position.
pub proof fn lemma_search_is_exhaustive<'a, T, M: Metric<T>>(
    s: Seq<Circle<'a, T>>,
    m: M,
    t: T,
    eps: int,
)
    requires
        is_metric(m),
        shaped(s, m, 0, s.len() as int),
        boundary_free(s, m, 0, s.len() as int, t, eps),
    ensures
        hits(s, m, 0, s.len() as int, t, eps).no_duplicates(),
        forall|p: int|
            hits(s, m, 0, s.len() as int, t, eps).contains(p) <==> 0 <= p < s.len() && within(
                s,
                m,
                p,
                t,
                eps,
            ),
        forall|x: T| #[trigger]
            found(s, m, t, eps).contains(&x) <==> centers(s).contains(x) && m.dist(x, t) <= eps,
{
    let all = hits(s, m, 0, s.len() as int, t, eps);
    lemma_hits_are_distinct(s, m, 0, s.len() as int, t, eps);
    lemma_hits_are_within(s, m, 0, s.len() as int, t, eps);
    lemma_hits_are_complete(s, m, 0, s.len() as int, t, eps);
    assert forall|x: T| #[trigger]
        found(s, m, t, eps).contains(&x) <==> centers(s).contains(x) && m.dist(x, t) <= eps by {
        if found(s, m, t, eps).contains(&x) {
            let i = choose|i: int|
                0 <= i < found(s, m, t, eps).len() && found(s, m, t, eps)[i] == &x;
            let p = all[i];
            assert(centers(s)[p] == x);
        }
        if centers(s).contains(x) && m.dist(x, t) <= eps {
            let p = choose|p: int| 0 <= p < centers(s).len() && centers(s)[p] == x;
            assert(within(s, m, p, t, eps));
            assert(all.contains(p));
            let i = choose|i: int| 0 <= i < all.len() && all[i] == p;
            assert(found(s, m, t, eps)[i] == &x);
        }
    }
}

/// Search against a scan: a tree that holds the objects of `objects`, has its
/// shape under a metric and has no near member on the boundary reports, as a
/// set, exactly the objects of `objects` within `eps` of the target.
pub proof fn lemma_search_equals_scan<'a, T, M: Metric<T>>(
    objects: Seq<T>,
    s: Seq<Circle<'a, T>>,
    m: M,
    t: T,
    eps: int,
)
    requires
        is_metric(m),
        shaped(s, m, 0, s.len() as int),
        centers(s).to_multiset() == objects.to_multiset(),
        boundary_free(s, m, 0, s.len() as int, t, eps),
    ensures
        forall|x: T| #[trigger]
            found(s, m, t, eps).contains(&x) <==> objects.contains(x) && m.dist(x, t) <= eps,
{
    lemma_search_is_exhaustive(s, m, t, eps);
    assert forall|x: T| centers(s).contains(x) <==> objects.contains(x) by {
        to_multiset_contains(centers(s), x);
        to_multiset_contains(objects, x);
    }
}

} // verus!
