//! The vantage-point tree: construction and range search.

use vstd::prelude::*;
use crate::circle::Circle;
use crate::metric::Metric;
use crate::metric::Scalar;
use crate::perm::lemma_swap_keeps_multiset;
use crate::perm::swapped;
use crate::query::found;
use crate::query::hits;
use crate::query::lemma_hits_are_within;
use crate::query::lemma_pending_hits_push;
use crate::query::lemma_search_step;
use crate::query::pending_hits;
use crate::query::with_open_parts;
use crate::shape::arranged;
use crate::shape::centers;
use crate::shape::in_tree;
use crate::shape::lemma_arranged_window_is_node;
use crate::shape::lemma_nothing_pending;
use crate::shape::lemma_parts_in_tree;
use crate::shape::lemma_selection_arranges;
use crate::shape::lemma_step_keeps_shape;
use crate::shape::lemma_window_keeps_objects;
use crate::shape::lemma_with_parts;
use crate::shape::pending_len;
use crate::shape::shaped;
use crate::shape::shaped_except;
use crate::shape::with_parts;
use crate::utils::quick_select;

verus! {

/// The index at which a slice splits into a first half and a second half that
/// is as long or one longer.
pub fn get_mid<T>(arr: &[T]) -> (mid: usize)
    ensures
        mid == arr@.len() / 2,
{
    arr.len() / 2
}

/// `fastrand::usize` on the range `0..len`: an index below `len`, drawn from
/// the generator of the running thread. It panics on an empty range, which
/// the precondition rules out. Nothing else is known of the index.
#[verifier::external_body]
fn random_index(len: usize) -> (r: usize)
    requires
        len > 0,
    ensures
        r < len,
{
    fastrand::usize(0..len)
}

/// Makes the entry at `pivot` the vantage point of `vec` and arranges the
/// other entries around it: it moves to the front, every entry gets its
/// distance from it, the others are split at their middle by that distance,
/// and the vantage point takes the distance of the member at the split as its
/// radius.
pub fn place_vantage<'a, T, M: Metric<T>>(vec: &mut [Circle<'a, T>], pivot: usize, metric: &M)
    requires
        pivot < old(vec)@.len(),
    ensures
        final(vec)@.len() == old(vec)@.len(),
        final(vec)@[0].center == old(vec)@[pivot as int].center,
        centers(final(vec)@).to_multiset() == centers(old(vec)@).to_multiset(),
        arranged(final(vec)@, *metric),
{
    let n = vec.len();
    let ghost s0 = vec@;
    vec.swap(pivot, 0);
    let ghost s1 = vec@;
    proof {
        assert(centers(s1) =~= swapped(centers(s0), pivot as int, 0));
        lemma_swap_keeps_multiset(centers(s0), pivot as int, 0);
    }
    let vantage: &'a T = vec[0].center;
    let mut i: usize = 0;
    while i < n
        invariant
            vec@.len() == n,
            s1.len() == n,
            i <= n,
            forall|j: int| 0 <= j < n ==> (#[trigger] vec@[j]).center == s1[j].center,
            forall|j: int|
                0 <= j < i ==> (#[trigger] vec@[j]).radius == metric.dist(*vantage, *vec@[j].center),
        decreases n - i,
    {
        let d = metric.distance(vantage, vec[i].center);
        vec[i].radius = d;
        i += 1;
    }
    let ghost s2 = vec@;
    proof {
        assert(centers(s2) =~= centers(s1));
    }
    let (head, tail) = vec.split_at_mut(1);
    if !tail.is_empty() {
        let tail_mid = get_mid(tail);
        let ghost t0 = tail@;
        quick_select(tail, tail_mid);
        let ghost t1 = tail@;
        head[0].radius = tail[tail_mid].radius;
        proof {
            let s3 = head@ + t1;
            assert(t0 =~= s2.subrange(1, n as int));
            assert(t1 =~= s3.subrange(1, n as int));
            lemma_selection_arranges(s2, s3, *metric);
        }
    } else {
        proof {
            assert(head@ + tail@ =~= s2);
        }
    }
}

/// Turns a range of entries into a node: with two entries or more, one of
/// them, drawn at random, becomes the vantage point and the others are
/// arranged around it. A shorter range is left as it is.
pub fn process_slice<'a, T, M: Metric<T>>(vec: &mut [Circle<'a, T>], metric: &M)
    ensures
        final(vec)@.len() == old(vec)@.len(),
        centers(final(vec)@).to_multiset() == centers(old(vec)@).to_multiset(),
        old(vec)@.len() < 2 ==> final(vec)@ == old(vec)@,
        old(vec)@.len() >= 2 ==> arranged(final(vec)@, *metric),
{
    if vec.len() < 2 {
        return ;
    }
    let pivot = random_index(vec.len());
    place_vantage(vec, pivot, metric);
}

/// Arranges the entries into a vantage-point tree, range by range from a work
/// list: the whole slice first, then the two parts of each range that has
/// become a node.
pub fn build_iter<'a, T, M: Metric<T>>(vp_vec: &mut [Circle<'a, T>], metric: &M)
    ensures
        final(vp_vec)@.len() == old(vp_vec)@.len(),
        centers(final(vp_vec)@).to_multiset() == centers(old(vp_vec)@).to_multiset(),
        shaped(final(vp_vec)@, *metric, 0, final(vp_vec)@.len() as int),
{
    let n = vp_vec.len();
    let ghost before = vp_vec@;
    let mut stack: Vec<(usize, usize)> = Vec::with_capacity(n);
    if !vp_vec.is_empty() {
        stack.push((0, n));
    }
    proof {
        if n > 0 {
            assert(stack@[0].0 == 0 && stack@[0].1 == n);
        }
        assert(shaped_except(vp_vec@, *metric, 0, n as int, stack@));
    }
    while stack.len() > 0
        invariant
            vp_vec@.len() == n,
            centers(vp_vec@).to_multiset() == centers(before).to_multiset(),
            forall|i: int|
                0 <= i < stack@.len() ==> (#[trigger] stack@[i]).0 < stack@[i].1 <= n && in_tree(
                    0,
                    n as int,
                    stack@[i].0 as int,
                    stack@[i].1 as int,
                ),
            shaped_except(vp_vec@, *metric, 0, n as int, stack@),
        decreases pending_len(stack@),
    {
        let ghost work = stack@;
        let ghost s = vp_vec@;
        let (a, b) = stack.pop().unwrap();
        let ghost rest_of_work = stack@;
        let (_, rest) = vp_vec.split_at_mut(a);
        let (window, _) = rest.split_at_mut(b - a);
        let ghost w0 = window@;
        process_slice(window, metric);
        let ghost w1 = window@;
        let (_, tail) = window.split_at_mut(1);
        let mid_tail = get_mid(tail);
        let tail_len = tail.len();
        if mid_tail > 0 {
            stack.push((a + 1, a + 1 + mid_tail));
        }
        if tail_len > mid_tail {
            stack.push((a + 1 + mid_tail, b));
        }
        proof {
            let t = vp_vec@;
            assert(w0 =~= s.subrange(a as int, b as int));
            assert(t =~= s.subrange(0, a as int) + w1 + s.subrange(b as int, n as int));
            assert(w1 =~= t.subrange(a as int, b as int));
            assert(work =~= rest_of_work.push((a, b)));
            assert(stack@ =~= with_parts(rest_of_work, a, b));
            lemma_window_keeps_objects(s, t, a as int, b as int);
            if b - a >= 2 {
                lemma_arranged_window_is_node(t, *metric, a as int, b as int);
                lemma_parts_in_tree(0, n as int, a as int, b as int);
            }
            lemma_step_keeps_shape(s, t, *metric, rest_of_work, a, b);
            lemma_with_parts(rest_of_work, a, b);
        }
    }
    proof {
        lemma_nothing_pending(vp_vec@, *metric, 0, n as int, stack@);
    }
}

/// A vantage-point tree over borrowed objects, with the metric it was built
/// with. The tree is the sequence of its entries: the first entry of a range
/// is the vantage point of the range, the near members follow it, the far
/// members come last.
pub struct VPTree<'a, T, M: Metric<T>> {
    vp_vec: Vec<Circle<'a, T>>,
    metric: M,
}

/// What a tree holds: its entries in their order, and its metric.
pub struct TreeView<'a, T, M> {
    pub entries: Seq<Circle<'a, T>>,
    pub metric: M,
}

impl<'a, T, M: Metric<T>> View for VPTree<'a, T, M> {
    type V = TreeView<'a, T, M>;

    closed spec fn view(&self) -> TreeView<'a, T, M> {
        TreeView { entries: self.vp_vec@, metric: self.metric }
    }
}

impl<'a, T, M: Metric<T>> VPTree<'a, T, M> {
    /// The entries are laid out as a vantage-point tree under the metric.
    #[verifier::type_invariant]
    pub open spec fn wf(&self) -> bool {
        shaped(self@.entries, self@.metric, 0, self@.entries.len() as int)
    }

    /// The objects of the tree, in the order of its entries.
    pub open spec fn objects(&self) -> Seq<T> {
        centers(self@.entries)
    }

    /// The number of indexed objects.
    pub fn len(&self) -> (n: usize)
        ensures
            n == self@.entries.len(),
    {
        self.vp_vec.len()
    }

    /// Whether the tree holds no object at all.
    pub fn is_empty(&self) -> (e: bool)
        ensures
            e == (self@.entries.len() == 0),
    {
        self.vp_vec.len() == 0
    }

    /// The object of the entry at position `i`.
    pub fn center(&self, i: usize) -> (c: &'a T)
        requires
            i < self@.entries.len(),
        ensures
            c == self@.entries[i as int].center,
    {
        self.vp_vec[i].center
    }

    /// The radius of the entry at position `i`.
    pub fn radius(&self, i: usize) -> (r: Scalar)
        requires
            i < self@.entries.len(),
        ensures
            r == self@.entries[i as int].radius,
    {
        self.vp_vec[i].radius
    }

    /// The metric of the tree.
    pub fn metric(&self) -> (m: &M)
        ensures
            *m == self@.metric,
    {
        &self.metric
    }
}

/// Builds the vantage-point tree of `vec` under `metric`: one entry for each
/// object, laid out so that every range of the tree is a node.
pub fn build<'a, T, M: Metric<T>>(vec: &'a [T], metric: M) -> (tree: VPTree<'a, T, M>)
    ensures
        tree.wf(),
        tree@.metric == metric,
        tree@.entries.len() == vec@.len(),
        tree.objects().to_multiset() == vec@.to_multiset(),
{
    let mut vp_vec: Vec<Circle<'a, T>> = Vec::with_capacity(vec.len());
    let mut i: usize = 0;
    while i < vec.len()
        invariant
            i <= vec@.len(),
            vp_vec@.len() == i,
            centers(vp_vec@) =~= vec@.subrange(0, i as int),
        decreases vec@.len() - i,
    {
        vp_vec.push(Circle::new(&vec[i]));
        i += 1;
    }
    proof {
        assert(vec@.subrange(0, i as int) =~= vec@);
    }
    build_iter(vp_vec.as_mut_slice(), &metric);
    VPTree { vp_vec: vp_vec, metric: metric }
}

/// Finds the indexed objects within `eps` of `target`. The search walks the
/// tree from a work list and leaves out the near or the far members of a
/// vantage point where its radius shows that they lie too far from the target.
pub fn search<'a, T, M: Metric<T>>(vpt: &VPTree<'a, T, M>, target: &T, eps: Scalar) -> (results:
    Vec<&'a T>)
    ensures
        results@ == found(vpt@.entries, vpt@.metric, *target, eps as int),
        forall|i: int|
            0 <= i < results@.len() ==> vpt@.metric.dist(*#[trigger] results@[i], *target) <= eps,
        vpt@.entries.len() == 0 ==> results@.len() == 0,
{
    let mut results: Vec<&'a T> = Vec::new();
    let n = vpt.vp_vec.len();
    let mut stack: Vec<(usize, usize)> = Vec::with_capacity(n);
    if n > 0 {
        stack.push((0, n));
    }
    let ghost s = vpt.vp_vec@;
    let ghost m = vpt.metric;
    let ghost t = *target;
    let ghost all = hits(s, m, 0, n as int, t, eps as int);
    let ghost mut positions: Seq<int> = Seq::empty();
    proof {
        if n > 0 {
            lemma_pending_hits_push(s, m, Seq::empty(), (0usize, n), t, eps as int);
            assert(stack@ =~= Seq::<(usize, usize)>::empty().push((0usize, n)));
        }
        assert(positions + pending_hits(s, m, stack@, t, eps as int) =~= all);
    }
    while stack.len() > 0
        invariant
            s == vpt.vp_vec@,
            m == vpt.metric,
            t == *target,
            n == s.len(),
            all == hits(s, m, 0, n as int, t, eps as int),
            forall|i: int| 0 <= i < stack@.len() ==> (#[trigger] stack@[i]).0 < stack@[i].1 <= n,
            positions + pending_hits(s, m, stack@, t, eps as int) == all,
            results@ == positions.map_values(|p: int| s[p].center),
        decreases pending_len(stack@),
    {
        let ghost work = stack@;
        let (a, b) = stack.pop().unwrap();
        let ghost rest_of_work = stack@;
        let center = &vpt.vp_vec[a];
        let dist = vpt.metric.distance(center.center, target);
        let tail = vstd::slice::slice_subrange(vpt.vp_vec.as_slice(), a + 1, b);
        let tail_mid = get_mid(tail);
        if dist <= eps {
            results.push(center.center);
        }
        if (dist as i128) < (center.radius as i128) + (eps as i128) {
            if tail_mid > 0 {
                stack.push((a + 1, a + 1 + tail_mid));
            }
        }
        if (dist as i128) >= (center.radius as i128) - (eps as i128) {
            if a + 1 + tail_mid < b {
                stack.push((a + 1 + tail_mid, b));
            }
        }
        proof {
            let own = if dist <= eps { seq![a as int] } else { Seq::<int>::empty() };
            assert(work =~= rest_of_work.push((a, b)));
            assert(stack@ =~= with_open_parts(s, m, rest_of_work, a, b, t, eps as int));
            lemma_search_step(s, m, rest_of_work, a, b, t, eps as int);
            assert(positions + own + pending_hits(s, m, stack@, t, eps as int) =~= positions + (own
                + pending_hits(s, m, stack@, t, eps as int)));
            positions = positions + own;
            assert(results@ =~= positions.map_values(|p: int| s[p].center));
        }
    }
    proof {
        assert(positions =~= all);
        lemma_hits_are_within(s, m, 0, n as int, t, eps as int);
        assert forall|i: int| 0 <= i < results@.len() implies vpt@.metric.dist(
            *#[trigger] results@[i],
            *target,
        ) <= eps by {
            let p = all[i];
            assert(results@[i] == s[p].center);
        }
    }
    results
}

} // verus!
