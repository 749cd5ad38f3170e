use std::collections::HashSet;
use vptree::circle::Circle;
use vptree::metric::AbsDiff;
use vptree::metric::FnMetric;
use vptree::metric::Metric;
use vptree::metric::Scalar;
use vptree::vptree::build;
use vptree::vptree::build_iter;
use vptree::vptree::get_mid;
use vptree::vptree::place_vantage;
use vptree::vptree::process_slice;
use vptree::vptree::search;
use vptree::vptree::VPTree;

fn absdist(n: &i32, m: &i32) -> Scalar {
    (*n as Scalar - *m as Scalar).abs()
}

/// Every object at distance 0 from every other.
fn flat(_a: &i32, _b: &i32) -> Scalar {
    0
}

fn search_naive<'a, M: Metric<i32>>(vec: &'a [i32], metric: &M, target: &i32, eps: Scalar) -> Vec<&'a i32> {
    vec.iter().filter(|&x| metric.distance(target, x) <= eps).collect()
}

fn check_range<M: Metric<i32>>(vpt: &VPTree<i32, M>, lo: usize, hi: usize) -> bool {
    let mut stack: Vec<(usize, usize)> = Vec::new();
    if lo < hi {
        stack.push((lo, hi));
    }
    while let Some((a, b)) = stack.pop() {
        let mid = a + 1 + (b - a - 1) / 2;
        for i in a + 1..mid {
            if vpt.metric().distance(vpt.center(a), vpt.center(i)) > vpt.radius(a) {
                return false;
            }
        }
        for i in mid..b {
            if vpt.metric().distance(vpt.center(a), vpt.center(i)) < vpt.radius(a) {
                return false;
            }
        }
        if a + 1 < mid {
            stack.push((a + 1, mid));
        }
        if mid < b {
            stack.push((mid, b));
        }
    }
    true
}

fn check_vptree<M: Metric<i32>>(vpt: &VPTree<i32, M>) -> bool {
    check_range(vpt, 0, vpt.len())
}

fn objects_of<M: Metric<i32>>(vpt: &VPTree<i32, M>) -> Vec<i32> {
    let mut v: Vec<i32> = (0..vpt.len()).map(|i| *vpt.center(i)).collect();
    v.sort();
    v
}

fn sorted(v: &[i32]) -> Vec<i32> {
    let mut s = v.to_vec();
    s.sort();
    s
}

fn values(found: Vec<&i32>) -> Vec<i32> {
    let mut v: Vec<i32> = found.into_iter().copied().collect();
    v.sort();
    v
}

#[test]
fn test_build_empty() {
    let mut vec = vec![];
    let vpt = build(&mut vec, FnMetric::new(absdist));
    assert!(vpt.is_empty());
    assert!(check_vptree(&vpt));
    assert!(search(&vpt, &0, 1).is_empty());
}

#[test]
fn test_build_sample() {
    let mut vec = vec![-1, 4, -4, 1, 2, -3];
    let vpt = build(&mut vec, FnMetric::new(absdist));
    assert!(check_vptree(&vpt));
    assert_eq!(search(&vpt, &-1, 1).len(), 1);
    assert_eq!(search(&vpt, &4, 1).len(), 1);
    assert_eq!(search(&vpt, &-4, 1).len(), 2);
    assert_eq!(search(&vpt, &1, 1).len(), 2);
    assert_eq!(search(&vpt, &2, 1).len(), 2);
    assert_eq!(search(&vpt, &-3, 1).len(), 2);
    assert_eq!(search(&vpt, &0, 1).len(), 2);
}

#[test]
fn search_sample_finds_exactly_the_near_objects() {
    let vec = vec![-1, 4, -4, 1, 2, -3];
    for _ in 0..50 {
        let vpt = build(&vec, AbsDiff);
        assert_eq!(values(search(&vpt, &-1, 1)), vec![-1]);
        assert_eq!(values(search(&vpt, &-4, 1)), vec![-4, -3]);
        assert_eq!(values(search(&vpt, &4, 1)), vec![4]);
        assert_eq!(values(search(&vpt, &0, 1)), vec![-1, 1]);
        assert_eq!(values(search(&vpt, &0, 0)), Vec::<i32>::new());
        assert_eq!(values(search(&vpt, &2, 0)), vec![2]);
        assert_eq!(values(search(&vpt, &0, 100)), vec![-4, -3, -1, 1, 2, 4]);
    }
}

#[test]
fn empty_tree_finds_nothing() {
    let vec: Vec<i32> = vec![];
    let vpt = build(&vec, AbsDiff);
    assert_eq!(vpt.len(), 0);
    assert!(vpt.is_empty());
    assert!(search(&vpt, &0, 0).is_empty());
    assert!(search(&vpt, &17, 1).is_empty());
    assert!(search(&vpt, &-5, Scalar::MAX).is_empty());
    assert!(search(&vpt, &-5, -1).is_empty());
    assert!(search(&vpt, &i32::MIN, Scalar::MIN).is_empty());
}

#[test]
fn single_object_tree() {
    let vec = vec![7];
    let vpt = build(&vec, AbsDiff);
    assert_eq!(vpt.len(), 1);
    assert!(!vpt.is_empty());
    assert_eq!(*vpt.center(0), 7);
    assert_eq!(vpt.radius(0), 0);
    assert_eq!(values(search(&vpt, &7, 0)), vec![7]);
    assert_eq!(values(search(&vpt, &9, 2)), vec![7]);
    assert!(search(&vpt, &9, 1).is_empty());
}

#[test]
fn build_keeps_every_object_once() {
    for _ in 0..30 {
        let n = fastrand::usize(0..80);
        let vec: Vec<i32> = (0..n).map(|_| fastrand::i32(-20..20)).collect();
        let vpt = build(&vec, AbsDiff);
        assert_eq!(vpt.len(), n);
        assert_eq!(objects_of(&vpt), sorted(&vec));
        assert!(check_vptree(&vpt));
    }
}

#[test]
fn build_gives_every_range_its_shape() {
    for _ in 0..30 {
        let n = fastrand::usize(0..200);
        let vec: Vec<i32> = (0..n).map(|_| fastrand::i32(..)).collect();
        let vpt = build(&vec, AbsDiff);
        assert!(check_vptree(&vpt));
    }
    let ordered: Vec<i32> = (0..500).collect();
    assert!(check_vptree(&build(&ordered, AbsDiff)));
    let equal = vec![3; 64];
    assert!(check_vptree(&build(&equal, AbsDiff)));
}

#[test]
fn root_radius_is_the_distance_at_the_split() {
    let vec = vec![-1, 4, -4, 1, 2, -3];
    for _ in 0..30 {
        let vpt = build(&vec, AbsDiff);
        let root = *vpt.center(0);
        let mut dists: Vec<Scalar> =
            vec.iter().filter(|&&x| x != root).map(|x| AbsDiff.distance(&root, x)).collect();
        dists.sort();
        assert_eq!(dists.len(), 5);
        assert_eq!(vpt.radius(0), dists[2]);
    }
}

#[test]
fn place_vantage_arranges_the_others_by_distance() {
    let objects = vec![-1, 4, -4, 1, 2, -3];
    let mut entries: Vec<Circle<i32>> = objects.iter().map(Circle::new).collect();
    place_vantage(&mut entries, 3, &AbsDiff);
    assert_eq!(*entries[0].center, 1);
    assert_eq!(entries[0].radius, 3);
    assert_eq!(*entries[3].center, 4);
    for i in 1..entries.len() {
        assert_eq!(entries[i].radius, AbsDiff.distance(&1, entries[i].center));
    }
    for i in 1..3 {
        assert!(entries[i].radius <= 3);
    }
    for i in 3..6 {
        assert!(entries[i].radius >= 3);
    }
    let mut kept: Vec<i32> = entries.iter().map(|c| *c.center).collect();
    kept.sort();
    assert_eq!(kept, sorted(&objects));
}

#[test]
fn place_vantage_on_short_ranges() {
    let objects = vec![5, 9];
    let mut one: Vec<Circle<i32>> = objects[..1].iter().map(Circle::new).collect();
    place_vantage(&mut one, 0, &AbsDiff);
    assert_eq!(*one[0].center, 5);
    assert_eq!(one[0].radius, 0);

    let mut two: Vec<Circle<i32>> = objects.iter().map(Circle::new).collect();
    place_vantage(&mut two, 1, &AbsDiff);
    assert_eq!(*two[0].center, 9);
    assert_eq!(*two[1].center, 5);
    assert_eq!(two[0].radius, 4);
    assert_eq!(two[1].radius, 4);
}

#[test]
fn process_slice_leaves_short_ranges_alone() {
    let objects = vec![5];
    let mut none: Vec<Circle<i32>> = Vec::new();
    process_slice(&mut none, &AbsDiff);
    assert!(none.is_empty());
    let mut one: Vec<Circle<i32>> = objects.iter().map(Circle::new).collect();
    one[0].radius = 42;
    process_slice(&mut one, &AbsDiff);
    assert_eq!(*one[0].center, 5);
    assert_eq!(one[0].radius, 42);
}

#[test]
fn process_slice_makes_a_node() {
    let objects = vec![10, -3, 8, 0, 2, 2, 7];
    for _ in 0..30 {
        let mut entries: Vec<Circle<i32>> = objects.iter().map(Circle::new).collect();
        process_slice(&mut entries, &AbsDiff);
        let root = *entries[0].center;
        let mid = 1 + get_mid(&entries[1..]);
        assert_eq!(mid, 4);
        assert_eq!(entries[0].radius, entries[mid].radius);
        for i in 1..mid {
            assert!(AbsDiff.distance(&root, entries[i].center) <= entries[0].radius);
        }
        for i in mid..entries.len() {
            assert!(AbsDiff.distance(&root, entries[i].center) >= entries[0].radius);
        }
        let mut kept: Vec<i32> = entries.iter().map(|c| *c.center).collect();
        kept.sort();
        assert_eq!(kept, sorted(&objects));
    }
}

#[test]
fn build_iter_arranges_a_slice_in_place() {
    let objects = vec![10, -3, 8, 0, 2, 2, 7, 5, -9];
    let mut entries: Vec<Circle<i32>> = objects.iter().map(Circle::new).collect();
    build_iter(&mut entries, &AbsDiff);
    assert_eq!(entries.len(), objects.len());
    let mut kept: Vec<i32> = entries.iter().map(|c| *c.center).collect();
    kept.sort();
    assert_eq!(kept, sorted(&objects));
    let root = *entries[0].center;
    let mid = 1 + get_mid(&entries[1..]);
    for i in 1..mid {
        assert!(AbsDiff.distance(&root, entries[i].center) <= entries[0].radius);
    }
    for i in mid..entries.len() {
        assert!(AbsDiff.distance(&root, entries[i].center) >= entries[0].radius);
    }
}

#[test]
fn get_mid_halves_the_length() {
    let v = vec![1, 2, 3, 4, 5];
    assert_eq!(get_mid(&v[..0]), 0);
    assert_eq!(get_mid(&v[..1]), 0);
    assert_eq!(get_mid(&v[..2]), 1);
    assert_eq!(get_mid(&v[..3]), 1);
    assert_eq!(get_mid(&v[..4]), 2);
    assert_eq!(get_mid(&v), 2);
}

#[test]
fn abs_diff_distances() {
    assert_eq!(AbsDiff.distance(&-1, &4), 5);
    assert_eq!(AbsDiff.distance(&4, &-1), 5);
    assert_eq!(AbsDiff.distance(&3, &3), 0);
    assert_eq!(AbsDiff.distance(&i32::MIN, &i32::MAX), 4294967295);
    assert_eq!(AbsDiff.distance(&i32::MAX, &i32::MIN), 4294967295);
}

#[test]
fn circles_compare_by_radius() {
    let a = 1;
    let b = 2;
    let mut x = Circle::new(&a);
    let mut y = Circle::new(&b);
    assert_eq!(x.radius, 0);
    assert!(x == y);
    x.radius = 3;
    y.radius = 5;
    assert!(x < y);
    assert!(x <= y);
    assert!(y > x);
    assert!(x != y);
    assert_eq!(x.partial_cmp(&y), Some(std::cmp::Ordering::Less));
    assert_eq!(y.partial_cmp(&x), Some(std::cmp::Ordering::Greater));
    y.radius = 3;
    assert_eq!(x.partial_cmp(&y), Some(std::cmp::Ordering::Equal));
}

#[test]
fn search_never_reports_a_far_object() {
    for _ in 0..200 {
        let n = fastrand::usize(0..40);
        let vec: Vec<i32> = (0..n).map(|_| fastrand::i32(-15..15)).collect();
        let target = fastrand::i32(-20..20);
        let eps = fastrand::i64(-3..12);
        let vpt = build(&vec, AbsDiff);
        let got = search(&vpt, &target, eps);
        for x in &got {
            assert!(AbsDiff.distance(x, &target) <= eps);
        }
        if eps < 0 {
            assert!(got.is_empty());
        }
        let h1: HashSet<&i32> = HashSet::from_iter(search_naive(&vec, &AbsDiff, &target, eps));
        let h2: HashSet<&i32> = HashSet::from_iter(got);
        assert!(h2.is_subset(&h1));
        for missed in h1.difference(&h2) {
            assert_eq!(AbsDiff.distance(missed, &target), eps);
        }
    }
}

#[test]
fn search_equals_the_scan_when_nothing_lies_at_the_radius() {
    let mut compared = 0;
    for _ in 0..400 {
        let n = fastrand::usize(0..40);
        let vec: Vec<i32> = (0..n).map(|_| 2 * fastrand::i32(-15..15)).collect();
        let target = 2 * fastrand::i32(-20..20);
        let eps = 2 * fastrand::i64(-2..12) + 1;
        let vpt = build(&vec, AbsDiff);
        let v1 = search_naive(&vec, &AbsDiff, &target, eps);
        let v2 = search(&vpt, &target, eps);
        assert_eq!(v1.len(), v2.len());
        let h1: HashSet<&i32> = HashSet::from_iter(v1);
        let h2: HashSet<&i32> = HashSet::from_iter(v2);
        assert!(h1 == h2);
        compared += 1;
    }
    assert_eq!(compared, 400);
}

#[test]
fn search_with_large_values() {
    let vec = vec![i32::MIN, -1, 0, 1, i32::MAX];
    let vpt = build(&vec, AbsDiff);
    assert!(check_vptree(&vpt));
    assert_eq!(values(search(&vpt, &0, Scalar::MAX)), sorted(&vec));
    assert_eq!(values(search(&vpt, &i32::MAX, 4294967295)), sorted(&vec));
    assert_eq!(values(search(&vpt, &i32::MAX, 4294967293)), vec![-1, 0, 1, i32::MAX]);
    assert!(search(&vpt, &0, Scalar::MIN).is_empty());
}

#[test]
fn search_at_the_boundary_of_a_near_member() {
    let vec = vec![0, 2, -2];
    for _ in 0..60 {
        let vpt = build(&vec, AbsDiff);
        let got = values(search(&vpt, &3, 1));
        let near_is_two = *vpt.center(0) == 0 && *vpt.center(1) == 2;
        if near_is_two {
            assert_eq!(vpt.radius(0), 2);
            assert_eq!(got, Vec::<i32>::new());
        } else {
            assert_eq!(got, vec![2]);
        }
        assert_eq!(values(search(&vpt, &3, 2)), vec![2]);
    }
}

#[test]
fn flat_metric_keeps_objects_at_distance_zero() {
    let vec = vec![4, 4, 9, -1, 4];
    let vpt = build(&vec, FnMetric::new(flat));
    assert_eq!(vpt.len(), 5);
    assert_eq!(objects_of(&vpt), vec![-1, 4, 4, 4, 9]);
    assert!(check_vptree(&vpt));
    assert_eq!(values(search(&vpt, &100, 1)), vec![-1, 4, 4, 4, 9]);
    assert!(search(&vpt, &100, -1).is_empty());
}

#[test]
fn function_metric_agrees_with_the_stock_metric() {
    let by_fn = FnMetric::new(absdist);
    for _ in 0..100 {
        let a = fastrand::i32(..);
        let b = fastrand::i32(..);
        assert_eq!(by_fn.distance(&a, &b), AbsDiff.distance(&a, &b));
    }
    let taxi = FnMetric::new(|p: &(i32, i32), q: &(i32, i32)| -> Scalar {
        (p.0 as Scalar - q.0 as Scalar).abs() + (p.1 as Scalar - q.1 as Scalar).abs()
    });
    let points = vec![(0, 0), (3, 4), (-2, 1), (10, 10), (1, 1)];
    let vpt = build(&points, taxi);
    assert_eq!(vpt.len(), 5);
    let mut got: Vec<(i32, i32)> = search(&vpt, &(0, 0), 4).into_iter().copied().collect();
    got.sort();
    assert_eq!(got, vec![(-2, 1), (0, 0), (1, 1)]);
}

#[test]
fn duplicates_are_reported_as_often_as_indexed() {
    let vec = vec![6, 6, 6, 1];
    for _ in 0..20 {
        let vpt = build(&vec, AbsDiff);
        assert_eq!(values(search(&vpt, &6, 3)), vec![6, 6, 6]);
        assert_eq!(values(search(&vpt, &1, 3)), vec![1]);
    }
}
