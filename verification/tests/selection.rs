use vptree::utils::partition;
use vptree::utils::quick_select;

fn generate(n: usize) -> Vec<i32> {
    let mut vec: Vec<i32> = Vec::with_capacity(n);
    for _ in 0..n {
        vec.push(fastrand::i32(0..((n / 2) as i32)))
    }
    vec
}

fn sorted(v: &[i32]) -> Vec<i32> {
    let mut s = v.to_vec();
    s.sort();
    s
}

#[test]
fn test_partition_empty() {
    let mut v: Vec<i32> = vec![];
    assert_eq!(partition(&mut v, 0), 0);
    assert_eq!(partition(&mut v, 1), 0);
    assert_eq!(partition(&mut v, 2), 0);
}

#[test]
fn test_partition_singleton() {
    let mut v: Vec<i32> = vec![0];
    assert_eq!(partition(&mut v, 0), 1);
    assert_eq!(partition(&mut v, 1), 1);
    assert_eq!(partition(&mut v, 2), 1);
}

#[test]
fn test_partition_sample() {
    let mut v = vec![-1, 4, -4, 1, -2, -3];
    let k = 3;
    let val = v[k];
    let h = partition(&mut v, k);
    assert_eq!(v[h - 1], val);
    for i in 0..h {
        assert!(v[i] <= v[h - 1]);
    }
    for i in h..v.len() {
        assert!(v[i] > v[h - 1]);
    }
}

#[test]
fn test_partition_random() {
    let mut v = generate(1000);
    let k = 500;
    let val = v[k];
    let h = partition(&mut v, k);
    assert_eq!(v[h - 1], val);
    for i in 0..h {
        assert!(v[i] <= v[h - 1]);
    }
    for i in h..v.len() {
        assert!(v[i] > v[h - 1]);
    }
}

#[test]
fn test_quick_select_empty() {
    let mut v: Vec<i32> = vec![];
    quick_select(&mut v, 0);
    quick_select(&mut v, 1);
    quick_select(&mut v, 2);
}

#[test]
fn test_quick_select_singleton() {
    let mut v: Vec<i32> = vec![0];
    quick_select(&mut v, 0);
    quick_select(&mut v, 1);
    quick_select(&mut v, 2);
}

#[test]
fn test_quick_select_sample() {
    let mut v = vec![-1, 4, -4, 1, -2, -3];
    let k = 2;
    quick_select(&mut v, k);
    for i in 0..k {
        assert!(v[i] <= v[k]);
    }
    for i in k..v.len() {
        assert!(v[i] >= v[k]);
    }
}

#[test]
fn test_quick_select_random() {
    let mut v = generate(1000);
    let k = 500;
    quick_select(&mut v, k);
    for i in 0..k {
        assert!(v[i] <= v[k]);
    }
    for i in k..v.len() {
        assert!(v[i] >= v[k]);
    }
}

#[test]
fn partition_returns_the_count_of_elements_up_to_the_pivot() {
    let mut v = vec![-1, 4, -4, 1, -2, -3];
    assert_eq!(partition(&mut v, 3), 5);
    assert_eq!(v[4], 1);
    assert_eq!(v[5], 4);
    assert_eq!(sorted(&v), vec![-4, -3, -2, -1, 1, 4]);

    let mut w = vec![7, 7, 7];
    assert_eq!(partition(&mut w, 1), 3);
    assert_eq!(w, vec![7, 7, 7]);

    let mut m = vec![5, 9, 1, 8];
    assert_eq!(partition(&mut m, 2), 1);
    assert_eq!(m[0], 1);
}

#[test]
fn partition_out_of_range_moves_nothing() {
    let mut v = vec![3, 1, 2];
    assert_eq!(partition(&mut v, 3), 3);
    assert_eq!(v, vec![3, 1, 2]);
    assert_eq!(partition(&mut v, usize::MAX), 3);
    assert_eq!(v, vec![3, 1, 2]);
}

#[test]
fn quick_select_out_of_range_moves_nothing() {
    let mut e: Vec<i32> = vec![];
    quick_select(&mut e, 0);
    quick_select(&mut e, 1);
    quick_select(&mut e, 2);
    assert!(e.is_empty());

    let mut v = vec![3, 1, 2];
    quick_select(&mut v, 3);
    assert_eq!(v, vec![3, 1, 2]);
    quick_select(&mut v, usize::MAX);
    assert_eq!(v, vec![3, 1, 2]);
}

#[test]
fn quick_select_places_the_order_statistic() {
    let mut v = vec![3, 1, 2];
    quick_select(&mut v, 1);
    assert_eq!(v, vec![1, 2, 3]);

    let mut w = vec![-1, 4, -4, 1, -2, -3];
    quick_select(&mut w, 2);
    assert_eq!(w[2], -2);
    assert_eq!(sorted(&w), vec![-4, -3, -2, -1, 1, 4]);

    let mut first = vec![9, 8, 7, 6, 5];
    quick_select(&mut first, 0);
    assert_eq!(first[0], 5);

    let mut last = vec![9, 8, 7, 6, 5];
    quick_select(&mut last, 4);
    assert_eq!(last[4], 9);
}

#[test]
fn quick_select_agrees_with_sorting_at_every_rank() {
    for round in 0..40 {
        let n = 1 + fastrand::usize(0..60);
        let base: Vec<i32> = (0..n).map(|_| fastrand::i32(-8..8)).collect();
        let expected = sorted(&base);
        let k = round % n;
        let mut v = base.clone();
        quick_select(&mut v, k);
        assert_eq!(v[k], expected[k]);
        assert_eq!(sorted(&v), expected);
        for i in 0..k {
            assert!(v[i] <= v[k]);
        }
        for i in k..n {
            assert!(v[i] >= v[k]);
        }
    }
}

#[test]
fn quick_select_on_sorted_and_reversed_input() {
    let n = 300;
    let mut up: Vec<i32> = (0..n).collect();
    quick_select(&mut up, 150);
    assert_eq!(up[150], 150);
    let mut down: Vec<i32> = (0..n).rev().collect();
    quick_select(&mut down, 17);
    assert_eq!(down[17], 17);
}
