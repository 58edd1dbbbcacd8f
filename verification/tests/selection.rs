use order_stat::floyd_rivest::{select, select_with};
use order_stat::{kth, kth_by};
use quickcheck::TestResult;
use rand::{Rng, XorShiftRng};

fn run_select(mut x: Vec<i32>, k: usize) -> TestResult {
    if k >= x.len() {
        return TestResult::discard();
    }

    select(&mut x, k, Ord::cmp);
    let element = x[k];
    x.sort();
    TestResult::from_bool(element == x[k])
}

#[test]
fn floyd_rivest_qc() {
    let property: fn(Vec<i32>, usize) -> TestResult = run_select;
    quickcheck::quickcheck(property)
}

#[test]
fn floyd_rivest_smoke() {
    for k in 0..4 {
        let mut array = [2, 3, 0, 1];
        select(&mut array, k, Ord::cmp);
        assert_eq!(array[k], k);
    }
}

#[test]
fn floyd_rivest_huge() {
    let mut rng = XorShiftRng::new_unseeded();
    for _ in 0..20 {
        let length = rng.gen_range(2_000, 10_000);
        let v: Vec<_> = rng.gen_iter::<i32>().take(length).collect();
        for _ in 0..10 {
            let mut w = v.clone();
            select(&mut w, rng.gen_range(0, length), Ord::cmp);
        }
    }
}

/// The estimate of Floyd and Rivest for the sub-range that holds the `k`-th
/// element of `left..=right`, in single precision.
fn sample_bounds(left: usize, right: usize, k: usize) -> (usize, usize) {
    let n = (right - left + 1) as f32;
    let i = (k - left + 1) as f32;
    let z = n.ln();
    let s = 0.5 * (z * (2.0 / 3.0)).exp();
    let sn = s / n;
    let sd = 0.5 * (z * s * (1.0 - sn)).sqrt() * (i - n * 0.5).signum();
    let isn = i * s / n;
    let inner = k as f32 - isn + sd;
    (inner as usize, (inner + s) as usize)
}

fn is_selected(x: &[i32], k: usize) -> bool {
    x[..k].iter().all(|a| *a <= x[k]) && x[k + 1..].iter().all(|b| x[k] <= *b)
}

#[test]
fn select_each_position_of_four() {
    let mut results = Vec::new();
    for k in 0..4 {
        let mut array = [2, 3, 0, 1];
        select(&mut array, k, Ord::cmp);
        results.push(array[k]);
    }
    assert_eq!(results, vec![0, 1, 2, 3]);
}

#[test]
fn kth_of_four() {
    let mut v = [10, 0, -10, 20];
    let kth = kth(&mut v, 2);
    assert_eq!(*kth, 10);
}

#[test]
fn kth_returns_the_place_in_the_array() {
    let mut v = [4, 1, 3, 2, 0];
    *kth(&mut v, 1) = 100;
    assert_eq!(v[1], 100);
    let mut rest = v.to_vec();
    rest.sort();
    assert_eq!(rest, vec![0, 2, 3, 4, 100]);
}

#[test]
fn kth_by_reversed_order() {
    let mut v = [4, 1, 3, 2, 0];
    let third_largest = *kth_by(&mut v, 2, |x, y| y.cmp(x));
    assert_eq!(third_largest, 2);
    assert!(v[..2].iter().all(|a| *a >= 2));
    assert!(v[3..].iter().all(|a| *a <= 2));
}

#[test]
fn kth_by_field() {
    let mut v = [(4, 'a'), (1, 'b'), (3, 'c'), (2, 'd'), (0, 'e')];
    let fourth = *kth_by(&mut v, 3, |x, y| x.0.cmp(&y.0));
    assert_eq!(fourth, (3, 'c'));
}

#[test]
fn kth_by_floats() {
    let mut v = [10.0, 0.0, -10.0, 20.0];
    let kth = kth_by(&mut v, 2, |x: &f64, y: &f64| x.partial_cmp(y).unwrap());
    assert_eq!(*kth, 10.0);
}

#[test]
fn selection_matches_sorting() {
    let mut rng = XorShiftRng::new_unseeded();
    for length in 1..60 {
        let v: Vec<i32> = rng.gen_iter::<i32>().take(length).map(|x| x % 50).collect();
        let mut sorted = v.clone();
        sorted.sort();
        for k in 0..length {
            let mut w = v.clone();
            select(&mut w, k, Ord::cmp);
            assert_eq!(w[k], sorted[k]);
            assert!(is_selected(&w, k));
            w.sort();
            assert_eq!(w, sorted);
        }
    }
}

#[test]
fn selecting_again_keeps_the_element() {
    let mut rng = XorShiftRng::new_unseeded();
    for length in 1..40 {
        let mut w: Vec<i32> = rng.gen_iter::<i32>().take(length).map(|x| x % 20).collect();
        let k = length / 3;
        select(&mut w, k, Ord::cmp);
        let first = w[k];
        select(&mut w, k, Ord::cmp);
        assert_eq!(w[k], first);
    }
}

#[test]
fn first_is_minimum_last_is_maximum() {
    let v = vec![5, -3, 9, 0, 7, 7, -8, 2];
    let mut w = v.clone();
    select(&mut w, 0, Ord::cmp);
    assert_eq!(w[0], -8);
    let mut w = v.clone();
    select(&mut w, 7, Ord::cmp);
    assert_eq!(w[7], 9);
}

#[test]
fn single_element() {
    let mut v = [42];
    select(&mut v, 0, Ord::cmp);
    assert_eq!(v, [42]);
    assert_eq!(*kth(&mut v, 0), 42);
}

#[test]
fn elements_without_size() {
    let mut v = [(); 9];
    select(&mut v, 4, Ord::cmp);
    assert_eq!(*kth(&mut v, 8), ());
}

#[test]
fn two_elements() {
    for k in 0..2 {
        let mut v = [1, 0];
        select(&mut v, k, Ord::cmp);
        assert_eq!(v, [0, 1]);
        let mut v = [0, 1];
        select(&mut v, k, Ord::cmp);
        assert_eq!(v, [0, 1]);
    }
}

#[test]
fn all_equal() {
    for length in [1usize, 2, 3, 7, 100, 1500] {
        for k in [0, length / 2, length - 1] {
            let mut v = vec![3; length];
            select(&mut v, k, Ord::cmp);
            assert_eq!(v, vec![3; length]);
        }
    }
}

#[test]
fn few_distinct_values() {
    let mut rng = XorShiftRng::new_unseeded();
    for _ in 0..50 {
        let v: Vec<i32> = rng.gen_iter::<i32>().take(300).map(|x| x & 1).collect();
        let zeros = v.iter().filter(|x| **x == 0).count();
        for k in [0, 150, 299] {
            let mut w = v.clone();
            select(&mut w, k, Ord::cmp);
            assert_eq!(w[k], if k < zeros { 0 } else { 1 });
            assert!(is_selected(&w, k));
        }
    }
}

#[test]
fn sampled_selection_matches_sorting() {
    let mut rng = XorShiftRng::new_unseeded();
    for _ in 0..10 {
        let length = rng.gen_range(2_000, 10_000);
        let v: Vec<i32> = rng.gen_iter::<i32>().take(length).collect();
        let mut sorted = v.clone();
        sorted.sort();
        for _ in 0..10 {
            let k = rng.gen_range(0, length);
            let mut w = v.clone();
            select_with(&mut w, k, Ord::cmp, sample_bounds);
            assert_eq!(w[k], sorted[k]);
            assert!(is_selected(&w, k));
            w.sort();
            assert_eq!(w, sorted);
        }
    }
}

#[test]
fn sampling_is_asked_above_the_threshold_only() {
    let mut asked = Vec::new();
    let mut v: Vec<i32> = (0..601).rev().collect();
    select_with(&mut v, 300, Ord::cmp, |l, r, k| {
        asked.push((l, r, k));
        (l, r)
    });
    assert!(asked.is_empty());
    assert_eq!(v[300], 300);

    let mut asked = Vec::new();
    let mut v: Vec<i32> = (0..602).rev().collect();
    select_with(&mut v, 300, Ord::cmp, |l, r, k| {
        asked.push((l, r, k));
        (l, r)
    });
    assert_eq!(asked[0], (0, 601, 300));
    assert_eq!(v[300], 300);
}

#[test]
fn any_estimate_gives_the_same_element() {
    let v: Vec<i32> = (0..3000).map(|x| (x * 7919) % 3001).collect();
    let mut sorted = v.clone();
    sorted.sort();
    for k in [0usize, 1, 700, 1500, 2999] {
        let mut w = v.clone();
        select_with(&mut w, k, Ord::cmp, |_, _, _| (0, 0));
        assert_eq!(w[k], sorted[k]);
        let mut w = v.clone();
        select_with(&mut w, k, Ord::cmp, |_, _, _| (usize::MAX, usize::MAX));
        assert_eq!(w[k], sorted[k]);
        let mut w = v.clone();
        select_with(&mut w, k, Ord::cmp, |_, _, _| (usize::MAX, 0));
        assert_eq!(w[k], sorted[k]);
        let mut w = v.clone();
        select_with(&mut w, k, Ord::cmp, |_, _, i| (i, i));
        assert_eq!(w[k], sorted[k]);
        let mut w = v.clone();
        select_with(&mut w, k, Ord::cmp, |l, r, i| (i.saturating_sub(10).max(l), (i + 10).min(r)));
        assert_eq!(w[k], sorted[k]);
        assert!(is_selected(&w, k));
    }
}
