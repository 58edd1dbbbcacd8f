use order_stat::mom::{median5, median_of_medians_with};
use order_stat::{median_of_medians, median_of_medians_by};
use quickcheck::TestResult;
use rand::{Rng, XorShiftRng};
use std::cmp;

// The bound tested here is not promised for the lengths that end in 7: of
// 0, 1, 2, 3, 4, 5, 6 in this order the approximate median is 6.
fn run_median(mut x: Vec<i32>) -> TestResult {
    if x.is_empty() || x.len() % 10 == 7 {
        return TestResult::discard();
    }

    let (_, &mut median) = median_of_medians(&mut x);
    x.sort();

    let thirty = x.len() * 3 / 10;
    let seventy = cmp::min((x.len() * 7 + 9) / 10, x.len() - 1);
    TestResult::from_bool(x[thirty] <= median && median <= x[seventy])
}

#[test]
fn mom_qc() {
    let property: fn(Vec<i32>) -> TestResult = run_median;
    quickcheck::quickcheck(property)
}

#[test]
fn mom_smoke() {
    let mut x = (0..101).rev().collect::<Vec<_>>();
    let (_, &mut median) = median_of_medians(&mut x);
    assert!(30 <= median);
    assert!(median <= 70);
}

#[test]
fn include_trailing() {
    // there was a bug with this vector of length 14 (!== 0 (mod
    // 5)).
    let mut v = [0, 0, 0, 0, 0, 0, 0, 1, 1, 1, 0, 0, 0, 0];
    assert_eq!(*median_of_medians(&mut v).1, 0)
}

fn below(n: usize) -> usize {
    if n < 5 {
        n / 2 + 1
    } else {
        let groups = (n + 4) / 5;
        let short = if n % 5 == 0 { 0 } else { 2 - (n % 5) / 2 };
        3 * (groups / 2 + 1) - short
    }
}

fn above(n: usize) -> usize {
    if n < 5 {
        n - n / 2
    } else {
        let groups = (n + 4) / 5;
        let short = if n % 5 == 0 { 0 } else { 3 - (n % 5 - (n % 5) / 2) };
        3 * (groups - groups / 2) - short
    }
}

#[test]
fn guaranteed_shares_by_hand() {
    assert_eq!((below(1), above(1)), (1, 1));
    assert_eq!((below(4), above(4)), (3, 2));
    assert_eq!((below(5), above(5)), (3, 3));
    assert_eq!((below(6), above(6)), (4, 1));
    assert_eq!((below(7), above(7)), (5, 1));
    assert_eq!((below(10), above(10)), (6, 3));
    assert_eq!((below(14), above(14)), (6, 5));
    assert_eq!((below(101), above(101)), (31, 31));
}

#[test]
fn median_has_its_share_on_either_side() {
    let mut rng = XorShiftRng::new_unseeded();
    for length in 1..120 {
        for _ in 0..20 {
            let v: Vec<i32> = rng.gen_iter::<i32>().take(length).map(|x| x % 1000).collect();
            let mut w = v.clone();
            let (idx, &mut median) = median_of_medians(&mut w);
            assert_eq!(idx, if length < 5 { length / 2 } else { (length + 4) / 5 / 2 });
            assert_eq!(w[idx], median);
            let not_greater = v.iter().filter(|x| **x <= median).count();
            let not_less = v.iter().filter(|x| **x >= median).count();
            assert!(not_greater >= below(length));
            assert!(not_less >= above(length));
            let mut sorted = v.clone();
            sorted.sort();
            w.sort();
            assert_eq!(w, sorted);
        }
    }
}

#[test]
fn median_within_percentiles() {
    let mut rng = XorShiftRng::new_unseeded();
    for length in 1..200 {
        if length % 10 >= 6 {
            continue;
        }
        for _ in 0..20 {
            let mut v: Vec<i32> = rng.gen_iter::<i32>().take(length).collect();
            let (_, &mut median) = median_of_medians(&mut v);
            v.sort();
            let thirty = 3 * (length - 1) / 10;
            let seventy = cmp::min((7 * (length - 1) + 9) / 10, length - 1);
            assert!(v[thirty] <= median);
            assert!(median <= v[seventy]);
        }
    }
}

#[test]
fn median_of_six_in_order_is_the_last() {
    let mut v = [0, 1, 2, 3, 4, 5];
    let (idx, &mut median) = median_of_medians(&mut v);
    assert_eq!((idx, median), (1, 5));
}

#[test]
fn median_of_few_is_exact() {
    let mut v = [7];
    assert_eq!(median_of_medians(&mut v), (0, &mut 7));
    let mut v = [7, 3];
    assert_eq!(median_of_medians(&mut v), (1, &mut 7));
    let mut v = [9, 7, 3];
    assert_eq!(median_of_medians(&mut v), (1, &mut 7));
    let mut v = [9, 7, 3, 1];
    assert_eq!(median_of_medians(&mut v), (2, &mut 7));
}

#[test]
fn median_of_five_and_of_ten() {
    let mut v = [5, 4, 3, 2, 1];
    assert_eq!(median_of_medians(&mut v), (0, &mut 3));
    let mut v = [0, 1, 2, 3, 4, 5, 6, 7, 8, 9];
    assert_eq!(median_of_medians(&mut v), (1, &mut 7));
}

#[test]
fn median_of_equal_elements() {
    for length in [1usize, 4, 5, 6, 14, 15, 16, 101] {
        let mut v = vec![8; length];
        let (_, &mut median) = median_of_medians(&mut v);
        assert_eq!(median, 8);
        assert_eq!(v, vec![8; length]);
    }
}

#[test]
fn median_by_floats() {
    let mut v = (0..101).map(|x| x as f64).rev().collect::<Vec<_>>();
    let (_, &mut median) = median_of_medians_by(&mut v, |x, y| x.partial_cmp(y).unwrap());
    assert!(30.0 <= median);
    assert!(median <= 70.0);
}

#[test]
fn median_by_field() {
    let mut v = [(4, 'a'), (1, 'b'), (3, 'c'), (2, 'd'), (0, 'e')];
    let (idx, &mut median) = median_of_medians_by(&mut v, |x, y| x.0.cmp(&y.0));
    assert_eq!((idx, median), (0, (2, 'd')));
}

#[test]
fn median_with_any_estimate() {
    let v: Vec<i32> = (0..5000).map(|x| (x * 7919) % 5003).collect();
    let mut plain = v.clone();
    let expected = *median_of_medians(&mut plain).1;
    let mut w = v.clone();
    let (idx, &mut median) = median_of_medians_with(&mut w, Ord::cmp, |l, r, k| {
        (k.saturating_sub(40).max(l), (k + 40).min(r))
    });
    assert_eq!(idx, 500);
    assert_eq!(median, expected);
}

#[test]
fn median5_finds_the_middle() {
    let mut compare = |a: &i32, b: &i32| a.cmp(b);
    assert_eq!(median5(&[0, 1, 2, 3, 4], &mut compare), 2);
    assert_eq!(median5(&[4, 3, 2, 1, 0], &mut compare), 2);
    assert_eq!(median5(&[2, 0, 1, 4, 3], &mut compare), 0);
    assert_eq!(median5(&[9, 8, 5, 7, 6], &mut compare), 3);
    assert_eq!(median5(&[1, 5, 2, 4, 3], &mut compare), 4);
    assert_eq!(median5(&[3, 3, 3, 3, 3], &mut compare), 2);
}

#[test]
fn median5_of_every_arrangement() {
    let mut compare = |a: &i32, b: &i32| a.cmp(b);
    let mut seen = 0;
    for a in 0..5 {
        for b in 0..5 {
            for c in 0..5 {
                for d in 0..5 {
                    for e in 0..5 {
                        let v = [a, b, c, d, e];
                        let mut sorted = v;
                        sorted.sort();
                        let at = median5(&v, &mut compare);
                        assert_eq!(v[at], sorted[2]);
                        seen += 1;
                    }
                }
            }
        }
    }
    assert_eq!(seen, 3125);
}

#[test]
fn median_of_elements_without_size() {
    let mut v = [(); 14];
    let (idx, _) = median_of_medians(&mut v);
    assert_eq!(idx, 1);
    let mut compare = |a: &(), b: &()| a.cmp(b);
    assert!(median5(&[(); 5], &mut compare) < 5);
}

#[test]
fn median5_compares_nine_times() {
    let mut calls = 0;
    let mut compare = |a: &i32, b: &i32| {
        calls += 1;
        a.cmp(b)
    };
    median5(&[4, 0, 3, 1, 2], &mut compare);
    assert_eq!(calls, 9);
}
