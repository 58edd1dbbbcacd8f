use order_stat::quickselect::{partition, select};
use quickcheck::TestResult;
use rand::{Rng, XorShiftRng};

fn run_quickselect(mut x: Vec<i32>, k: usize) -> TestResult {
    if k >= x.len() {
        return TestResult::discard();
    }

    select(&mut x, k);
    let element = x[k];
    x.sort();
    TestResult::from_bool(element == x[k])
}

#[test]
fn quickselect_qc() {
    let property: fn(Vec<i32>, usize) -> TestResult = run_quickselect;
    quickcheck::quickcheck(property)
}

#[test]
fn quickselect_smoke() {
    for k in 0..4 {
        let mut array = [2, 3, 0, 1];
        select(&mut array, k);
        assert_eq!(array[k], k);
    }
}

#[test]
fn quickselect_huge() {
    let mut rng = XorShiftRng::new_unseeded();
    for _ in 0..20 {
        let length = rng.gen_range(2_000, 10_000);
        let v: Vec<_> = rng.gen_iter::<i32>().take(length).collect();
        for _ in 0..10 {
            let mut w = v.clone();
            select(&mut w, rng.gen_range(0, length));
        }
    }
}

#[test]
fn quickselect_sorts_fewer_than_five() {
    let mut v: [i32; 0] = [];
    select(&mut v, 0);
    let mut v = [3, 1, 2, 0];
    select(&mut v, 2);
    assert_eq!(v, [0, 1, 2, 3]);
    let mut v = [1, 1, 0];
    select(&mut v, 0);
    assert_eq!(v, [0, 1, 1]);
}

#[test]
fn quickselect_matches_sorting() {
    let mut rng = XorShiftRng::new_unseeded();
    for length in 1..80 {
        let v: Vec<i32> = rng.gen_iter::<i32>().take(length).map(|x| x % 30).collect();
        let mut sorted = v.clone();
        sorted.sort();
        for k in 0..length {
            let mut w = v.clone();
            select(&mut w, k);
            assert_eq!(w[k], sorted[k]);
            assert!(w[..k].iter().all(|a| *a <= w[k]));
            assert!(w[k + 1..].iter().all(|b| w[k] <= *b));
            w.sort();
            assert_eq!(w, sorted);
        }
    }
}

#[test]
fn quickselect_beyond_the_end_keeps_the_elements() {
    let mut v = vec![5, 3, 8, 1, 9, 2, 7];
    select(&mut v, 100);
    v.sort();
    assert_eq!(v, vec![1, 2, 3, 5, 7, 8, 9]);
}

#[test]
fn quickselect_all_equal() {
    let mut v = vec![4; 50];
    select(&mut v, 25);
    assert_eq!(v, vec![4; 50]);
}

#[test]
fn partition_around_the_first() {
    let mut v = [5, 9, 1, 7, 3, 8, 2];
    let pivot = partition(&mut v);
    assert_eq!(pivot, 3);
    assert_eq!(v[pivot], 5);
    assert!(v[..pivot].iter().all(|a| *a <= 5));
    assert!(v[pivot + 1..].iter().all(|b| *b >= 5));
    let mut sorted = v;
    sorted.sort();
    assert_eq!(sorted, [1, 2, 3, 5, 7, 8, 9]);
}

#[test]
fn partition_of_one_and_of_equals() {
    let mut v = [6];
    assert_eq!(partition(&mut v), 0);
    let mut v = [6, 6, 6, 6];
    let pivot = partition(&mut v);
    assert!(pivot < 4);
    assert_eq!(v, [6, 6, 6, 6]);
    let mut v = [1, 2, 3];
    assert_eq!(partition(&mut v), 0);
    let mut v = [3, 2, 1];
    assert_eq!(partition(&mut v), 2);
    assert_eq!(v[2], 3);
}
