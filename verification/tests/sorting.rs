use computational_fundamentals::time_aware::AnytimeQuicksort;
use rand::Rng;

#[test]
fn test_verify_time_bounds() {
    let mut rng = rand::thread_rng();
    let mut arr: Vec<i32> = (0..1000).map(|_| rng.gen_range(0..10000)).collect();

    let mut sorter = AnytimeQuicksort::new(0); // 1 nanosecond deadline
    sorter.sort(&mut arr);
    let is_sorted = arr.windows(2).all(|w| w[0] <= w[1]);
    assert!(!is_sorted, "The array should not be fully sorted with a 1ns deadline");
}

#[test]
fn zero_deadline_leaves_the_slice_alone() {
    let mut arr = vec![5, 3, 9, 1, 1, -4];
    let mut sorter = AnytimeQuicksort::new(0);
    assert!(!sorter.sort(&mut arr));
    assert_eq!(arr, vec![5, 3, 9, 1, 1, -4]);
}

#[test]
fn generous_deadline_sorts() {
    let mut arr = vec![5, 3, 9, 1, 1, -4, i32::MAX, i32::MIN, 0];
    let mut sorter = AnytimeQuicksort::new(3_600_000);
    assert!(sorter.sort(&mut arr));
    assert_eq!(arr, vec![i32::MIN, -4, 0, 1, 1, 3, 5, 9, i32::MAX]);
    let mut empty: Vec<i32> = Vec::new();
    assert!(sorter.sort(&mut empty));
    let mut one = vec![7];
    assert!(sorter.sort(&mut one));
    assert_eq!(one, vec![7]);
}

#[test]
fn elements_are_kept_whatever_the_deadline() {
    let mut rng = rand::thread_rng();
    for deadline in [0u64, 1, 1000] {
        let given: Vec<i32> = (0..2000).map(|_| rng.gen_range(-50..50)).collect();
        let mut arr = given.clone();
        let mut sorter = AnytimeQuicksort::new(deadline);
        let completed = sorter.sort(&mut arr);
        let mut expected = given.clone();
        expected.sort();
        if completed {
            assert_eq!(arr, expected);
        }
        arr.sort();
        assert_eq!(arr, expected);
    }
}
