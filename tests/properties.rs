use rust_sort::fourth::{sort_by_threshold, PARALLEL_THRESHOLD};
use rust_sort::utils::{is_sorted, is_sorted_ascending, is_sorted_descending, new_u32_vec};
use rust_sort::SortOrder::{Ascending as Asc, Descending as Desc};
use rust_sort::thread_example::sum_below;
use rust_sort::{fourth, third};

#[test]
fn rejects_lengths_that_are_not_powers_of_two() {
    for n in [3usize, 5, 6, 100] {
        let input: Vec<u32> = (0..n as u32).rev().collect();
        let mut x = input.clone();
        assert!(third::sort(&mut x, &Asc).is_err());
        assert_eq!(x, input);
        assert!(fourth::sort(&mut x, &Desc).is_err());
        assert_eq!(x, input);
        assert!(third::sort_by(&mut x, &|a: &u32, b: &u32| a.cmp(b)).is_err());
        assert_eq!(x, input);
        assert!(fourth::sort_by(&mut x, &|a: &u32, b: &u32| a.cmp(b)).is_err());
        assert_eq!(x, input);
    }
}

#[test]
fn error_names_the_length() {
    let mut x: Vec<u32> = vec![3, 2, 1];
    let err = third::sort(&mut x, &Asc).unwrap_err();
    assert!(err.contains("3"));
}

#[test]
fn empty_and_single_are_accepted() {
    let mut empty: Vec<u32> = vec![];
    assert_eq!(third::sort(&mut empty, &Asc), Ok(()));
    assert_eq!(fourth::sort(&mut empty, &Desc), Ok(()));
    assert!(empty.is_empty());
    let mut one: Vec<u32> = vec![7];
    assert_eq!(third::sort(&mut one, &Desc), Ok(()));
    assert_eq!(fourth::sort(&mut one, &Asc), Ok(()));
    assert_eq!(one, vec![7]);
}

#[test]
fn sorted_input_is_kept() {
    let sorted: Vec<u32> = vec![1, 2, 2, 3, 5, 8, 8, 13];
    let mut x = sorted.clone();
    assert_eq!(third::sort(&mut x, &Asc), Ok(()));
    assert_eq!(x, sorted);
    assert_eq!(fourth::sort(&mut x, &Asc), Ok(()));
    assert_eq!(x, sorted);
}

#[test]
fn sorting_twice_changes_nothing() {
    let mut x = new_u32_vec(256);
    assert_eq!(fourth::sort(&mut x, &Asc), Ok(()));
    let once = x.clone();
    assert_eq!(fourth::sort(&mut x, &Asc), Ok(()));
    assert_eq!(x, once);
}

#[test]
fn threshold_does_not_change_the_result() {
    // pairs compared by their first field only, so that ties are visible
    let input: Vec<(u32, u32)> = new_u32_vec(1024)
        .into_iter()
        .enumerate()
        .map(|(i, v)| (v % 16, i as u32))
        .collect();
    let by_key = |a: &(u32, u32), b: &(u32, u32)| a.0.cmp(&b.0);
    let mut sequential = input.clone();
    assert_eq!(sort_by_threshold(&mut sequential, &by_key, usize::MAX), Ok(()));
    let mut always_parallel = input.clone();
    assert_eq!(sort_by_threshold(&mut always_parallel, &by_key, 0), Ok(()));
    let mut small = input.clone();
    assert_eq!(sort_by_threshold(&mut small, &by_key, 4), Ok(()));
    let mut default = input.clone();
    assert_eq!(sort_by_threshold(&mut default, &by_key, PARALLEL_THRESHOLD), Ok(()));
    let mut engine = input.clone();
    assert_eq!(third::sort_by(&mut engine, &by_key), Ok(()));
    assert_eq!(sequential, always_parallel);
    assert_eq!(sequential, small);
    assert_eq!(sequential, default);
    assert_eq!(sequential, engine);
    assert!(sequential.windows(2).all(|w| w[0].0 <= w[1].0));
}

#[test]
fn equal_keys_are_not_exchanged() {
    let by_key = |a: &(u32, char), b: &(u32, char)| a.0.cmp(&b.0);
    let mut x = vec![(5, 'a'), (5, 'b')];
    assert_eq!(third::sort_by(&mut x, &by_key), Ok(()));
    assert_eq!(x, vec![(5, 'a'), (5, 'b')]);
    assert_eq!(fourth::sort_by(&mut x, &by_key), Ok(()));
    assert_eq!(x, vec![(5, 'a'), (5, 'b')]);
}

#[test]
fn large_sort_with_forced_tasks() {
    let mut x = new_u32_vec(65536);
    assert_eq!(sort_by_threshold(&mut x, &|a: &u32, b: &u32| a.cmp(b), 1024), Ok(()));
    assert!(is_sorted(&x, &Asc));
}

#[test]
fn sorted_checks() {
    let up: Vec<u32> = vec![1, 2, 2, 9];
    let down: Vec<u32> = vec![9, 2, 2, 1];
    assert!(is_sorted(&up, &Asc));
    assert!(!is_sorted(&up, &Desc));
    assert!(is_sorted(&down, &Desc));
    assert!(!is_sorted(&down, &Asc));
    assert!(is_sorted_ascending(&up));
    assert!(!is_sorted_ascending(&down));
    assert!(is_sorted_descending(&down));
    assert!(!is_sorted_descending(&up));
    let empty: Vec<u32> = vec![];
    assert!(is_sorted(&empty, &Asc) && is_sorted(&empty, &Desc));
    assert!(is_sorted(&[4u32], &Asc));
    assert!(!is_sorted(&[1u32, 3, 2, 4], &Asc));
}

#[test]
fn test_vectors_are_reproducible() {
    let a = new_u32_vec(1000);
    let b = new_u32_vec(1000);
    assert_eq!(a.len(), 1000);
    assert_eq!(a, b);
    assert!(a.windows(2).any(|w| w[0] != w[1]));
    assert!(new_u32_vec(0).is_empty());
}

#[test]
fn sums_below() {
    assert_eq!(sum_below(0), 0);
    assert_eq!(sum_below(1), 0);
    assert_eq!(sum_below(1000), 499500);
    assert_eq!(sum_below(1200), 719400);
}
