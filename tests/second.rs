use rust_sort::second::sort;

#[test]
fn second_sort_u32_ascending() {
    let mut x = vec![10, 30, 11, 20, 4, 330, 21, 110];

    sort(&mut x, true);

    assert_eq!(x, vec![4, 10, 11, 20, 21, 30, 110, 330]);
}

#[test]
fn second_sort_u32_descending() {
    let mut x = vec![10, 30, 11, 20, 4, 330, 21, 110];

    sort(&mut x, false);

    assert_eq!(x, vec![330, 110, 30, 21, 20, 11, 10, 4]);
}

#[test]
fn second_sorted_input_unchanged() {
    let mut x: Vec<u32> = vec![1, 1, 2, 3, 5, 8, 13, 21];
    sort(&mut x, true);
    assert_eq!(x, vec![1, 1, 2, 3, 5, 8, 13, 21]);
}

#[test]
fn second_odd_length_is_permuted() {
    let mut x: Vec<u32> = vec![3, 1, 2];
    sort(&mut x, true);
    let mut seen = x.clone();
    seen.sort();
    assert_eq!(seen, vec![1, 2, 3]);
}
