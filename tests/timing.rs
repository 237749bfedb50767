use quack::timing::{median, sort_ascending};

#[test]
fn median_of_odd_count() {
    assert_eq!(median(&vec![5, 1, 9]), 5);
    assert_eq!(median(&vec![7]), 7);
}

#[test]
fn median_of_even_count() {
    assert_eq!(median(&vec![4, 1, 3, 2]), 2);
    assert_eq!(median(&vec![10, 20]), 15);
    assert_eq!(median(&vec![u64::MAX, u64::MAX]), u64::MAX);
}

#[test]
fn sorting_keeps_duplicates() {
    assert_eq!(sort_ascending(&vec![3, 1, 3, 2, 1]), vec![1, 1, 2, 3, 3]);
    assert_eq!(sort_ascending(&vec![]), Vec::<u64>::new());
}
