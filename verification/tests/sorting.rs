use split_sort::sorting_algos::bubblesort::BubbleSort;
use split_sort::sorting_algos::sorter::Sorter;
use split_sort::sorting_algos::sorter::StdSorter;

#[test]
fn even() {
    let mut nums = vec![4, 3, 2, 1];
    BubbleSort.sort(&mut nums);
    assert_eq!(nums, &[1, 2, 3, 4]);
}

#[test]
fn odd() {
    let mut nums = vec![4, 3, 5, 2, 1];
    BubbleSort.sort(&mut nums);
    assert_eq!(nums, &[1, 2, 3, 4, 5]);
}

#[test]
fn std_works() {
    let mut things = vec![4, 3, 2, 1];
    StdSorter.sort(&mut things);
    assert_eq!(things, &[1, 2, 3, 4]);
}
