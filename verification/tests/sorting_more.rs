use split_sort::sorting_algos::bubblesort::BubbleSort;
use split_sort::sorting_algos::sorter::Sorter;
use split_sort::sorting_algos::sorter::StdSorter;

fn is_ascending<T: Ord>(items: &[T]) -> bool {
    items.windows(2).all(|pair| pair[0] <= pair[1])
}

fn samples() -> Vec<Vec<i64>> {
    vec![
        vec![],
        vec![7],
        vec![2, 1],
        vec![1, 2],
        vec![3, 3, 3],
        vec![5, -1, 4, -1, 0, 9, 5],
        vec![9, 8, 7, 6, 5, 4, 3, 2, 1, 0],
        vec![0, 1, 2, 3, 4, 5, 6, 7, 8, 9],
        vec![i64::MAX, i64::MIN, 0],
    ]
}

fn counts(items: &[i64], value: i64) -> usize {
    items.iter().filter(|item| **item == value).count()
}

#[test]
fn bubble_sort_gives_an_ascending_permutation() {
    for input in samples() {
        let mut sorted = input.clone();
        BubbleSort.sort(&mut sorted);
        assert!(is_ascending(&sorted));
        assert_eq!(sorted.len(), input.len());
        for value in &input {
            assert_eq!(counts(&sorted, *value), counts(&input, *value));
        }
    }
}

#[test]
fn std_sorter_gives_an_ascending_permutation() {
    for input in samples() {
        let mut sorted = input.clone();
        StdSorter.sort(&mut sorted);
        assert!(is_ascending(&sorted));
        assert_eq!(sorted.len(), input.len());
        for value in &input {
            assert_eq!(counts(&sorted, *value), counts(&input, *value));
        }
    }
}

#[test]
fn sorters_agree() {
    for input in samples() {
        let mut bubbled = input.clone();
        let mut standard = input.clone();
        BubbleSort.sort(&mut bubbled);
        StdSorter.sort(&mut standard);
        assert_eq!(bubbled, standard);
    }
}

#[test]
fn sorting_exact_values() {
    let mut nums = vec![5, -1, 4, -1, 0, 9, 5];
    BubbleSort.sort(&mut nums);
    assert_eq!(nums, vec![-1, -1, 0, 4, 5, 5, 9]);
    let mut nums = vec![5, -1, 4, -1, 0, 9, 5];
    StdSorter.sort(&mut nums);
    assert_eq!(nums, vec![-1, -1, 0, 4, 5, 5, 9]);
}

#[test]
fn sorting_sorted_input_changes_nothing() {
    let mut nums = vec![1, 2, 2, 3, 10];
    BubbleSort.sort(&mut nums);
    assert_eq!(nums, vec![1, 2, 2, 3, 10]);
    StdSorter.sort(&mut nums);
    assert_eq!(nums, vec![1, 2, 2, 3, 10]);
}

#[test]
fn sorting_empty_and_single_element_slices_changes_nothing() {
    let mut none: Vec<u8> = vec![];
    BubbleSort.sort(&mut none);
    assert_eq!(none, Vec::<u8>::new());
    StdSorter.sort(&mut none);
    assert_eq!(none, Vec::<u8>::new());
    let mut one = vec![42u8];
    BubbleSort.sort(&mut one);
    assert_eq!(one, vec![42]);
    StdSorter.sort(&mut one);
    assert_eq!(one, vec![42]);
}

#[test]
fn sorting_twice_equals_sorting_once() {
    for input in samples() {
        let mut once = input.clone();
        BubbleSort.sort(&mut once);
        let mut twice = once.clone();
        BubbleSort.sort(&mut twice);
        assert_eq!(twice, once);
        StdSorter.sort(&mut twice);
        assert_eq!(twice, once);
    }
}

#[test]
fn sorting_other_element_types() {
    let mut words = vec!["pear", "apple", "fig", "apple"];
    BubbleSort.sort(&mut words);
    assert_eq!(words, vec!["apple", "apple", "fig", "pear"]);
    let mut pairs = vec![(2, 'b'), (1, 'z'), (2, 'a')];
    BubbleSort.sort(&mut pairs);
    assert_eq!(pairs, vec![(1, 'z'), (2, 'a'), (2, 'b')]);
    let mut owned = vec![String::from("b"), String::from("a")];
    StdSorter.sort(&mut owned);
    assert_eq!(owned, vec![String::from("a"), String::from("b")]);
}

#[test]
fn sorting_a_part_of_a_vector_leaves_the_rest() {
    let mut nums = vec![9, 3, 2, 1, 0];
    BubbleSort.sort(&mut nums[1..4]);
    assert_eq!(nums, vec![9, 1, 2, 3, 0]);
}
