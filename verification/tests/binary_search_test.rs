use data_structures::binary_search::BinarySearch;

#[test]
fn unsorted_vector_should_return_none() {
    let input = vec![18, 23, 9, 1, 10, 4];

    assert_eq!(input.binary_search(4), None);
}

#[test]
fn should_correctly_find_element() {
    let input = vec![1, 2, 3, 4, 5, 6, 7, 8, 9, 10];

    assert_eq!(input.binary_search(4), Some(&4));
}

#[test]
fn should_return_none_when_target_does_not_exist() {
    let input = vec![1, 2, 3, 4, 5, 6, 7, 8, 9, 10];

    assert_eq!(input.binary_search(11), None);
}

#[test]
fn binary_search_below_the_first_element() {
    let input = vec![1, 2, 3];
    assert_eq!(input.binary_search(0), None);
}

#[test]
fn binary_search_in_an_empty_vector() {
    let input: Vec<i32> = vec![];
    assert_eq!(input.binary_search(7), None);
    assert!(BinarySearch::is_sorted(&input));
}

#[test]
fn binary_search_finds_every_element() {
    let input: Vec<u32> = (0..50).map(|i| i * 3).collect();
    for i in 0..150u32 {
        if i % 3 == 0 {
            assert_eq!(input.binary_search(i), Some(&i));
        } else {
            assert_eq!(input.binary_search(i), None);
        }
    }
}

#[test]
fn is_sorted_allows_equal_neighbours() {
    assert!(BinarySearch::is_sorted(&vec![1, 1, 2, 2, 3]));
    assert!(!BinarySearch::is_sorted(&vec![1, 3, 2]));
    assert_eq!(vec![1, 1, 2, 2, 3].binary_search(2), Some(&2));
}
