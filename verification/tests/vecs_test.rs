use data_structures::vecs::{reverse, swap};

#[test]
fn swap_changes_two_places() {
    let mut v = vec!["a", "b", "c", "d"];
    swap(&mut v, 0, 3);
    assert_eq!(v, ["d", "b", "c", "a"]);
    swap(&mut v, 2, 1);
    assert_eq!(v, ["d", "c", "b", "a"]);
    swap(&mut v, 1, 1);
    assert_eq!(v, ["d", "c", "b", "a"]);
}

#[test]
fn reverse_turns_the_order_round() {
    let mut v: Vec<u8> = vec![];
    reverse(&mut v);
    assert_eq!(v, Vec::<u8>::new());
    let mut v = vec![1];
    reverse(&mut v);
    assert_eq!(v, [1]);
    let mut v = vec![1, 2, 3, 4];
    reverse(&mut v);
    assert_eq!(v, [4, 3, 2, 1]);
    let mut v = vec![1, 2, 3, 4, 5];
    reverse(&mut v);
    assert_eq!(v, [5, 4, 3, 2, 1]);
}
