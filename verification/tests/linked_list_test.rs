use data_structures::linked_list::{List, NULL};

#[test]
fn basics() {
    let mut list = List::new();

    assert_eq!(list.pop_front(), None);

    list.push_front(1);
    list.push_front(2);
    list.push_front(3);

    assert_eq!(list.pop_front(), Some(3));
    assert_eq!(list.pop_front(), Some(2));

    list.push_front(4);
    list.push_front(5);

    assert_eq!(list.pop_front(), Some(5));
    assert_eq!(list.pop_front(), Some(4));

    assert_eq!(list.pop_front(), Some(1));
    assert_eq!(list.pop_front(), None);

    assert_eq!(list.pop_back(), None);

    list.push_back(1);
    list.push_back(2);
    list.push_back(3);

    assert_eq!(list.pop_back(), Some(3));
    assert_eq!(list.pop_back(), Some(2));

    list.push_back(4);
    list.push_back(5);

    assert_eq!(list.pop_back(), Some(5));
    assert_eq!(list.pop_back(), Some(4));

    assert_eq!(list.pop_back(), Some(1));
    assert_eq!(list.pop_back(), None);
}

#[test]
fn test_peek() {
    let mut list = List::new();
    assert_eq!(list.peek_front(), None);
    assert_eq!(list.peek_back(), None);

    list.push_front(1);
    list.push_front(2);
    list.push_front(3);

    assert_eq!(&*list.peek_front().unwrap(), &3);
    assert_eq!(&*list.peek_back().unwrap(), &1);
}

#[test]
fn test_into_iter() {
    let mut list = List::new();

    list.push_front(1);
    list.push_front(2);
    list.push_front(3);

    let mut iter = list.into_iter();
    assert_eq!(iter.next(), Some(3));
    assert_eq!(iter.next_back(), Some(1));
    assert_eq!(iter.next(), Some(2));
    assert_eq!(iter.next_back(), None);
    assert_eq!(iter.next(), None);
}

#[test]
fn list_remove_by_key() {
    let mut list = List::new();
    let a = list.push_back("a");
    let b = list.push_back("b");
    let c = list.push_back("c");
    let d = list.push_front("d");
    assert_eq!(list.len(), 4);
    assert!(list.contains_key(b));
    assert_eq!(list.remove(b), "b");
    assert!(!list.contains_key(b));
    assert_eq!(list.len(), 3);
    assert_eq!(list.remove(d), "d");
    assert_eq!(list.peek_front(), Some(&"a"));
    assert_eq!(list.remove(c), "c");
    assert_eq!(list.peek_back(), Some(&"a"));
    assert_eq!(list.remove(a), "a");
    assert_eq!(list.len(), 0);
    assert_eq!(list.peek_front(), None);
    assert_eq!(list.pop_back(), None);
}

#[test]
fn list_keys_differ_and_are_given_again() {
    let mut list = List::new();
    let a = list.push_back(10);
    let b = list.push_back(20);
    assert!(a != b && a != NULL && b != NULL);
    assert_eq!(list.pop_front(), Some(10));
    // the key of the node that left is free for the next
    let c = list.push_back(30);
    assert!(c != b);
    assert!(list.contains_key(c));
    assert_eq!(list.pop_front(), Some(20));
    assert_eq!(list.pop_front(), Some(30));
    assert!(!list.contains_key(c));
}

#[test]
fn list_keeps_the_order_of_both_ends() {
    let mut list = List::new();
    for i in 0..50 {
        if i % 2 == 0 {
            list.push_back(i);
        } else {
            list.push_front(i);
        }
    }
    assert_eq!(list.len(), 50);
    let mut front = Vec::new();
    let mut iter = list.into_iter();
    while let Some(v) = iter.next() {
        front.push(v);
    }
    let mut expected: Vec<i32> = (0..50).filter(|i| i % 2 == 1).rev().collect();
    expected.extend((0..50).filter(|i| i % 2 == 0));
    assert_eq!(front, expected);
}
