use data_structures::queue::Queue;

#[test]
fn test() {
    let mut q = Queue::new();

    q.push('*');
    assert_eq!(q.pop(), Some('*'));
    assert_eq!(q.pop(), None);

    q.push('0');
    q.push('1');
    assert_eq!(q.pop(), Some('0'));

    q.push('∞');
    assert_eq!(q.pop(), Some('1'));
    assert_eq!(q.pop(), Some('∞'));
    assert_eq!(q.pop(), None);

    assert!(q.is_empty());
    q.push('☉');
    assert!(!q.is_empty());
    q.pop();
    assert!(q.is_empty());

    let mut q = Queue::new();

    q.push('P');
    q.push('D');
    assert_eq!(q.pop(), Some('P'));
    q.push('X');

    assert_eq!(q.split(), (vec!['D'], vec!['X']));
}

#[test]
fn test_generic() {
    let mut q = Queue::<char>::new();
    let _ = &mut q;
    drop(q);

    let mut q = Queue::new();
    let mut r = Queue::new();

    q.push("CAD");
    r.push(0.74);

    q.push("BTC");
    r.push(2737.7);

    assert_eq!(q.pop(), Some("CAD"));
    assert_eq!(r.pop(), Some(0.74));
}

#[test]
fn queue_keeps_the_order_of_arrival() {
    let mut q = Queue::new();
    for i in 0..10 {
        q.push(i);
    }
    for i in 0..5 {
        assert_eq!(q.pop(), Some(i));
    }
    for i in 10..15 {
        q.push(i);
    }
    for i in 5..15 {
        assert_eq!(q.pop(), Some(i));
    }
    assert_eq!(q.pop(), None);
    assert!(q.is_empty());
}

#[test]
fn queue_turns_the_newer_elements_over() {
    // Were the elements not reversed when they are turned over, 3 would
    // leave first.
    let mut q = Queue::new();
    q.push(1);
    q.push(2);
    q.push(3);
    assert_eq!(q.pop(), Some(1));
    assert_eq!(q.split(), (vec![3, 2], vec![]));
}

#[test]
fn queue_split_of_a_new_queue() {
    let q = Queue::<u8>::new();
    assert!(q.is_empty());
    assert_eq!(q.split(), (vec![], vec![]));
}
