use data_structures::order::{rank, Rank};
use data_structures::priority_queue::{Natural, PriorityQueue};

#[test]
fn test_insert_length() {
    let mut pq = PriorityQueue::default();
    assert_eq!(pq.len(), 0);

    pq.insert(1);
    pq.insert(2);
    pq.insert(3);
    pq.insert(4);
    pq.insert(5);
    assert_eq!(pq.len(), 5);
}

#[test]
fn test_default_peek_correctness() {
    let mut pq = PriorityQueue::default();
    let values = vec![1, 2, 3, 4, 5];
    let mut expected = values.clone();
    expected.sort_by(|a, b| b.cmp(a));

    for el in values {
        pq.insert(el);
    }

    assert_eq!(pq.len(), expected.len());

    for el in expected {
        assert_eq!(el, pq.pop().unwrap());
    }

    assert_eq!(pq.len(), 0);
    assert_eq!(pq.pop(), None);
}

#[test]
fn test_custom_pop_correctness() {
    let mut pq = PriorityQueue::new_with(|a: &i64, b: &i64| rank(b, a));
    let values = vec![1, 2, 3, 4, 5];
    let mut expected = values.clone();
    expected.sort();

    for el in values {
        pq.insert(el);
    }

    assert_eq!(pq.len(), expected.len());

    for el in expected {
        assert_eq!(el, pq.pop().unwrap());
        println!("{:?}", pq.peek());
    }

    assert_eq!(pq.len(), 0);
    assert_eq!(pq.pop(), None);
}

#[test]
fn test_default_peek() {
    let mut pq = PriorityQueue::default();

    assert_eq!(pq.peek(), None);

    pq.insert(2);
    assert_eq!(pq.peek(), Some(&2));

    pq.insert(1);
    assert_eq!(pq.peek(), Some(&2));

    pq.insert(5);
    assert_eq!(pq.peek(), Some(&5));
}

#[test]
fn test_custom_peek() {
    let mut pq = PriorityQueue::new_with(|a: &i64, b: &i64| rank(b, a));

    assert_eq!(pq.peek(), None);

    pq.insert(2);
    assert_eq!(pq.peek(), Some(&2));

    pq.insert(5);
    assert_eq!(pq.peek(), Some(&2));

    pq.insert(1);
    assert_eq!(pq.peek(), Some(&1));
}

#[test]
fn priority_queue_pops_in_descending_order() {
    let mut pq = PriorityQueue::new_with(Natural);
    let values = vec![6, 8, 10, 9, 1, 9, 9, 5];
    for el in &values {
        pq.insert(*el);
    }
    let mut popped = Vec::new();
    while let Some(el) = pq.pop() {
        popped.push(el);
    }
    assert_eq!(popped, vec![10, 9, 9, 9, 8, 6, 5, 1]);
    assert_eq!(pq.len(), 0);
}

#[test]
fn priority_queue_with_a_ranking_of_its_own() {
    // Shorter words leave first; words of one length rank alike.
    let mut pq = PriorityQueue::new_with(|a: &&str, b: &&str| rank(&b.len(), &a.len()));
    for w in ["ccc", "a", "dddd", "bb", "eeeee"] {
        pq.insert(w);
    }
    let mut popped = Vec::new();
    while let Some(w) = pq.pop() {
        popped.push(w);
    }
    assert_eq!(popped, vec!["a", "bb", "ccc", "dddd", "eeeee"]);
}

#[test]
fn priority_queue_pop_of_one_and_none() {
    let mut pq: PriorityQueue<u8, Natural> = PriorityQueue::default();
    assert_eq!(pq.pop(), None);
    pq.insert(3);
    assert_eq!(pq.pop(), Some(3));
    assert_eq!(pq.pop(), None);
    assert_eq!(pq.peek(), None);
}

#[test]
fn rank_is_a_three_way_comparison() {
    assert_eq!(rank(&1, &2), Rank::Less);
    assert_eq!(rank(&2, &2), Rank::Equal);
    assert_eq!(rank(&3, &2), Rank::Greater);
    assert_eq!(rank(&"a", &"b"), Rank::Less);
}
