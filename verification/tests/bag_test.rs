use data_structures::bag::{full, Bag};

#[test]
fn test_inserting_into_empty_bag() {
    let mut bag = Bag::with_degree(2);
    bag.insert("Mercury");

    assert_eq!(bag.len(), 1);
    assert!(bag.slot(0).is_some());
}

#[test]
fn test_inserting_into_nonempty_bag() {
    let mut bag = Bag::with_degree(3);
    bag.insert("Mercury");
    bag.insert("Venus");

    assert_eq!(bag.len(), 2);
    assert!(bag.slot(0).is_none());
    assert!(bag.slot(1).is_some());

    bag.insert("Earth");

    assert_eq!(bag.len(), 3);
    assert!(bag.slot(0).is_some());
    assert!(bag.slot(1).is_some());

    bag.insert("Mars");

    assert_eq!(bag.len(), 4);
    assert!(bag.slot(0).is_none());
    assert!(bag.slot(1).is_none());
    assert!(bag.slot(2).is_some());

    bag.insert("Jupiter");

    assert_eq!(bag.len(), 5);
    assert!(bag.slot(0).is_some());
    assert!(bag.slot(1).is_none());
    assert!(bag.slot(2).is_some());
}

#[test]
fn test_union_with_empty_bags() {
    let mut bag: Bag<i32> = Bag::new();
    let empty = Bag::new();
    bag.union(empty);

    assert_eq!(bag.len(), 0);
    assert!((0..bag.degree()).all(|i| bag.slot(i).is_none()));
}

#[test]
fn test_union_with_one_nonempty_bag_and_one_empty_bag() {
    let mut bag = Bag::with_degree(3);
    bag.insert("Mercury");
    bag.insert("Venus");

    let empty = Bag::with_degree(2);

    bag.union(empty);

    assert_eq!(bag.len(), 2);
    assert!(bag.slot(1).is_some());
}

#[test]
fn test_union_with_nonempty_bags() {
    let mut bag = Bag::new();
    bag.insert("Mercury");
    bag.insert("Venus");

    let mut other = Bag::new();
    other.insert("Earth");
    other.insert("Mars");
    other.insert("Jupiter");
    other.insert("Saturn");
    other.insert("Uranus");
    other.insert("Neptune");
    other.insert("Pluto");

    bag.union(other);

    assert_eq!(bag.len(), 9);
    assert!(bag.slot(0).is_some());
    assert!(bag.slot(3).is_some());
}

#[test]
fn test_splitting_empty_bag() {
    let mut bag: Bag<i32> = Bag::with_degree(2);
    let other_bag = bag.split();

    assert_eq!(other_bag.len(), 0);
}

#[test]
fn test_splitting_bag_with_one_element() {
    let mut bag = Bag::with_degree(2);
    bag.insert("Pluto");

    let other_bag = bag.split();

    assert_eq!(bag.len(), 0);
    assert_eq!(other_bag.len(), 1);
}

#[test]
fn test_splitting_bag_with_even_elements() {
    let mut bag = Bag::with_degree(3);
    bag.insert("Mercury");
    bag.insert("Venus");
    bag.insert("Earth");
    bag.insert("Mars");

    let other_bag = bag.split();

    assert_eq!(bag.len(), 2);
    assert_eq!(other_bag.len(), 2);
}

#[test]
fn test_splitting_bag_with_odd_elements() {
    let mut bag = Bag::new();
    bag.insert("Mercury");
    bag.insert("Venus");
    bag.insert("Earth");
    bag.insert("Mars");
    bag.insert("Jupiter");
    bag.insert("Saturn");
    bag.insert("Uranus");
    bag.insert("Neptune");
    bag.insert("Pluto");

    let other_bag = bag.split();

    assert_eq!(bag.len(), 5);
    assert_eq!(other_bag.len(), 4);
}

fn elements_of(bag: &Bag<u32>) -> Vec<u32> {
    fn walk(p: &data_structures::pennant::Pennant<u32>, out: &mut Vec<u32>) {
        out.push(*p.fetch_element());
        for child in [p.left(), p.middle(), p.right()] {
            if let Some(c) = child {
                walk(c, out);
            }
        }
    }
    let mut out = Vec::new();
    for i in 0..bag.degree() {
        if let Some(p) = bag.slot(i) {
            assert_eq!(p.len(), 1usize << i);
            assert_eq!(p.degree(), i as i32);
            walk(p, &mut out);
        }
    }
    out.sort();
    out
}

#[test]
fn bag_new_and_with_degree() {
    let bag: Bag<u8> = Bag::new();
    assert_eq!(bag.len(), 0);
    assert_eq!(bag.capacity(), 255);
    assert_eq!(bag.degree(), 8);
    let bag: Bag<u8> = Bag::with_degree(3);
    assert_eq!(bag.capacity(), 15);
    assert_eq!(bag.degree(), 3);
    let bag: Bag<u8> = Bag::with_degree(0);
    assert_eq!(bag.capacity(), 1);
    assert_eq!(bag.degree(), 0);
}

#[test]
fn bag_slots_are_the_binary_digits_of_the_length() {
    let mut bag = Bag::with_degree(0);
    for n in 1..=100u32 {
        bag.insert(n);
        assert_eq!(bag.len(), n as usize);
        for i in 0..bag.degree() {
            assert_eq!(bag.slot(i).is_some(), (n >> i) & 1 == 1);
        }
        assert_eq!(elements_of(&bag), (1..=n).collect::<Vec<u32>>());
    }
    // The spine grew from no slot to 1, 3, 7 slots.
    assert_eq!(bag.degree(), 7);
    assert_eq!(bag.capacity(), 127);
}

#[test]
fn bag_union_holds_the_elements_of_both() {
    let mut a = Bag::new();
    let mut b = Bag::with_degree(1);
    for n in 0..13u32 {
        a.insert(n);
    }
    for n in 13..40u32 {
        b.insert(n);
    }
    a.union(b);
    assert_eq!(a.len(), 40);
    assert_eq!(elements_of(&a), (0..40).collect::<Vec<u32>>());
}

#[test]
fn bag_union_into_a_shorter_spine() {
    let mut a = Bag::with_degree(0);
    let mut b = Bag::new();
    for n in 0..32u32 {
        b.insert(n);
    }
    a.union(b);
    assert_eq!(a.len(), 32);
    assert!(a.slot(5).is_some());
    assert_eq!(elements_of(&a), (0..32).collect::<Vec<u32>>());
}

#[test]
fn bag_split_halves_the_elements() {
    for n in 2..70u32 {
        let mut bag = Bag::new();
        for k in 0..n {
            bag.insert(k);
        }
        let other = bag.split();
        assert_eq!(other.len(), (n / 2) as usize);
        assert_eq!(bag.len(), (n - n / 2) as usize);
        let mut all = elements_of(&bag);
        all.extend(elements_of(&other));
        all.sort();
        assert_eq!(all, (0..n).collect::<Vec<u32>>());
    }
}

#[test]
fn full_is_a_power_of_two_less_one() {
    assert_eq!(full(0), 0);
    assert_eq!(full(1), 1);
    assert_eq!(full(8), 255);
    assert_eq!(full(17), 131071);
    assert_eq!(full(usize::BITS as usize), usize::MAX);
    assert_eq!(full(1000), usize::MAX);
}
