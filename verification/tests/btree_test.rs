use data_structures::btree::{Btree, BtreeError};

fn tree_of(degree: usize, keys: &[i64]) -> Btree<i64> {
    let mut t = Btree::new(degree).unwrap();
    for k in keys {
        assert!(t.insert(*k));
        assert!(t.is_balanced());
    }
    t
}

#[test]
fn btree_new_rejects_small_degree() {
    assert!(matches!(Btree::<u32>::new(0), Err(BtreeError::InvalidDegree)));
    assert!(matches!(Btree::<u32>::new(1), Err(BtreeError::InvalidDegree)));
    assert!(Btree::<u32>::new(2).is_ok());
}

#[test]
fn btree_new_rejects_huge_degree() {
    assert!(matches!(Btree::<u32>::new(usize::MAX), Err(BtreeError::InvalidDegree)));
    assert!(matches!(Btree::<u32>::new(usize::MAX / 2 + 1), Err(BtreeError::InvalidDegree)));
    assert!(Btree::<u32>::new(usize::MAX / 2).is_ok());
}

#[test]
fn btree_new_is_empty() {
    let t = Btree::<u32>::new(3).unwrap();
    assert!(t.is_empty());
    assert_eq!(t.len(), 0);
    assert_eq!(t.height(), 0);
    assert!(!t.contains(&0));
    assert!(t.is_balanced());
}

#[test]
fn btree_seven_ascending_inserts() {
    let mut t = Btree::<u32>::new(2).unwrap();
    let mut heights = Vec::new();
    for k in 1..=7u32 {
        assert!(t.insert(k));
        heights.push(t.height());
    }
    // The root holds three keys when the fourth arrives, and is split then.
    assert_eq!(heights, vec![0, 0, 0, 1, 1, 1, 1]);
    assert!(t.contains(&4));
    assert!(!t.contains(&8));
    assert_eq!(t.len(), 7);
    assert!(t.is_balanced());
}

#[test]
fn btree_remove_keeps_rest() {
    let mut t = tree_of(2, &[10, 20, 5, 6, 12, 30, 7, 17]);
    assert!(t.remove(&6));
    assert!(!t.contains(&6));
    assert_eq!(t.len(), 7);
    assert!(t.is_balanced());
    for k in [10, 20, 5, 12, 30, 7, 17] {
        assert!(t.contains(&k));
    }
}

#[test]
fn btree_insert_present_key() {
    let mut t = tree_of(2, &[3, 1, 2]);
    assert!(!t.insert(2));
    assert_eq!(t.len(), 3);
    for k in [1, 2, 3] {
        assert!(t.contains(&k));
    }
    assert!(!t.contains(&4));
}

#[test]
fn btree_insert_key_that_a_split_moves_up() {
    // With 1, 2, 3 in a full root, the split that precedes the descent moves
    // 2 up; with 1..=5 the split of the right leaf moves 4 up.
    let mut t = tree_of(2, &[1, 2, 3]);
    assert!(!t.insert(2));
    assert_eq!(t.len(), 3);
    assert_eq!(t.height(), 1);
    let mut t = tree_of(2, &[1, 2, 3, 4, 5]);
    assert!(!t.insert(4));
    assert_eq!(t.len(), 5);
    assert!(t.is_balanced());
}

#[test]
fn btree_remove_absent_key() {
    let mut t = tree_of(2, &[3, 1, 2]);
    assert!(!t.remove(&7));
    assert_eq!(t.len(), 3);
    for k in [1, 2, 3] {
        assert!(t.contains(&k));
    }
}

#[test]
fn btree_remove_twice() {
    let mut t = tree_of(2, &[8, 3, 5, 1, 9, 4]);
    assert!(t.remove(&5));
    assert!(!t.remove(&5));
    assert_eq!(t.len(), 5);
}

#[test]
fn btree_remove_sub_leaves_the_count() {
    let mut t = tree_of(2, &[1, 2, 3, 4]);
    assert!(t.remove_sub(&4));
    assert!(!t.remove_sub(&4));
}

#[test]
fn btree_round_trip() {
    let keys: Vec<i64> = (0..200).map(|i| (i * 37) % 211).collect();
    for degree in [2usize, 3, 4, 7] {
        let mut t = tree_of(degree, &keys);
        assert_eq!(t.len(), 200);
        let mut order: Vec<i64> = keys.clone();
        order.reverse();
        order.rotate_left(71);
        for k in &order {
            assert!(t.contains(k));
            assert!(t.remove(k));
            assert!(!t.contains(k));
            assert!(t.is_balanced());
        }
        assert!(t.is_empty());
        assert_eq!(t.len(), 0);
        assert_eq!(t.height(), 0);
    }
}

#[test]
fn btree_matches_a_sorted_set() {
    let mut t = Btree::<u32>::new(2).unwrap();
    let mut model = std::collections::BTreeSet::new();
    let mut x: u32 = 12345;
    for step in 0..3000u32 {
        x = x.wrapping_mul(1664525).wrapping_add(1013904223);
        let key = (x >> 16) % 64;
        if step % 3 == 2 {
            assert_eq!(t.remove(&key), model.remove(&key));
        } else {
            assert_eq!(t.insert(key), model.insert(key));
        }
        assert_eq!(t.len(), model.len());
        assert_eq!(t.is_empty(), model.is_empty());
        assert!(t.is_balanced());
    }
    for key in 0..64u32 {
        assert_eq!(t.contains(&key), model.contains(&key));
    }
}

#[test]
fn btree_height_grows_and_shrinks() {
    let mut t = tree_of(2, &[1, 2, 3]);
    assert_eq!(t.height(), 0);
    assert!(t.insert(4));
    assert_eq!(t.height(), 1);
    assert!(t.remove(&4));
    assert!(t.remove(&3));
    assert!(t.remove(&2));
    assert_eq!(t.height(), 0);
    assert_eq!(t.len(), 1);
    assert!(t.contains(&1));
}

#[test]
fn btree_borrows_from_either_sibling() {
    // degree 2: leaves [1] [3] [5 6] under the root [2 4]; taking 3 out
    // borrows 5 through the root from the right.
    let mut t = tree_of(2, &[1, 2, 3, 4, 5, 6]);
    assert!(t.remove(&3));
    assert!(t.is_balanced());
    assert_eq!(t.height(), 1);
    for k in [1, 2, 4, 5, 6] {
        assert!(t.contains(&k));
    }
    // leaves [0 1] [3] [5] under [2 4]; taking 3 out borrows 1 from the left.
    let mut t = tree_of(2, &[1, 2, 3, 4, 5, 0]);
    assert!(t.remove(&3));
    assert!(t.is_balanced());
    for k in [0, 1, 2, 4, 5] {
        assert!(t.contains(&k));
    }
    assert_eq!(t.len(), 5);
}

#[test]
fn btree_removes_a_key_of_an_internal_node() {
    let mut t = tree_of(2, &[1, 2, 3, 4, 5, 6, 7, 8, 9, 10]);
    let h = t.height();
    assert!(h >= 1);
    for k in [4, 2, 6, 8] {
        assert!(t.remove(&k));
        assert!(!t.contains(&k));
        assert!(t.is_balanced());
    }
    assert_eq!(t.len(), 6);
    for k in [1, 3, 5, 7, 9, 10] {
        assert!(t.contains(&k));
    }
}

#[test]
fn btree_clear() {
    let mut t = tree_of(3, &[5, 4, 3, 2, 1, 0, 9, 8, 7, 6]);
    t.clear();
    assert!(t.is_empty());
    assert_eq!(t.len(), 0);
    assert!(!t.contains(&5));
    assert!(t.insert(5));
    assert_eq!(t.len(), 1);
}

#[test]
fn btree_of_strings() {
    let mut t = Btree::<String>::new(2).unwrap();
    for name in ["Mercury", "Venus", "Earth", "Mars", "Jupiter", "Saturn"] {
        assert!(t.insert(name.to_string()));
    }
    assert!(t.contains(&"Mars".to_string()));
    assert!(!t.contains(&"Pluto".to_string()));
    assert!(t.remove(&"Earth".to_string()));
    assert_eq!(t.len(), 5);
}

#[test]
fn btree_clone_is_a_tree_of_its_own() {
    let t = tree_of(2, &[4, 8, 15, 16, 23, 42]);
    let mut copy = t.clone();
    assert_eq!(copy.len(), 6);
    assert_eq!(copy.height(), t.height());
    assert!(copy.is_balanced());
    assert!(copy.remove(&15));
    assert!(copy.insert(1));
    assert!(t.contains(&15));
    assert!(!t.contains(&1));
    assert_eq!(t.len(), 6);
    assert_eq!(copy.len(), 6);
}

#[test]
fn btree_of_a_large_degree() {
    let mut t = Btree::<u64>::new(64).unwrap();
    for k in 0..5000u64 {
        assert!(t.insert((k * 7919) % 5003));
    }
    assert_eq!(t.len(), 5000);
    assert!(t.is_balanced());
    assert!(t.height() <= 2);
    let held: std::collections::BTreeSet<u64> = (0..5000u64).map(|k| (k * 7919) % 5003).collect();
    for k in 0..5003u64 {
        assert_eq!(t.contains(&k), held.contains(&k));
    }
    for k in 0..5000u64 {
        assert!(t.remove(&((k * 7919) % 5003)));
    }
    assert!(t.is_empty());
    assert_eq!(t.height(), 0);
}

#[test]
fn btree_root_holds_twice_the_degree_less_one() {
    // A node of degree 3 holds up to 5 keys: the root is split when the
    // sixth arrives; of degree 4 up to 7: when the eighth arrives.
    for degree in [2usize, 3, 4, 10] {
        let mut t = Btree::<usize>::new(degree).unwrap();
        for k in 0..2 * degree - 1 {
            assert!(t.insert(k));
            assert_eq!(t.height(), 0);
        }
        assert!(t.insert(2 * degree - 1));
        assert_eq!(t.height(), 1);
        assert!(t.is_balanced());
        assert_eq!(t.len(), 2 * degree);
    }
}

#[test]
fn btree_root_gives_way_to_its_child() {
    // degree 2: the root [1] above the leaves [0] and [2]; taking 0 out
    // merges the leaves and the key of the root, and the root gives way.
    let mut t = tree_of(2, &[0, 1, 2, 3]);
    assert!(t.remove(&3));
    assert_eq!(t.height(), 1);
    assert!(t.remove(&0));
    assert_eq!(t.height(), 0);
    assert_eq!(t.len(), 2);
    assert!(t.contains(&1) && t.contains(&2));
    // Looking for a key that is not there can merge as well.
    let mut t = tree_of(2, &[0, 1, 2, 3]);
    assert!(t.remove(&3));
    assert!(!t.remove(&7));
    assert_eq!(t.height(), 0);
    assert_eq!(t.len(), 3);
    assert!(t.is_balanced());
}
