use data_structures::union_find::UnionFind;

#[test]
fn union_find_new_has_only_roots() {
    let mut uf = UnionFind::new(4);
    for i in 0..4 {
        assert_eq!(uf.find(i), i);
    }
}

#[test]
fn union_find_joins_two_roots() {
    let mut uf = UnionFind::new(3);
    uf.union(0, 1);
    // Of two groups of one size the second goes below the first.
    assert_eq!(uf.find(1), 0);
    assert_eq!(uf.find(0), 0);
    assert_eq!(uf.find(2), 2);
}

#[test]
fn union_find_smaller_group_goes_below() {
    let mut uf = UnionFind::new(3);
    uf.union(0, 1);
    uf.union(2, 0);
    // 2 alone is smaller than the group of 0 and 1.
    assert_eq!(uf.find(2), 0);
    assert_eq!(uf.find(1), 0);
}

#[test]
fn union_find_find_gives_the_former_parent() {
    let mut uf = UnionFind::new(4);
    uf.union(0, 1);
    uf.union(2, 3);
    uf.union(1, 3);
    // 3 stands below 2, which now stands below 0: the first call gives the
    // parent that 3 had and shortens the way, the second gives the root.
    assert_eq!(uf.find(3), 2);
    assert_eq!(uf.find(3), 0);
    assert_eq!(uf.find(2), 0);
}

#[test]
fn union_find_union_of_one_group_changes_nothing() {
    let mut uf = UnionFind::new(2);
    uf.union(0, 1);
    uf.union(1, 0);
    uf.union(1, 1);
    assert_eq!(uf.find(0), 0);
    assert_eq!(uf.find(1), 0);
}

#[test]
fn union_find_of_no_element() {
    let _ = UnionFind::new(0);
}
