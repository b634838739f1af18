use data_structures::binary_tree::BinaryTree;
use data_structures::binary_tree::BinaryTree::{Empty, NonEmpty};
use data_structures::binary_tree::{TreeIter, TreeNode};

#[test]
fn test_hand_building_tree_of_planets() {
    let jupiter_tree = NonEmpty(Box::new(TreeNode {
        element: "Jupiter",
        left: Empty,
        right: Empty,
    }));
    let mercury_tree = NonEmpty(Box::new(TreeNode {
        element: "Mercury",
        left: Empty,
        right: Empty,
    }));
    let mars_tree = NonEmpty(Box::new(TreeNode {
        element: "Mars",
        left: jupiter_tree,
        right: mercury_tree,
    }));
    let venus_tree = NonEmpty(Box::new(TreeNode {
        element: "Venus",
        left: Empty,
        right: Empty,
    }));
    let uranus_tree = NonEmpty(Box::new(TreeNode {
        element: "Uranus",
        left: Empty,
        right: venus_tree,
    }));
    let tree = NonEmpty(Box::new(TreeNode {
        element: "Saturn",
        left: mars_tree,
        right: uranus_tree,
    }));

    // Test traversal methods
    assert_eq!(tree.inorder_walk(), vec!["Jupiter", "Mars", "Mercury", "Saturn", "Uranus", "Venus"]);
    assert_eq!(tree.preorder_walk(), vec!["Saturn", "Mars", "Jupiter", "Mercury", "Uranus", "Venus"]);
    assert_eq!(tree.postorder_walk(), vec!["Jupiter", "Mercury", "Mars", "Venus", "Uranus", "Saturn"]);

    // Test iterator order
    let mut collected = Vec::new();
    let mut iter = tree.inorder_iter();
    while let Some(planet) = iter.next() {
        collected.push(planet);
    }
    assert_eq!(collected, vec![&"Jupiter", &"Mars", &"Mercury", &"Saturn", &"Uranus", &"Venus"]);
}

#[test]
fn test_insert_method_1() {
    let planets = vec!["Mercury", "Venus", "Mars", "Jupiter", "Saturn", "Uranus"];
    let mut tree = BinaryTree::Empty;
    for planet in planets {
        tree.insert(planet);
    }

    assert_eq!(tree.inorder_walk(), vec!["Jupiter", "Mars", "Mercury", "Saturn", "Uranus", "Venus"]);
}

#[test]
fn test_insert_method_2() {
    let mut tree = BinaryTree::Empty;
    tree.insert("Mercury");
    tree.insert("Venus");
    for planet in vec!["Mars", "Jupiter", "Saturn", "Uranus"] {
        tree.insert(planet);
    }

    assert_eq!(tree.inorder_walk(), vec!["Jupiter", "Mars", "Mercury", "Saturn", "Uranus", "Venus"]);
}

#[test]
fn test_search_method() {
    let mut tree = BinaryTree::Empty;
    tree.insert("Pluto");
    tree.insert("Neptune");
    tree.insert("Saturn");

    assert_eq!(tree.search(&"Neptune"), Some(&"Neptune"));
    assert_eq!(tree.search(&"Mercury"), None);
}

#[test]
fn external_iterator() {
    let subtree_l = BinaryTree::new(Empty, "mecha", Empty);
    let subtree_rl = BinaryTree::new(Empty, "droid", Empty);
    let subtree_r = BinaryTree::new(subtree_rl, "robot", Empty);
    let tree = BinaryTree::new(subtree_l, "Jaeger", subtree_r);

    let mut v = Vec::new();
    let mut walk = (&tree).into_iter();
    while let Some(kind) = walk.next() {
        v.push(*kind);
    }
    assert_eq!(v, ["mecha", "Jaeger", "droid", "robot"]);

    let left_subtree = BinaryTree::new(Empty, "mecha", Empty);
    let right_subtree = BinaryTree::new(BinaryTree::new(Empty, "droid", Empty), "robot", Empty);
    let tree = BinaryTree::new(left_subtree, "Jaeger", right_subtree);

    let mut v = Vec::new();
    let mut iter = TreeIter::new();
    iter.push_left_edge(&tree);

    while let Some(kind) = iter.next() {
        v.push(*kind);
    }
    assert_eq!(v, ["mecha", "Jaeger", "droid", "robot"]);

    let mut v = Vec::new();
    let mut state = tree.into_iter();
    while let Some(kind) = state.next() {
        v.push(*kind);
    }
    assert_eq!(v, ["mecha", "Jaeger", "droid", "robot"]);

    let mut names = Vec::new();
    let mut each = tree.iter();
    while let Some(name) = each.next() {
        names.push(format!("mega-{}", name));
    }
    assert_eq!(names, vec!["mega-mecha", "mega-Jaeger", "mega-droid", "mega-robot"]);

    let mut iterator = tree.into_iter();
    assert_eq!(iterator.next(), Some(&"mecha"));
    assert_eq!(iterator.next(), Some(&"Jaeger"));
    assert_eq!(iterator.next(), Some(&"droid"));
    assert_eq!(iterator.next(), Some(&"robot"));
    assert_eq!(iterator.next(), None);
}

#[test]
fn binary_tree_keeps_equal_elements() {
    let mut tree = BinaryTree::Empty;
    for k in [5, 3, 5, 8, 3, 5] {
        tree.insert(k);
    }
    assert_eq!(tree.inorder_walk(), vec![3, 3, 5, 5, 5, 8]);
    // An element equal to one above it goes to the left of it.
    assert_eq!(tree.preorder_walk(), vec![5, 3, 3, 5, 5, 8]);
    assert_eq!(tree.postorder_walk(), vec![3, 5, 5, 3, 8, 5]);
}

#[test]
fn binary_tree_walks_of_an_empty_tree() {
    let tree: BinaryTree<i32> = BinaryTree::Empty;
    assert_eq!(tree.inorder_walk(), Vec::<i32>::new());
    assert_eq!(tree.preorder_walk(), Vec::<i32>::new());
    assert_eq!(tree.postorder_walk(), Vec::<i32>::new());
    assert_eq!(tree.search(&1), None);
    assert_eq!(tree.inorder_iter().next(), None);
}

#[test]
fn binary_tree_search_follows_the_order() {
    // 9 stands left of 4, where no search looks for it.
    let tree = BinaryTree::new(BinaryTree::new(Empty, 9, Empty), 4, Empty);
    assert_eq!(tree.search(&9), None);
    assert_eq!(tree.search(&4), Some(&4));
    let mut tree = BinaryTree::Empty;
    for k in [4, 9, 1, 7] {
        tree.insert(k);
    }
    for k in [4, 9, 1, 7] {
        assert_eq!(tree.search(&k), Some(&k));
    }
    assert_eq!(tree.search(&5), None);
}
