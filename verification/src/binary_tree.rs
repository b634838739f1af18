use crate::binary_search::non_descending;
use crate::cloning::clones_of;
use crate::order::{lt, rank, total_order, Rank};
use vstd::prelude::*;

verus! {

/// A binary tree: empty, or a node with an element and two subtrees.
pub enum BinaryTree<T> {
    Empty,
    NonEmpty(Box<TreeNode<T>>),
}

pub struct TreeNode<T> {
    pub element: T,
    pub left: BinaryTree<T>,
    pub right: BinaryTree<T>,
}

impl<T> BinaryTree<T> {
    /// The elements in the order left subtree, node, right subtree.
    pub open spec fn inorder(self) -> Seq<T>
        decreases self,
    {
        match self {
            BinaryTree::Empty => Seq::empty(),
            BinaryTree::NonEmpty(n) => n.left.inorder().push(n.element) + n.right.inorder(),
        }
    }

    /// The elements in the order node, left subtree, right subtree.
    pub open spec fn preorder(self) -> Seq<T>
        decreases self,
    {
        match self {
            BinaryTree::Empty => Seq::empty(),
            BinaryTree::NonEmpty(n) => seq![n.element] + n.left.preorder() + n.right.preorder(),
        }
    }

    /// The elements in the order left subtree, right subtree, node.
    pub open spec fn postorder(self) -> Seq<T>
        decreases self,
    {
        match self {
            BinaryTree::Empty => Seq::empty(),
            BinaryTree::NonEmpty(n) => (n.left.postorder() + n.right.postorder()).push(n.element),
        }
    }

    /// The tree with `element` at its root above `left` and `right`.
    pub fn new(left: Self, element: T, right: Self) -> (t: Self)
        ensures
            t == BinaryTree::NonEmpty(Box::new(TreeNode { element, left, right })),
    {
        BinaryTree::NonEmpty(Box::new(TreeNode { left, element, right }))
    }

    /// An iterator over the elements in the order of `inorder`.
    pub fn inorder_iter(&self) -> (it: TreeIter<'_, T>)
        ensures
            it.rest() == self.inorder(),
    {
        let mut iter = TreeIter::new();
        iter.push_left_edge(self);
        assert(iter.rest() =~= self.inorder());
        iter
    }

    /// The same as `inorder_iter`.
    pub fn iter(&self) -> (it: TreeIter<'_, T>)
        ensures
            it.rest() == self.inorder(),
    {
        self.inorder_iter()
    }

    /// The same as `inorder_iter`.
    pub fn into_iter(&self) -> (it: TreeIter<'_, T>)
        ensures
            it.rest() == self.inorder(),
    {
        self.inorder_iter()
    }
}

impl<T: Clone> BinaryTree<T> {
    /// Clones of the elements in the order of `inorder`.
    pub fn inorder_walk(&self) -> (r: Vec<T>)
        ensures
            clones_of(self.inorder(), r@),
        decreases self,
    {
        match self {
            BinaryTree::Empty => Vec::new(),
            BinaryTree::NonEmpty(boxed) => {
                let mut result = boxed.left.inorder_walk();
                result.push(boxed.element.clone());
                let mut rest = boxed.right.inorder_walk();
                result.append(&mut rest);
                result
            },
        }
    }

    /// Clones of the elements in the order of `postorder`.
    pub fn postorder_walk(&self) -> (r: Vec<T>)
        ensures
            clones_of(self.postorder(), r@),
        decreases self,
    {
        match self {
            BinaryTree::Empty => Vec::new(),
            BinaryTree::NonEmpty(boxed) => {
                let mut result = boxed.left.postorder_walk();
                let mut rest = boxed.right.postorder_walk();
                result.append(&mut rest);
                result.push(boxed.element.clone());
                result
            },
        }
    }

    /// Clones of the elements in the order of `preorder`.
    pub fn preorder_walk(&self) -> (r: Vec<T>)
        ensures
            clones_of(self.preorder(), r@),
        decreases self,
    {
        match self {
            BinaryTree::Empty => Vec::new(),
            BinaryTree::NonEmpty(boxed) => {
                let mut result = Vec::new();
                result.push(boxed.element.clone());
                let mut left = boxed.left.preorder_walk();
                result.append(&mut left);
                let mut right = boxed.right.preorder_walk();
                result.append(&mut right);
                result
            },
        }
    }
}

impl<T: Ord> BinaryTree<T> {
    /// The tree after `e` was inserted: `e` goes down from the root, to the
    /// right of an element that comes before it and to the left of any other,
    /// and takes the first empty place it meets.
    pub open spec fn with(self, e: T) -> Self
        decreases self,
    {
        match self {
            BinaryTree::Empty => BinaryTree::NonEmpty(
                Box::new(
                    TreeNode { element: e, left: BinaryTree::Empty, right: BinaryTree::Empty },
                ),
            ),
            BinaryTree::NonEmpty(n) => if lt(n.element, e) {
                BinaryTree::NonEmpty(
                    Box::new(
                        TreeNode { element: n.element, left: n.left, right: n.right.with(e) },
                    ),
                )
            } else {
                BinaryTree::NonEmpty(
                    Box::new(
                        TreeNode { element: n.element, left: n.left.with(e), right: n.right },
                    ),
                )
            },
        }
    }

    /// Whether a search that goes down from the root, to the left of an
    /// element that `e` comes before and to the right of one that comes before
    /// `e`, meets `e`.
    pub open spec fn finds(self, e: T) -> bool
        decreases self,
    {
        match self {
            BinaryTree::Empty => false,
            BinaryTree::NonEmpty(n) => if e == n.element {
                true
            } else if lt(e, n.element) {
                n.left.finds(e)
            } else {
                n.right.finds(e)
            },
        }
    }

    /// The tree is a search tree: no element of a left subtree comes after
    /// the node above it, and every element of a right subtree does.
    pub open spec fn searchable(self) -> bool
        decreases self,
    {
        match self {
            BinaryTree::Empty => true,
            BinaryTree::NonEmpty(n) => {
                &&& n.left.searchable()
                &&& n.right.searchable()
                &&& forall|k: T| #[trigger] n.left.inorder().contains(k) ==> !lt(n.element, k)
                &&& forall|k: T| #[trigger] n.right.inorder().contains(k) ==> lt(n.element, k)
            },
        }
    }

    /// Inserts `element`; see `with`.
    pub fn insert(&mut self, element: T)
        requires
            total_order::<T>(),
        ensures
            *final(self) == old(self).with(element),
        decreases *old(self),
    {
        match self {
            BinaryTree::Empty => {
                *self = BinaryTree::NonEmpty(
                    Box::new(
                        TreeNode { element, left: BinaryTree::Empty, right: BinaryTree::Empty },
                    ),
                );
            },
            BinaryTree::NonEmpty(node) => {
                match rank(&element, &node.element) {
                    Rank::Greater => {
                        node.right.insert(element);
                    },
                    _ => {
                        node.left.insert(element);
                    },
                }
            },
        }
    }

    /// A reference to the element equal to `element` that a search from the
    /// root meets, if it meets one; see `finds`.
    pub fn search(&self, element: &T) -> (r: Option<&T>)
        requires
            total_order::<T>(),
        ensures
            r.is_some() == self.finds(*element),
            r.is_some() ==> *r.unwrap() == *element,
        decreases self,
    {
        match self {
            BinaryTree::Empty => None,
            BinaryTree::NonEmpty(node) => {
                match rank(element, &node.element) {
                    Rank::Equal => Some(&node.element),
                    Rank::Less => node.left.search(element),
                    Rank::Greater => node.right.search(element),
                }
            },
        }
    }

    /// An insertion adds one element and takes none away.
    pub proof fn lemma_with_elements(self, e: T)
        ensures
            self.with(e).inorder().to_multiset() == self.inorder().to_multiset().insert(e),
            self.with(e).inorder().len() == self.inorder().len() + 1,
            forall|k: T| self.with(e).inorder().contains(k) <==> self.inorder().contains(k) || k == e,
        decreases self,
    {
        broadcast use vstd::seq_lib::to_multiset_build, vstd::seq_lib::lemma_multiset_commutative;

        let w = self.with(e).inorder();
        match self {
            BinaryTree::Empty => {
                assert(w =~= Seq::<T>::empty().push(e));
                assert(self.inorder().to_multiset().insert(e) =~= w.to_multiset());
            },
            BinaryTree::NonEmpty(n) => {
                let l = n.left.inorder();
                let r = n.right.inorder();
                if lt(n.element, e) {
                    n.right.lemma_with_elements(e);
                    let r1 = n.right.with(e).inorder();
                    assert(w == l.push(n.element) + r1);
                    assert(w.to_multiset() =~= self.inorder().to_multiset().insert(e));
                } else {
                    n.left.lemma_with_elements(e);
                    let l1 = n.left.with(e).inorder();
                    assert(w == l1.push(n.element) + r);
                    assert(w.to_multiset() =~= self.inorder().to_multiset().insert(e));
                }
            },
        }
        assert forall|k: T| w.contains(k) <==> self.inorder().contains(k) || k == e by {
            vstd::seq_lib::to_multiset_contains(w, k);
            vstd::seq_lib::to_multiset_contains(self.inorder(), k);
        }
    }

    /// An insertion leaves a search tree a search tree.
    pub proof fn lemma_with_searchable(self, e: T)
        requires
            total_order::<T>(),
            self.searchable(),
        ensures
            self.with(e).searchable(),
        decreases self,
    {
        match self {
            BinaryTree::Empty => {
                let none = BinaryTree::<T>::Empty;
                assert(none.inorder() =~= Seq::<T>::empty());
                assert(none.searchable());
                let w = self.with(e);
                assert(w->0.left == none && w->0.right == none);
                assert forall|k: T| !w->0.left.inorder().contains(k) && !w->0.right.inorder().contains(
                    k,
                ) by {}
            },
            BinaryTree::NonEmpty(n) => {
                let w = self.with(e);
                if lt(n.element, e) {
                    n.right.lemma_with_searchable(e);
                    n.right.lemma_with_elements(e);
                    assert(w->0.right == n.right.with(e) && w->0.left == n.left);
                    assert forall|k: T| #[trigger]
                        w->0.right.inorder().contains(k) implies lt(n.element, k) by {
                        if k != e {
                            assert(n.right.inorder().contains(k));
                        }
                    }
                } else {
                    n.left.lemma_with_searchable(e);
                    n.left.lemma_with_elements(e);
                    assert(w->0.left == n.left.with(e) && w->0.right == n.right);
                    assert forall|k: T| #[trigger]
                        w->0.left.inorder().contains(k) implies !lt(n.element, k) by {
                        if k != e {
                            assert(n.left.inorder().contains(k));
                        }
                    }
                }
            },
        }
    }

    /// The elements of a search tree are in non-descending order.
    pub proof fn lemma_searchable_sorted(self)
        requires
            total_order::<T>(),
            self.searchable(),
        ensures
            non_descending(self.inorder()),
        decreases self,
    {
        match self {
            BinaryTree::Empty => {},
            BinaryTree::NonEmpty(n) => {
                n.left.lemma_searchable_sorted();
                n.right.lemma_searchable_sorted();
                let l = n.left.inorder();
                let r = n.right.inorder();
                let s = self.inorder();
                assert forall|i: int, j: int| 0 <= i < j < s.len() implies !lt(
                    #[trigger] s[j],
                    #[trigger] s[i],
                ) by {
                    let x = n.element;
                    if j < l.len() {
                        assert(!lt(l[j], l[i]));
                    } else if i > l.len() {
                        assert(!lt(r[j - l.len() - 1], r[i - l.len() - 1]));
                    } else if i < l.len() && j == l.len() {
                        assert(l.contains(l[i]));
                    } else if i == l.len() {
                        assert(r.contains(r[j - l.len() - 1]));
                    } else {
                        assert(l.contains(l[i]));
                        assert(r.contains(r[j - l.len() - 1]));
                    }
                }
            },
        }
    }

    /// In a search tree a search meets every element that the tree holds.
    pub proof fn lemma_finds(self, e: T)
        requires
            total_order::<T>(),
            self.searchable(),
        ensures
            self.finds(e) <==> self.inorder().contains(e),
        decreases self,
    {
        match self {
            BinaryTree::Empty => {},
            BinaryTree::NonEmpty(n) => {
                n.left.lemma_finds(e);
                n.right.lemma_finds(e);
                let l = n.left.inorder();
                let r = n.right.inorder();
                let s = self.inorder();
                assert(s[l.len() as int] == n.element);
                if l.contains(e) {
                    let i = choose|i: int| 0 <= i < l.len() && l[i] == e;
                    assert(s[i] == e);
                }
                if r.contains(e) {
                    let i = choose|i: int| 0 <= i < r.len() && r[i] == e;
                    assert(s[i + l.len() + 1] == e);
                }
                if s.contains(e) {
                    let i = choose|i: int| 0 <= i < s.len() && s[i] == e;
                    if i < l.len() {
                        assert(l[i] == e);
                    } else if i > l.len() {
                        assert(r[i - l.len() - 1] == e);
                    }
                }
            },
        }
    }
}

/// An iterator over the elements of a tree in the order of `inorder`. It
/// holds the nodes whose element and right subtree are still to come, the
/// next one last.
pub struct TreeIter<'a, T> {
    unvisited: Vec<&'a TreeNode<T>>,
}

impl<'a, T> TreeIter<'a, T> {
    /// The elements still to come from the nodes of `stack`, the last node
    /// first.
    pub open spec fn rest_of(stack: Seq<&'a TreeNode<T>>) -> Seq<T>
        decreases stack.len(),
    {
        if stack.len() == 0 {
            Seq::empty()
        } else {
            seq![stack.last().element] + stack.last().right.inorder() + Self::rest_of(
                stack.drop_last(),
            )
        }
    }

    /// The elements that the iterator has still to give, the next first.
    pub closed spec fn rest(self) -> Seq<T> {
        Self::rest_of(self.unvisited@)
    }

    /// An iterator that has nothing to give.
    pub fn new() -> (it: Self)
        ensures
            it.rest() == Seq::<T>::empty(),
    {
        TreeIter { unvisited: Vec::new() }
    }

    /// Puts the elements of `tree` before those that the iterator has still
    /// to give.
    pub fn push_left_edge(&mut self, tree: &'a BinaryTree<T>)
        ensures
            final(self).rest() == tree.inorder() + old(self).rest(),
    {
        let mut tree = tree;
        let ghost whole = tree.inorder() + self.rest();
        loop
            invariant
                tree.inorder() + self.rest() == whole,
            ensures
                self.rest() == whole,
            decreases tree,
        {
            match tree {
                BinaryTree::NonEmpty(node) => {
                    let ghost before = self.unvisited@;
                    self.unvisited.push(node);
                    proof {
                        assert(self.unvisited@.drop_last() =~= before);
                        assert(node.left.inorder() + self.rest() =~= tree.inorder() + Self::rest_of(
                            before,
                        ));
                    }
                    tree = &node.left;
                },
                BinaryTree::Empty => {
                    assert(tree.inorder() + self.rest() =~= self.rest());
                    break;
                },
            }
        }
    }

    /// The next element, if there is one.
    pub fn next(&mut self) -> (r: Option<&'a T>)
        ensures
            old(self).rest().len() == 0 ==> r.is_none() && final(self).rest() == old(self).rest(),
            old(self).rest().len() > 0 ==> {
                &&& r == Some(&old(self).rest()[0])
                &&& final(self).rest() == old(self).rest().subrange(
                    1,
                    old(self).rest().len() as int,
                )
            },
    {
        let node = match self.unvisited.pop() {
            None => {
                return None;
            },
            Some(n) => n,
        };
        proof {
            assert(self.unvisited@ =~= old(self).unvisited@.drop_last());
        }
        self.push_left_edge(&node.right);
        proof {
            assert(self.rest() =~= old(self).rest().subrange(1, old(self).rest().len() as int));
        }
        Some(&node.element)
    }
}

} // verus!
