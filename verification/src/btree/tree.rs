use crate::btree::node::Node;
use crate::cloning::{clones_of, faithful};
use crate::order::{
    ascending, lemma_ascending_distinct, lemma_ascending_gained, lemma_ascending_lost,
    lemma_ascending_unique, rank, total_order, Rank,
};
use vstd::prelude::*;

verus! {

/// Why a tree could not be made.
#[derive(Clone, Copy, PartialEq, Eq, Debug)]
pub enum BtreeError {
    /// The degree is below 2, or so large that the greatest number of keys of
    /// a node does not fit the machine's word.
    InvalidDegree,
}

/// A set of keys held in a balanced multiway search tree.
///
/// The view of a tree is the sequence of its keys as an in-order traversal
/// meets them. The order of the keys is that of `Ord`, which has to be a
/// total order (`total_order`).
pub struct Btree<T> {
    root: Node<T>,
    size: usize,
    min_keys: usize,
    max_keys: usize,
}

impl<T: Ord> View for Btree<T> {
    type V = Seq<T>;

    closed spec fn view(&self) -> Seq<T> {
        self.root.walk()
    }
}

impl<T: Ord> Btree<T> {
    /// The least number of children of an internal node other than the root.
    /// A node other than the root holds at least `degree - 1` keys, and no
    /// node holds more than `2 * degree - 1`.
    pub closed spec fn degree(self) -> int {
        self.min_keys + 1
    }

    /// The number of levels below the root.
    pub closed spec fn spec_height(self) -> nat {
        self.root.height()
    }

    /// The number of keys that the tree has counted.
    pub closed spec fn counted(self) -> nat {
        self.size as nat
    }

    /// The root holds as many keys as a node can.
    pub closed spec fn root_is_full(self) -> bool {
        self.root.keys@.len() == self.max_keys
    }

    /// Some leaf stands `d` levels below the root.
    pub closed spec fn leaf_at(self, d: nat) -> bool {
        self.root.leaf_at(d)
    }

    /// The shape of the tree: every leaf is as deep as every other, a node
    /// other than the root holds between `degree - 1` and `2 * degree - 1`
    /// keys and the root at most that many, and an internal node has one child
    /// more than it has keys.
    pub closed spec fn shaped(self) -> bool {
        &&& self.min_keys >= 1
        &&& self.max_keys == 2 * self.min_keys + 1
        &&& self.root.balanced(self.min_keys as int, self.max_keys as int)
    }

    /// The tree has its shape and is a search tree: the keys of a node
    /// ascend, and the keys below its child `i` lie between its keys `i - 1`
    /// and `i`.
    pub closed spec fn balanced(self) -> bool {
        &&& self.shaped()
        &&& self.root.ordered()
    }

    /// The tree is balanced, a root without keys is a leaf, and the count of
    /// the keys is their number.
    pub closed spec fn wf(self) -> bool {
        &&& self.balanced()
        &&& (self.root.keys@.len() == 0 ==> self.root.leaf())
        &&& self.size == self.root.walk().len()
    }

    /// The keys of a balanced tree ascend in the order of the traversal, so
    /// that none occurs twice.
    pub proof fn lemma_ascending(self)
        requires
            total_order::<T>(),
            self.balanced(),
        ensures
            ascending(self@),
            self@.no_duplicates(),
    {
        self.root.lemma_walk(self.min_keys as int, self.max_keys as int);
        lemma_ascending_distinct(self@);
    }

    /// Every leaf of a tree that has its shape is at one depth, the height of
    /// the tree.
    pub proof fn lemma_leaves_level(self, d: nat)
        requires
            self.shaped(),
            self.leaf_at(d),
        ensures
            d == self.spec_height(),
    {
        self.root.lemma_leaf_at(self.min_keys as int, self.max_keys as int, d);
    }

    /// A well-formed tree is balanced, has counted its keys rightly, and has
    /// no more levels below its root than keys.
    pub proof fn lemma_wf(self)
        requires
            self.wf(),
        ensures
            self.balanced(),
            self.shaped(),
            self.degree() >= 2,
            self.counted() == self@.len(),
            self.spec_height() <= self@.len(),
    {
        self.root.lemma_walk_len(self.min_keys as int, self.max_keys as int);
    }

    /// A tree without keys for the given degree, which is the least number
    /// of children of an internal node other than the root.
    pub fn new(degree: usize) -> (r: Result<Self, BtreeError>)
        ensures
            r.is_ok() <==> 2 <= degree <= usize::MAX / 2,
            r.is_err() ==> r == Err::<Self, BtreeError>(BtreeError::InvalidDegree),
            r.is_ok() ==> {
                &&& r.unwrap().wf()
                &&& r.unwrap()@ == Seq::<T>::empty()
                &&& r.unwrap().degree() == degree
                &&& r.unwrap().spec_height() == 0
            },
    {
        if degree < 2 || degree > usize::MAX / 2 {
            return Err(BtreeError::InvalidDegree);
        }
        let max_keys = degree * 2 - 1;
        Ok(Btree { root: Node::new(), size: 0, min_keys: degree - 1, max_keys })
    }

    pub fn is_empty(&self) -> (r: bool)
        requires
            self.wf(),
        ensures
            r == (self@.len() == 0),
    {
        self.size == 0
    }

    /// The number of keys.
    pub fn len(&self) -> (r: usize)
        requires
            self.wf(),
        ensures
            r == self@.len(),
    {
        self.size
    }

    /// Empties the tree; its degree stays.
    pub fn clear(&mut self)
        requires
            old(self).wf(),
        ensures
            final(self).wf(),
            final(self)@ == Seq::<T>::empty(),
            final(self).degree() == old(self).degree(),
            final(self).spec_height() == 0,
    {
        self.root = Node::new();
        self.size = 0;
    }

    /// Whether `val` is one of the keys.
    pub fn contains(&self, val: &T) -> (r: bool)
        requires
            total_order::<T>(),
            self.wf(),
        ensures
            r == self@.contains(*val),
    {
        proof {
            self.root.lemma_walk(self.min_keys as int, self.max_keys as int);
        }
        let mut node: &Node<T> = &self.root;
        loop
            invariant
                total_order::<T>(),
                node.balanced(self.min_keys as int, self.max_keys as int),
                node.ordered(),
                self.root.has(*val) <==> node.has(*val),
                self@.contains(*val) <==> self.root.has(*val),
            decreases node.height(),
        {
            let (found, index) = node.search(val);
            if found {
                proof {
                    node.lemma_has_key(index as int);
                }
                return true;
            } else if node.is_leaf() {
                return false;
            } else {
                proof {
                    node.lemma_only_child(index as int, *val);
                }
                node = &node.children[index];
            }
        }
    }

    /// What an insertion makes of the tree `before`, of which `grown` is the
    /// root after a full root was split: the root `after` and the count of
    /// keys `size`.
    proof fn lemma_inserted(before: Self, grown: Node<T>, after: Node<T>, size: int, val: T, r: bool)
        requires
            total_order::<T>(),
            before.wf(),
            grown.balanced(before.min_keys as int, before.max_keys as int),
            grown.ordered(),
            grown.keys@.len() == 0 ==> grown.leaf(),
            forall|k: T| grown.has(k) <==> before.root.has(k),
            Node::inserted(grown, after, before.min_keys as int, val, r),
            size == before.size + if r {
                1int
            } else {
                0int
            },
        ensures
            after.keys@.len() == 0 ==> after.leaf(),
            size == after.walk().len(),
            ascending(after.walk()),
            r == !before@.contains(val),
            after.walk().to_set() == before@.to_set().insert(val),
            !r ==> after.walk() == before@,
    {
        let min = before.min_keys as int;
        let max = before.max_keys as int;
        before.root.lemma_walk(min, max);
        after.lemma_walk(min, max);
        let a = before@;
        let b = after.walk();
        assert forall|k: T| b.contains(k) <==> a.contains(k) || k == val by {
            assert(b.contains(k) <==> after.has(k));
            assert(a.contains(k) <==> before.root.has(k));
            assert(grown.has(k) <==> before.root.has(k));
        }
        if r {
            lemma_ascending_gained(a, b, val);
        } else {
            lemma_ascending_unique(a, b);
            assert(a.to_set() =~= a.to_set().insert(val));
        }
    }

    /// Adds `val` to the keys. Returns `false`, and leaves the keys as they
    /// were, where `val` is one of them already. A full root is split before
    /// anything else, which is the one way in which the tree gains a level;
    /// on the way down every full node is split before it is entered.
    #[verifier::loop_isolation(false)]
    pub fn insert(&mut self, val: T) -> (r: bool)
        requires
            total_order::<T>(),
            old(self).wf(),
            old(self)@.len() < usize::MAX,
        ensures
            final(self).wf(),
            final(self).degree() == old(self).degree(),
            ascending(final(self)@),
            r == !old(self)@.contains(val),
            final(self)@.to_set() == old(self)@.to_set().insert(val),
            final(self)@.len() == old(self)@.len() + if r {
                1nat
            } else {
                0nat
            },
            !r ==> final(self)@ == old(self)@,
            final(self).spec_height() == old(self).spec_height() + if old(self).root_is_full() {
                1nat
            } else {
                0nat
            },
    {
        let ghost min = self.min_keys as int;
        let ghost max = self.max_keys as int;
        // Check to see if the root needs to be split
        if self.root.keys.len() == self.max_keys {
            let mut child = Node::new();
            core::mem::swap(&mut self.root, &mut child);
            self.root.children.push(Box::new(child));
            proof {
                assert(self.root.children@[0] == old(self).root);
                assert(self.root.balanced(min, max));
                assert(self.root.ordered());
                assert forall|k: T| self.root.has(k) <==> old(self).root.has(k) by {
                    if old(self).root.has(k) {
                        self.root.lemma_has_child(0, k);
                    }
                }
            }
            self.root.split_child(self.min_keys, self.max_keys, 0);
        }
        let ghost grown = self.root;
        assert(forall|k: T| grown.has(k) <==> old(self).root.has(k));
        // Walk down the tree
        let mut node = &mut self.root;
        loop
            invariant
                self.size == old(self).size,
                self.min_keys == min,
                self.max_keys == max,
                node.balanced(min, max),
                node.ordered(),
                node.keys@.len() < max,
                forall|r: bool|
                    Node::inserted(*node, *final(node), min, val, r) ==> Node::inserted(
                        grown,
                        after_borrow(self.root),
                        min,
                        val,
                        r,
                    ),
            decreases node.height(),
        {
            let ghost entered = *node;
            let (found, mut index) = node.search(&val);
            if found {
                // the key is in the tree already
                proof {
                    entered.lemma_has_key(index as int);
                    assert(Node::inserted(entered, *node, min, val, false));
                    Self::lemma_inserted(*old(self), grown, self.root, self.size as int, val, false);
                }
                return false;
            } else if node.is_leaf() {
                node.keys.insert(index, val);
                self.size += 1;
                proof {
                    Node::lemma_leaf_insert(entered, *node, index as int, val);
                    assert(Node::inserted(entered, *node, min, val, true));
                    Self::lemma_inserted(*old(self), grown, self.root, self.size as int, val, true);
                }
                return true;
            } else {
                proof {
                    entered.lemma_only_child(index as int, val);
                }
                if node.children[index].keys.len() == self.max_keys {
                    node.split_child(self.min_keys, self.max_keys, index);
                    match rank(&val, &node.keys[index]) {
                        Rank::Equal => {
                            proof {
                                node.lemma_has_key(index as int);
                                assert(Node::inserted(entered, *node, min, val, false));
                                Self::lemma_inserted(
                                    *old(self),
                                    grown,
                                    self.root,
                                    self.size as int,
                                    val,
                                    false,
                                );
                            }
                            return false;
                        },
                        Rank::Greater => {
                            index += 1;
                        },
                        Rank::Less => {},
                    }
                    proof {
                        node.lemma_only_child(index as int, val);
                    }
                }
                let ghost mid = *node;
                let ghost above = *final(node);
                assert(mid.children@[index as int].balanced(min, max));
                node = &mut node.children[index];
                proof {
                    assert forall|r: bool|
                        Node::inserted(*node, *final(node), min, val, r) implies Node::inserted(
                        grown,
                        after_borrow(self.root),
                        min,
                        val,
                        r,
                    ) by {
                        Node::lemma_child_same_shape(mid, above, index as int, min, max);
                        Node::lemma_child_gained(mid, above, index as int, val);
                        assert(Node::inserted(entered, above, min, val, r));
                    }
                }
            }
        }
    }

    /// Takes `val` out of the keys. Returns `false`, and leaves the keys as
    /// they were, where `val` is none of them. A root left without keys above
    /// a single child gives way to that child, which is the one way in which
    /// the tree loses a level.
    pub fn remove(&mut self, val: &T) -> (r: bool)
        requires
            total_order::<T>(),
            old(self).wf(),
        ensures
            final(self).wf(),
            final(self).degree() == old(self).degree(),
            ascending(final(self)@),
            r == old(self)@.contains(*val),
            final(self)@.to_set() == old(self)@.to_set().remove(*val),
            final(self)@.len() + if r {
                1nat
            } else {
                0nat
            } == old(self)@.len(),
            !r ==> final(self)@ == old(self)@,
            final(self).spec_height() == old(self).spec_height() || final(self).spec_height() + 1
                == old(self).spec_height(),
    {
        let result = self.remove_sub(val);
        if result {
            self.size -= 1;
        }
        if self.root.keys.is_empty() && !self.root.is_leaf() {
            let ghost top = self.root;
            let child = self.root.children.pop().unwrap();
            self.root = *child;
            proof {
                assert(top.children@[0] == self.root);
                assert(top.walk_to(0) =~= Seq::<T>::empty());
                assert(top.walk() =~= self.root.walk());
            }
        }
        result
    }

    /// What a removal makes of the tree `before`: the root `after`.
    proof fn lemma_removed(before: Self, after: Node<T>, val: T, r: bool)
        requires
            total_order::<T>(),
            before.wf(),
            Node::removed(before.root, after, before.min_keys as int, val, r),
        ensures
            ascending(after.walk()),
            r == before@.contains(val),
            after.walk().to_set() == before@.to_set().remove(val),
            after.walk().len() + if r {
                1nat
            } else {
                0nat
            } == before@.len(),
            !r ==> after.walk() == before@,
    {
        let min = before.min_keys as int;
        let max = before.max_keys as int;
        before.root.lemma_walk(min, max);
        after.lemma_walk(min, max);
        let a = before@;
        let b = after.walk();
        assert forall|k: T| b.contains(k) <==> a.contains(k) && k != val by {
            assert(b.contains(k) <==> after.has(k));
            assert(a.contains(k) <==> before.root.has(k));
        }
        if r {
            lemma_ascending_lost(a, b, val);
        } else {
            lemma_ascending_unique(a, b);
            assert(a.to_set() =~= a.to_set().remove(val));
        }
    }

    /// The first half of `remove`: takes `val` out of the keys, but neither
    /// counts the keys anew nor lets go of a root that was left without keys
    /// above a single child. The tree stays balanced; until `remove` has done
    /// the rest it need not be well-formed. On the way down every node that
    /// is entered is first seen to hold more than the least number of keys.
    #[verifier::loop_isolation(false)]
    pub fn remove_sub(&mut self, val: &T) -> (r: bool)
        requires
            total_order::<T>(),
            old(self).wf(),
        ensures
            final(self).balanced(),
            final(self).degree() == old(self).degree(),
            final(self).spec_height() == old(self).spec_height(),
            final(self).counted() == old(self).counted(),
            ascending(final(self)@),
            r == old(self)@.contains(*val),
            final(self)@.to_set() == old(self)@.to_set().remove(*val),
            final(self)@.len() + if r {
                1nat
            } else {
                0nat
            } == old(self)@.len(),
            !r ==> final(self)@ == old(self)@,
    {
        let ghost min = self.min_keys as int;
        let ghost max = self.max_keys as int;
        let ghost top = self.root;
        let (mut found, mut index) = self.root.search(val);
        let mut node = &mut self.root;
        loop
            invariant
                self.size == old(self).size,
                self.min_keys == min,
                self.max_keys == max,
                node.balanced(min, max),
                node.ordered(),
                node.leaf() || node.keys@.len() >= 1,
                index <= node.keys@.len(),
                found ==> index < node.keys@.len() && node.keys@[index as int] == *val,
                !found ==> !node.keys@.contains(*val) && node.between(index as int, *val),
                forall|r: bool|
                    Node::removed(*node, *final(node), min, *val, r) ==> Node::removed(
                        top,
                        after_borrow(self.root),
                        min,
                        *val,
                        r,
                    ),
            decreases node.height(),
        {
            let ghost entered = *node;
            if node.is_leaf() {
                if found {
                    // take the key out of this leaf
                    node.keys.remove(index);
                    proof {
                        Node::lemma_leaf_remove(entered, *node, index as int);
                        entered.lemma_has_key(index as int);
                    }
                }
                proof {
                    assert(Node::removed(entered, *node, min, *val, found));
                    Self::lemma_removed(*old(self), self.root, *val, found);
                }
                return found;
            } else {
                if found {
                    // the key stands in this node
                    proof {
                        entered.lemma_has_key(index as int);
                        assert(entered.children@[index as int].balanced(min, max));
                        assert(entered.children@[index as int + 1].balanced(min, max));
                    }
                    if node.children[index].keys.len() > self.min_keys {
                        // the greatest key before it takes its place
                        let x = node.children[index].remove_max(self.min_keys);
                        node.keys[index] = x;
                        proof {
                            Node::lemma_child_same_shape(entered, *node, index as int, min, max);
                            Node::lemma_key_replaced(entered, *node, index as int, index as int, x);
                            assert(Node::removed(entered, *node, min, *val, true));
                            Self::lemma_removed(*old(self), self.root, *val, true);
                        }
                        return true;
                    } else if node.children[index + 1].keys.len() > self.min_keys {
                        // the least key after it takes its place
                        let x = node.children[index + 1].remove_min(self.min_keys);
                        node.keys[index] = x;
                        proof {
                            Node::lemma_child_same_shape(entered, *node, index as int + 1, min, max);
                            Node::lemma_key_replaced(
                                entered,
                                *node,
                                index as int,
                                index as int + 1,
                                x,
                            );
                            assert(Node::removed(entered, *node, min, *val, true));
                            Self::lemma_removed(*old(self), self.root, *val, true);
                        }
                        return true;
                    } else {
                        // the key and the child after it go into the child
                        // before it, where the key is then looked for
                        node.merge_children(self.min_keys, index);
                        let ghost mid = *node;
                        let ghost above = *final(node);
                        proof {
                            assert(mid.children@[index as int].balanced(min, max));
                            assert(mid.children@[index as int].ordered());
                            assert(mid.children@[index as int].keys@[min] == *val);
                            mid.children@[index as int].lemma_has_key(min);
                            assert(mid.between(index as int, *val));
                        }
                        node = &mut node.children[index];
                        proof {
                            assert forall|r: bool|
                                Node::removed(*node, *final(node), min, *val, r) implies Node::removed(
                                top,
                                after_borrow(self.root),
                                min,
                                *val,
                                r,
                            ) by {
                                Node::lemma_child_same_shape(mid, above, index as int, min, max);
                                Node::lemma_child_lost(mid, above, index as int, *val);
                                assert(Node::removed(entered, above, min, *val, r));
                            }
                        }
                        index = self.min_keys;
                    }
                } else {
                    // the key may stand below some child
                    let ghost above = *final(node);
                    node = node.ensure_child_remove(self.min_keys, index);
                    proof {
                        let (mid, at) = choose|q: Node<T>, at: int|
                            {
                                &&& #[trigger] Node::child_made_removable(
                                    entered,
                                    q,
                                    min,
                                    index as int,
                                    at,
                                )
                                &&& *node == *q.children@[at]
                                &&& above.keys@ == q.keys@
                                &&& above.children@ == q.children@.update(
                                    at,
                                    Box::new(*final(node)),
                                )
                            };
                        assert(mid.children@[at].balanced(min, max));
                        assert(mid.children@[at].ordered());
                        mid.lemma_only_child(at, *val);
                        entered.lemma_only_child(index as int, *val);
                        assert forall|r: bool|
                            Node::removed(*node, *final(node), min, *val, r) implies Node::removed(
                            top,
                            after_borrow(self.root),
                            min,
                            *val,
                            r,
                        ) by {
                            Node::lemma_child_same_shape(mid, above, at, min, max);
                            Node::lemma_child_lost(mid, above, at, *val);
                            assert(Node::removed(entered, above, min, *val, r));
                        }
                    }
                    let (f, i) = node.search(val);
                    found = f;
                    index = i;
                }
            }
        }
    }

    /// The number of levels below the root: 0 for a tree that is one leaf.
    pub fn height(&self) -> (h: usize)
        requires
            self.wf(),
        ensures
            h == self.spec_height(),
    {
        proof {
            self.lemma_wf();
        }
        let mut node: &Node<T> = &self.root;
        let mut h: usize = 0;
        while !node.is_leaf()
            invariant
                node.balanced(self.min_keys as int, self.max_keys as int),
                h + node.height() == self.root.height(),
                self.root.height() <= usize::MAX,
            decreases node.height(),
        {
            node = &node.children[0];
            h += 1;
        }
        h
    }

    /// Walks the whole tree and says whether it has its shape, with a height
    /// that fits the machine's word. Of a well-formed tree this is true.
    pub fn is_balanced(&self) -> (r: bool)
        ensures
            r == (self.shaped() && self.spec_height() <= usize::MAX),
            self.wf() ==> r,
    {
        proof {
            if self.wf() {
                self.lemma_wf();
            }
        }
        if self.min_keys < 1 || self.max_keys / 2 != self.min_keys || self.max_keys % 2 != 1 {
            return false;
        }
        let mut node: &Node<T> = &self.root;
        let mut h: usize = 0;
        while !node.is_leaf()
            invariant
                h + node.height() == self.root.height(),
                self.wf() ==> self.root.height() <= usize::MAX,
            decreases node.height(),
        {
            if h == usize::MAX {
                return false;
            }
            node = &node.children[0];
            h += 1;
        }
        self.root.check_at(self.min_keys, self.max_keys, h)
    }
}

impl<T: Clone> Btree<T> {
    /// `r` is a tree of the same degree and shape that holds, place by
    /// place, a clone of each key of `self`.
    pub closed spec fn copied(self, r: Self) -> bool {
        &&& self.root.copied(r.root)
        &&& r.size == self.size
        &&& r.min_keys == self.min_keys
        &&& r.max_keys == self.max_keys
    }
}

impl<T: Clone + Ord> Btree<T> {
    /// A copy of a tree has its degree and its height, and the keys of the
    /// copy are clones of its keys. Where a clone of a key is that key, the
    /// copy is well-formed if the tree is.
    pub proof fn lemma_copied(self, r: Self)
        requires
            self.copied(r),
        ensures
            r.degree() == self.degree(),
            r.spec_height() == self.spec_height(),
            r.counted() == self.counted(),
            clones_of(self@, r@),
            self.shaped() ==> r.shaped(),
            faithful::<T>() ==> r@ == self@,
            faithful::<T>() && self.balanced() ==> r.balanced(),
            faithful::<T>() && self.wf() ==> r.wf(),
    {
        self.root.lemma_copied_shape(r.root, self.min_keys as int, self.max_keys as int);
        self.root.lemma_copied_walk(r.root);
        if faithful::<T>() {
            self.root.lemma_copied_keys(r.root);
            assert(r@ =~= self@);
        }
    }
}

impl<T: Clone> Clone for Btree<T> {
    /// A tree of the same shape that holds a clone of each key.
    fn clone(&self) -> (r: Self)
        ensures
            self.copied(r),
    {
        Btree {
            root: self.root.clone(),
            size: self.size,
            min_keys: self.min_keys,
            max_keys: self.max_keys,
        }
    }
}

/// `remove` twice in a row: where the key was there, the first call says so
/// and the second finds it gone and changes nothing. `a`, `b` and `c` are the
/// keys before the first call, between the two and after the second; `r1` and
/// `r2` are what the calls return.
pub proof fn lemma_remove_twice<T: Ord>(a: Seq<T>, b: Seq<T>, c: Seq<T>, v: T, r1: bool, r2: bool)
    requires
        a.contains(v),
        r1 == a.contains(v),
        b.to_set() == a.to_set().remove(v),
        r2 == b.contains(v),
        !r2 ==> c == b,
    ensures
        r1,
        !r2,
        c == b,
{
    assert(b.contains(v) <==> b.to_set().contains(v));
}

/// `insert` of a key that is there returns `false` and changes neither the
/// keys nor their number. `a` and `b` are the keys before and after the call
/// and `r` is what it returns.
pub proof fn lemma_insert_present<T: Ord>(a: Seq<T>, b: Seq<T>, v: T, r: bool)
    requires
        a.contains(v),
        r == !a.contains(v),
        !r ==> b == a,
    ensures
        !r,
        b == a,
        b.len() == a.len(),
{
}

/// A change of the keys of a tree: an insertion or a removal of a key.
pub enum Change<T> {
    Insert(T),
    Remove(T),
}

/// The keys after each of `changes` was made in turn to a tree whose keys
/// were `s`.
pub open spec fn changed<T>(s: Set<T>, changes: Seq<Change<T>>) -> Set<T>
    decreases changes.len(),
{
    if changes.len() == 0 {
        s
    } else {
        match changes.last() {
            Change::Insert(k) => changed(s, changes.drop_last()).insert(k),
            Change::Remove(k) => changed(s, changes.drop_last()).remove(k),
        }
    }
}

/// `k` was inserted by `changes` and not removed afterwards.
pub open spec fn last_inserted<T>(changes: Seq<Change<T>>, k: T) -> bool {
    exists|i: int|
        0 <= i < changes.len() && #[trigger] changes[i] == Change::Insert(k) && forall|j: int|
            i < j < changes.len() ==> #[trigger] changes[j] != Change::Remove(k)
}

/// `k` was not removed by `changes`.
pub open spec fn never_removed<T>(changes: Seq<Change<T>>, k: T) -> bool {
    forall|j: int| 0 <= j < changes.len() ==> #[trigger] changes[j] != Change::Remove(k)
}

/// After any insertions and removals a tree holds the keys that were
/// inserted and not removed afterwards, and those that it held before and
/// that were not removed.
pub proof fn lemma_changed<T>(s: Set<T>, changes: Seq<Change<T>>, k: T)
    ensures
        changed(s, changes).contains(k) <==> last_inserted(changes, k) || (s.contains(k)
            && never_removed(changes, k)),
    decreases changes.len(),
{
    if changes.len() > 0 {
        let n = changes.len() - 1;
        let init = changes.drop_last();
        lemma_changed(s, init, k);
        if last_inserted(init, k) {
            let i = choose|i: int|
                0 <= i < init.len() && #[trigger] init[i] == Change::Insert(k) && forall|j: int|
                    i < j < init.len() ==> #[trigger] init[j] != Change::Remove(k);
            assert(changes[i] == init[i]);
            if changes[n] != Change::Remove(k) {
                assert forall|j: int| i < j < changes.len() implies #[trigger] changes[j]
                    != Change::Remove(k) by {
                    if j < n {
                        assert(init[j] == changes[j]);
                    }
                }
            }
        }
        if last_inserted(changes, k) {
            let i = choose|i: int|
                0 <= i < changes.len() && #[trigger] changes[i] == Change::Insert(k) && forall|j: int|
                    i < j < changes.len() ==> #[trigger] changes[j] != Change::Remove(k);
            if i < n {
                assert(init[i] == changes[i]);
                assert forall|j: int| i < j < init.len() implies #[trigger] init[j]
                    != Change::Remove(k) by {
                    assert(init[j] == changes[j]);
                }
                assert(changes[n] != Change::Remove(k));
            }
        }
        if never_removed(init, k) && changes[n] != Change::Remove(k) {
            assert forall|j: int| 0 <= j < changes.len() implies #[trigger] changes[j]
                != Change::Remove(k) by {
                if j < n {
                    assert(init[j] == changes[j]);
                }
            }
        }
        if never_removed(changes, k) {
            assert forall|j: int| 0 <= j < init.len() implies #[trigger] init[j] != Change::Remove(
                k,
            ) by {
                assert(init[j] == changes[j]);
            }
            assert(changes[n] != Change::Remove(k));
        }
        if changes[n] == Change::Insert(k) {
            assert(last_inserted(changes, k));
        }
    }
}

/// The keys after each of `keys` was inserted in turn into a tree whose keys
/// were `s`.
pub open spec fn insert_all<T>(s: Set<T>, keys: Seq<T>) -> Set<T>
    decreases keys.len(),
{
    if keys.len() == 0 {
        s
    } else {
        insert_all(s, keys.drop_last()).insert(keys.last())
    }
}

/// The keys after each of `keys` was removed in turn from a tree whose keys
/// were `s`.
pub open spec fn remove_all<T>(s: Set<T>, keys: Seq<T>) -> Set<T>
    decreases keys.len(),
{
    if keys.len() == 0 {
        s
    } else {
        remove_all(s, keys.drop_last()).remove(keys.last())
    }
}

/// After the insertions the tree holds the keys it held and those inserted.
pub proof fn lemma_insert_all<T>(s: Set<T>, keys: Seq<T>)
    ensures
        forall|k: T| insert_all(s, keys).contains(k) <==> s.contains(k) || keys.contains(k),
    decreases keys.len(),
{
    if keys.len() > 0 {
        let init = keys.drop_last();
        lemma_insert_all(s, init);
        assert forall|k: T| insert_all(s, keys).contains(k) <==> s.contains(k) || keys.contains(
            k,
        ) by {
            if init.contains(k) {
                let i = choose|i: int| 0 <= i < init.len() && init[i] == k;
                assert(keys[i] == k);
            }
            if keys.contains(k) {
                let i = choose|i: int| 0 <= i < keys.len() && keys[i] == k;
                if i < init.len() {
                    assert(init[i] == k);
                }
            }
        }
    }
}

/// After the removals the tree holds the keys it held but those removed.
pub proof fn lemma_remove_all<T>(s: Set<T>, keys: Seq<T>)
    ensures
        forall|k: T| remove_all(s, keys).contains(k) <==> s.contains(k) && !keys.contains(k),
    decreases keys.len(),
{
    if keys.len() > 0 {
        let init = keys.drop_last();
        lemma_remove_all(s, init);
        assert forall|k: T| remove_all(s, keys).contains(k) <==> s.contains(k) && !keys.contains(
            k,
        ) by {
            if init.contains(k) {
                let i = choose|i: int| 0 <= i < init.len() && init[i] == k;
                assert(keys[i] == k);
            }
            if keys.contains(k) {
                let i = choose|i: int| 0 <= i < keys.len() && keys[i] == k;
                if i < init.len() {
                    assert(init[i] == k);
                }
            }
        }
    }
}

/// Keys inserted into an empty tree, in any order, and then removed, in any
/// order, leave no key behind.
pub proof fn lemma_round_trip<T>(inserted: Seq<T>, removed: Seq<T>)
    requires
        forall|k: T| inserted.contains(k) ==> removed.contains(k),
    ensures
        remove_all(insert_all(Set::empty(), inserted), removed) == Set::<T>::empty(),
{
    lemma_insert_all(Set::<T>::empty(), inserted);
    lemma_remove_all(insert_all(Set::empty(), inserted), removed);
    assert(remove_all(insert_all(Set::empty(), inserted), removed) =~= Set::<T>::empty());
}

/// A tree whose traversal holds no key is empty: its length is 0.
pub proof fn lemma_no_keys<T>(s: Seq<T>)
    requires
        s.to_set() == Set::<T>::empty(),
    ensures
        s.len() == 0,
{
    if s.len() > 0 {
        assert(s.contains(s[0]));
        assert(s.to_set().contains(s[0]));
    }
}

} // verus!
