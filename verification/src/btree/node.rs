use crate::order::{ascending, lt, rank, total_order, Rank};
use vstd::prelude::*;

verus! {

/// A node of the tree: its keys in ascending order and, unless it is a leaf,
/// one child more than it has keys.
pub struct Node<T> {
    pub keys: Vec<T>,
    pub children: Vec<Box<Node<T>>>,
}

impl<T: Ord> Node<T> {
    /// The node has no children.
    pub open spec fn leaf(self) -> bool {
        self.children@.len() == 0
    }

    /// The number of levels below this node, counted along its first children.
    pub open spec fn height(self) -> nat
        decreases self,
    {
        if self.children@.len() == 0 {
            0
        } else {
            1 + self.children@[0].height()
        }
    }

    /// The shape of a subtree: no node holds more than `max` keys, every node
    /// below this one holds at least `min`, an internal node has one child more
    /// than keys, and the children of one node all have the same height.
    pub open spec fn balanced(self, min: int, max: int) -> bool
        decreases self,
    {
        &&& self.keys@.len() <= max
        &&& (self.children@.len() == 0 || self.children@.len() == self.keys@.len() + 1)
        &&& forall|i: int|
            0 <= i < self.children@.len() ==> {
                &&& (#[trigger] self.children@[i]).keys@.len() >= min
                &&& self.children@[i].balanced(min, max)
                &&& self.children@[i].height() + 1 == self.height()
            }
    }

    /// `k` is one of the keys of this subtree.
    pub open spec fn has(self, k: T) -> bool
        decreases self,
    {
        self.keys@.contains(k) || exists|i: int|
            0 <= i < self.children@.len() && (#[trigger] self.children@[i]).has(k)
    }

    /// The search order: the keys of a node ascend, and the keys of its `i`-th
    /// child lie strictly between its keys `i - 1` and `i`.
    pub open spec fn ordered(self) -> bool
        decreases self,
    {
        &&& ascending(self.keys@)
        &&& forall|i: int|
            0 <= i < self.children@.len() ==> (#[trigger] self.children@[i]).ordered()
        &&& forall|i: int, k: T|
            0 <= i < self.children@.len() && #[trigger] self.children@[i].has(k) ==> {
                &&& i < self.keys@.len() ==> lt(k, self.keys@[i])
                &&& 0 < i <= self.keys@.len() ==> lt(self.keys@[i - 1], k)
            }
    }

    /// A key of a node is a key of its subtree.
    pub proof fn lemma_has_key(self, j: int)
        requires
            0 <= j < self.keys@.len(),
        ensures
            self.has(self.keys@[j]),
    {
    }

    /// A key below a child is a key of the subtree.
    pub proof fn lemma_has_child(self, i: int, k: T)
        requires
            0 <= i < self.children@.len(),
            self.children@[i].has(k),
        ensures
            self.has(k),
    {
    }

    /// A key whose place among the keys of `self` is child `i` is found in that
    /// child or nowhere in the subtree.
    pub open spec fn between(self, i: int, k: T) -> bool {
        &&& i < self.keys@.len() ==> lt(k, self.keys@[i])
        &&& 0 < i <= self.keys@.len() ==> lt(self.keys@[i - 1], k)
    }

    /// A key that belongs below child `i` is none of the keys of the node and
    /// stands below no other child.
    pub proof fn lemma_only_child(self, i: int, k: T)
        requires
            total_order::<T>(),
            self.ordered(),
            self.children@.len() == self.keys@.len() + 1,
            0 <= i < self.children@.len(),
            self.between(i, k),
        ensures
            !self.keys@.contains(k),
            forall|j: int|
                0 <= j < self.children@.len() && j != i ==> !(#[trigger] self.children@[j]).has(k),
            self.has(k) <==> self.children@[i].has(k),
    {
        assert forall|j: int| 0 <= j < self.keys@.len() implies self.keys@[j] != k by {
            if j < i {
                if j < i - 1 {
                    assert(lt(self.keys@[j], self.keys@[i - 1]));
                }
                assert(lt(self.keys@[j], k));
            } else {
                if j > i {
                    assert(lt(self.keys@[i], self.keys@[j]));
                }
                assert(lt(k, self.keys@[j]));
            }
        }
        assert forall|j: int| 0 <= j < self.children@.len() && j != i implies !(
        #[trigger] self.children@[j]).has(k) by {
            if self.children@[j].has(k) {
                if j < i {
                    assert(lt(k, self.keys@[j]));
                    if j < i - 1 {
                        assert(lt(self.keys@[j], self.keys@[i - 1]));
                    }
                    assert(lt(self.keys@[j], k));
                } else {
                    assert(lt(self.keys@[j - 1], k));
                    if j - 1 > i {
                        assert(lt(self.keys@[i], self.keys@[j - 1]));
                    }
                    assert(lt(k, self.keys@[j - 1]));
                }
            }
        }
    }

    /// Replacing child `i` by a balanced node of the same height that holds
    /// keys enough leaves the node balanced and as high as it was.
    pub proof fn lemma_child_same_shape(p: Self, q: Self, i: int, min: int, max: int)
        requires
            p.balanced(min, max),
            0 <= i < p.children@.len(),
            q.keys@.len() == p.keys@.len(),
            q.children@ == p.children@.update(i, q.children@[i]),
            q.children@[i].balanced(min, max),
            q.children@[i].height() == p.children@[i].height(),
            q.children@[i].keys@.len() >= min,
        ensures
            q.balanced(min, max),
            q.height() == p.height(),
    {
        assert(q.height() == p.height()) by {
            if i != 0 {
                assert(q.children@[0] == p.children@[0]);
            }
        }
        assert forall|j: int| 0 <= j < q.children@.len() implies {
            &&& (#[trigger] q.children@[j]).keys@.len() >= min
            &&& q.children@[j].balanced(min, max)
            &&& q.children@[j].height() + 1 == q.height()
        } by {
            if j != i {
                assert(q.children@[j] == p.children@[j]);
            }
        }
    }

    /// An empty leaf.
    pub fn new() -> (r: Self)
        ensures
            r.keys@.len() == 0,
            r.children@.len() == 0,
    {
        Node { keys: Vec::new(), children: Vec::new() }
    }

    /// Whether the node has no children.
    pub fn is_leaf(&self) -> (r: bool)
        ensures
            r == self.leaf(),
    {
        self.children.is_empty()
    }

    /// Looks for `val` among the keys of this node: `(true, i)` where key `i`
    /// is `val`, else `(false, i)` where child `i` is the one to search.
    pub fn search(&self, val: &T) -> (r: (bool, usize))
        requires
            total_order::<T>(),
            ascending(self.keys@),
        ensures
            r.1 <= self.keys@.len(),
            r.0 ==> r.1 < self.keys@.len() && self.keys@[r.1 as int] == *val,
            !r.0 ==> !self.keys@.contains(*val),
            forall|j: int| 0 <= j < r.1 ==> lt(#[trigger] self.keys@[j], *val),
            forall|j: int|
                r.1 <= j < self.keys@.len() && !(r.0 && j == r.1) ==> lt(
                    *val,
                    #[trigger] self.keys@[j],
                ),
            !r.0 ==> self.between(r.1 as int, *val),
    {
        let mut i: usize = 0;
        while i < self.keys.len()
            invariant
                total_order::<T>(),
                ascending(self.keys@),
                i <= self.keys@.len(),
                forall|j: int| 0 <= j < i ==> lt(#[trigger] self.keys@[j], *val),
            decreases self.keys@.len() - i,
        {
            match rank(val, &self.keys[i]) {
                Rank::Equal => {
                    return (true, i);
                },
                Rank::Greater => {
                    i += 1;
                },
                Rank::Less => {
                    return (false, i);
                },
            }
        }
        (false, i)
    }

    /// Splits the full child at `index`: its upper keys and children move to a
    /// new right sibling and its middle key moves up into this node.
    pub fn split_child(&mut self, min_keys: usize, max_keys: usize, index: usize)
        requires
            total_order::<T>(),
            min_keys >= 1,
            max_keys == 2 * min_keys + 1,
            old(self).balanced(min_keys as int, max_keys as int),
            old(self).ordered(),
            !old(self).leaf(),
            old(self).keys@.len() < max_keys,
            index <= old(self).keys@.len(),
            old(self).children@[index as int].keys@.len() == max_keys,
        ensures
            Self::split_of(*old(self), *final(self), index as int, min_keys as int),
            final(self).balanced(min_keys as int, max_keys as int),
            final(self).ordered(),
            final(self).height() == old(self).height(),
            final(self).keys@.len() == old(self).keys@.len() + 1,
            final(self).children@[index as int].keys@.len() == min_keys,
            final(self).children@[index as int + 1].keys@.len() == min_keys,
            forall|k: T| final(self).has(k) <==> old(self).has(k),
    {
        assert(old(self).children@[index as int].balanced(min_keys as int, max_keys as int));
        let left = &mut self.children[index];
        let mut right = Node::new();
        if !left.is_leaf() {
            right.children = left.children.split_off(min_keys + 1);
        }
        right.keys = left.keys.split_off(min_keys + 1);
        let middle_key = left.keys.pop().unwrap();
        self.keys.insert(index, middle_key);
        self.children.insert(index + 1, Box::new(right));
        proof {
            let p = *old(self);
            let q = *self;
            assert(q.children@[index as int].keys@ =~= p.children@[index as int].keys@.subrange(
                0,
                min_keys as int,
            ));
            assert(Self::split_of(p, q, index as int, min_keys as int));
            Self::lemma_split_shape(p, q, index as int, min_keys as int, max_keys as int);
            Self::lemma_split_has(p, q, index as int, min_keys as int, max_keys as int);
            Self::lemma_split_ordered(p, q, index as int, min_keys as int, max_keys as int);
        }
    }

    /// `q` is `p` after the insertion of `val`, which was not there if and
    /// only if `r`: of the same shape and height, with `val` among its keys.
    pub open spec fn inserted(p: Self, q: Self, min: int, val: T, r: bool) -> bool {
        &&& q.balanced(min, 2 * min + 1)
        &&& q.ordered()
        &&& q.height() == p.height()
        &&& q.keys@.len() >= p.keys@.len()
        &&& r == !p.has(val)
        &&& forall|k: T| q.has(k) <==> p.has(k) || k == val
    }

    /// Folds key `index` and the child after it into the child at `index`;
    /// both children hold the least number of keys.
    pub fn merge_children(&mut self, min_keys: usize, index: usize)
        requires
            total_order::<T>(),
            min_keys >= 1,
            old(self).balanced(min_keys as int, 2 * min_keys + 1),
            old(self).ordered(),
            !old(self).leaf(),
            index < old(self).keys@.len(),
            old(self).children@[index as int].keys@.len() == min_keys,
            old(self).children@[index as int + 1].keys@.len() == min_keys,
        ensures
            Self::merge_of(*old(self), *final(self), index as int),
            final(self).balanced(min_keys as int, 2 * min_keys + 1),
            final(self).ordered(),
            final(self).height() == old(self).height(),
            final(self).keys@.len() + 1 == old(self).keys@.len(),
            final(self).children@[index as int].keys@.len() == 2 * min_keys + 1,
            forall|k: T| final(self).has(k) <==> old(self).has(k),
            forall|k: T|
                final(self).children@[index as int].has(k) <==> (old(self).children@[index as int].has(
                    k,
                ) || k == old(self).keys@[index as int] || old(self).children@[index as int
                    + 1].has(k)),
            forall|v: T|
                old(self).between(index as int, v) || old(self).between(index as int + 1, v)
                    ==> final(self).between(index as int, v),
    {
        let ghost p = *self;
        let ghost min = min_keys as int;
        let ghost max = 2 * min_keys + 1;
        proof {
            assert(p.children@[index as int].balanced(min, max));
            assert(p.children@[index as int + 1].balanced(min, max));
            assert(p.children@[index as int].height() == p.children@[index as int + 1].height());
        }
        assert(index < self.keys.len());
        let middle_key = self.keys.remove(index);
        let mut right = self.children.remove(index + 1);
        let left = &mut self.children[index];
        if !left.is_leaf() {
            left.children.append(&mut right.children);
        }
        left.keys.push(middle_key);
        left.keys.append(&mut right.keys);
        proof {
            let q = *self;
            assert(q.children@[index as int].children@ =~= p.children@[index as int].children@
                + p.children@[index as int + 1].children@);
            assert(Self::merge_of(p, q, index as int));
            Self::lemma_merge_shape(p, q, index as int, min, max);
            Self::lemma_merge_has(p, q, index as int, min, max);
            Self::lemma_merge_ordered(p, q, index as int, min, max);
        }
    }

    /// What `ensure_child_remove` makes of `p` for its child `index`, giving
    /// `q` and the place `at` of the child: nothing where the child holds more
    /// than `min` keys; else a key borrowed from the left sibling where that
    /// holds more than `min`, else from the right sibling where that does;
    /// else the child merged into the left sibling, or with the right one where
    /// there is none to the left.
    pub open spec fn made_removable(p: Self, q: Self, min: int, index: int, at: int) -> bool {
        let left = index >= 1;
        let right = index < p.keys@.len();
        if p.children@[index].keys@.len() > min {
            q == p && at == index
        } else if left && p.children@[index - 1].keys@.len() > min {
            Self::borrow_left_of(p, q, index) && at == index
        } else if right && p.children@[index + 1].keys@.len() > min {
            Self::borrow_right_of(p, q, index) && at == index
        } else if left {
            Self::merge_of(p, q, index - 1) && at == index - 1
        } else {
            Self::merge_of(p, q, index) && at == index
        }
    }

    /// What `ensure_child_remove` makes of `p` for its child `index` before it
    /// hands out the child, which then stands at `at`: the node `q`.
    pub open spec fn child_made_removable(p: Self, q: Self, min: int, index: int, at: int) -> bool {
        &&& Self::made_removable(p, q, min, index, at)
        &&& q.balanced(min, 2 * min + 1)
        &&& q.ordered()
        &&& q.height() == p.height()
        &&& forall|k: T| q.has(k) <==> p.has(k)
        &&& q.keys@.len() <= p.keys@.len() <= q.keys@.len() + 1
        &&& 0 <= at <= q.keys@.len()
        &&& (index == 0 ==> at == 0)
        &&& (index == p.keys@.len() ==> at == q.keys@.len())
        &&& q.children@[at].keys@.len() > min
        &&& forall|v: T| p.between(index, v) ==> q.between(at, v)
    }

    /// Sees to it that the child in which a key at child `index` is to be
    /// looked for holds more than the least number of keys, so that one can be
    /// taken from below it: by a key borrowed from a sibling through this node,
    /// or else by merging the child with a sibling. Returns that child, which
    /// then stands at `index` or one place before it.
    pub fn ensure_child_remove(&mut self, min_keys: usize, index: usize) -> (child: &mut Self)
        requires
            total_order::<T>(),
            min_keys >= 1,
            2 * min_keys + 1 <= usize::MAX,
            old(self).balanced(min_keys as int, 2 * min_keys + 1),
            old(self).ordered(),
            !old(self).leaf(),
            old(self).keys@.len() >= 1,
            index <= old(self).keys@.len(),
        ensures
            exists|q: Self, at: int|
                {
                    &&& #[trigger] Self::child_made_removable(
                        *old(self),
                        q,
                        min_keys as int,
                        index as int,
                        at,
                    )
                    &&& *child == *q.children@[at]
                    &&& final(self).keys@ == q.keys@
                    &&& final(self).children@ == q.children@.update(at, Box::new(*final(child)))
                },
    {
        let ghost p = *self;
        let ghost min = min_keys as int;
        let ghost max = 2 * min_keys + 1;
        let child_size = self.children[index].keys.len();
        // in this case the child stays as it is
        if child_size > min_keys {
            proof {
                assert(Self::child_made_removable(p, p, min, index as int, index as int));
            }
            return &mut self.children[index];
        }
        let is_internal = !self.children[index].is_leaf();
        let mut left_size: usize = 0;
        let mut right_size: usize = 0;
        if index >= 1 {
            left_size = self.children[index - 1].keys.len();
        }
        if index < self.keys.len() {
            right_size = self.children[index + 1].keys.len();
        }
        proof {
            assert(p.children@[index as int].balanced(min, max));
            if index >= 1 {
                assert(p.children@[index as int - 1].balanced(min, max));
                assert(p.children@[index as int - 1].height() == p.children@[index as int].height());
            }
            if index < p.keys@.len() {
                assert(p.children@[index as int + 1].balanced(min, max));
                assert(p.children@[index as int + 1].height() == p.children@[index as int].height());
            }
        }
        let mut at = index;
        if left_size > min_keys {
            // take the last key of the left sibling through this node
            if is_internal {
                let temp = self.children[index - 1].children.pop().unwrap();
                self.children[index].children.insert(0, temp);
            }
            let mut temp = self.children[index - 1].keys.pop().unwrap();
            core::mem::swap(&mut self.keys[index - 1], &mut temp);
            self.children[index].keys.insert(0, temp);
            proof {
                let q = *self;
                assert(Self::borrow_left_of(p, q, index as int));
                Self::lemma_borrow_left_shape(p, q, index as int, min, max);
                Self::lemma_borrow_left_has(p, q, index as int, min, max);
                Self::lemma_borrow_left_ordered(p, q, index as int, min, max);
            }
        } else if right_size > min_keys {
            // take the first key of the right sibling through this node
            if is_internal {
                let temp = self.children[index + 1].children.remove(0);
                self.children[index].children.push(temp);
            }
            let mut temp = self.children[index + 1].keys.remove(0);
            core::mem::swap(&mut self.keys[index], &mut temp);
            self.children[index].keys.push(temp);
            proof {
                let q = *self;
                assert(Self::borrow_right_of(p, q, index as int));
                Self::lemma_borrow_right_shape(p, q, index as int, min, max);
                Self::lemma_borrow_right_has(p, q, index as int, min, max);
                Self::lemma_borrow_right_ordered(p, q, index as int, min, max);
            }
        } else if left_size == min_keys {
            // merge the child into the left sibling
            self.merge_children(min_keys, index - 1);
            at = index - 1;
        } else {
            // merge the right sibling into the child
            self.merge_children(min_keys, index);
        }
        proof {
            assert(Self::child_made_removable(p, *self, min, index as int, at as int));
        }
        &mut self.children[at]
    }

    /// `q` is `p` without `r`, the least of its keys.
    pub open spec fn least_taken(p: Self, q: Self, min: int, r: T) -> bool {
        &&& q.balanced(min, 2 * min + 1)
        &&& q.ordered()
        &&& q.height() == p.height()
        &&& q.keys@.len() + 1 >= p.keys@.len()
        &&& p.has(r)
        &&& forall|k: T| p.has(k) ==> k == r || lt(r, k)
        &&& forall|k: T| q.has(k) <==> p.has(k) && k != r
    }

    /// `q` is `p` without `r`, the greatest of its keys.
    pub open spec fn greatest_taken(p: Self, q: Self, min: int, r: T) -> bool {
        &&& q.balanced(min, 2 * min + 1)
        &&& q.ordered()
        &&& q.height() == p.height()
        &&& q.keys@.len() + 1 >= p.keys@.len()
        &&& p.has(r)
        &&& forall|k: T| p.has(k) ==> k == r || lt(k, r)
        &&& forall|k: T| q.has(k) <==> p.has(k) && k != r
    }

    /// Takes the least key out of the subtree and returns it. On the way
    /// down to the first leaf every node that is entered is first seen to hold
    /// more than the least number of keys.
    pub fn remove_min(&mut self, min_keys: usize) -> (r: T)
        requires
            total_order::<T>(),
            min_keys >= 1,
            2 * min_keys + 1 <= usize::MAX,
            old(self).balanced(min_keys as int, 2 * min_keys + 1),
            old(self).ordered(),
            old(self).keys@.len() > min_keys,
        ensures
            Self::least_taken(*old(self), *final(self), min_keys as int, r),
    {
        let ghost min = min_keys as int;
        let mut node = self;
        loop
            invariant
                total_order::<T>(),
                min_keys >= 1,
                min == min_keys,
                2 * min_keys + 1 <= usize::MAX,
                node.balanced(min, 2 * min + 1),
                node.ordered(),
                node.keys@.len() > min_keys,
                forall|r: T|
                    Self::least_taken(*node, *final(node), min, r) ==> Self::least_taken(
                        *old(self),
                        *final(self),
                        min,
                        r,
                    ),
            decreases node.height(),
        {
            let ghost before = *node;
            if node.is_leaf() {
                let r = node.keys.remove(0);
                proof {
                    Self::lemma_leaf_remove(before, *node, 0);
                    before.lemma_has_key(0);
                    assert forall|k: T| before.has(k) implies k == r || lt(r, k) by {
                        let j = choose|j: int| 0 <= j < before.keys@.len() && before.keys@[j] == k;
                        if j > 0 {
                            assert(lt(before.keys@[0], before.keys@[j]));
                        }
                    }
                    assert(Self::least_taken(before, *node, min, r));
                }
                return r;
            } else {
                let ghost above = *final(node);
                node = node.ensure_child_remove(min_keys, 0);
                proof {
                    let (mid, at) = choose|q: Self, at: int|
                        {
                            &&& #[trigger] Self::child_made_removable(before, q, min, 0, at)
                            &&& *node == *q.children@[at]
                            &&& above.keys@ == q.keys@
                            &&& above.children@ == q.children@.update(at, Box::new(*final(node)))
                        };
                    assert(mid.children@[0].balanced(min, 2 * min + 1));
                    assert forall|r: T|
                        Self::least_taken(*node, *final(node), min, r) implies Self::least_taken(
                        *old(self),
                        *final(self),
                        min,
                        r,
                    ) by {
                        Self::lemma_child_same_shape(mid, above, 0, min, 2 * min + 1);
                        assert(mid.between(0, r));
                        Self::lemma_child_lost(mid, above, 0, r);
                        mid.lemma_has_child(0, r);
                        mid.lemma_least(r);
                        assert(Self::least_taken(before, above, min, r));
                    }
                }
            }
        }
    }

    /// Takes the greatest key out of the subtree and returns it. On the way
    /// down to the last leaf every node that is entered is first seen to hold
    /// more than the least number of keys.
    pub fn remove_max(&mut self, min_keys: usize) -> (r: T)
        requires
            total_order::<T>(),
            min_keys >= 1,
            2 * min_keys + 1 <= usize::MAX,
            old(self).balanced(min_keys as int, 2 * min_keys + 1),
            old(self).ordered(),
            old(self).keys@.len() > min_keys,
        ensures
            Self::greatest_taken(*old(self), *final(self), min_keys as int, r),
    {
        let ghost min = min_keys as int;
        let mut node = self;
        loop
            invariant
                total_order::<T>(),
                min_keys >= 1,
                min == min_keys,
                2 * min_keys + 1 <= usize::MAX,
                node.balanced(min, 2 * min + 1),
                node.ordered(),
                node.keys@.len() > min_keys,
                forall|r: T|
                    Self::greatest_taken(*node, *final(node), min, r) ==> Self::greatest_taken(
                        *old(self),
                        *final(self),
                        min,
                        r,
                    ),
            decreases node.height(),
        {
            let ghost before = *node;
            if node.is_leaf() {
                let ghost n = node.keys@.len() as int;
                let r = node.keys.pop().unwrap();
                proof {
                    assert(node.keys@ =~= before.keys@.remove(n - 1));
                    Self::lemma_leaf_remove(before, *node, n - 1);
                    before.lemma_has_key(n - 1);
                    assert forall|k: T| before.has(k) implies k == r || lt(k, r) by {
                        let j = choose|j: int| 0 <= j < before.keys@.len() && before.keys@[j] == k;
                        if j < n - 1 {
                            assert(lt(before.keys@[j], before.keys@[n - 1]));
                        }
                    }
                    assert(Self::greatest_taken(before, *node, min, r));
                }
                return r;
            } else {
                let end = node.children.len() - 1;
                let ghost above = *final(node);
                node = node.ensure_child_remove(min_keys, end);
                proof {
                    let (mid, at) = choose|q: Self, at: int|
                        {
                            &&& #[trigger] Self::child_made_removable(before, q, min, end as int, at)
                            &&& *node == *q.children@[at]
                            &&& above.keys@ == q.keys@
                            &&& above.children@ == q.children@.update(at, Box::new(*final(node)))
                        };
                    assert(mid.children@[at].balanced(min, 2 * min + 1));
                    assert forall|r: T|
                        Self::greatest_taken(*node, *final(node), min, r) implies Self::greatest_taken(
                        *old(self),
                        *final(self),
                        min,
                        r,
                    ) by {
                        Self::lemma_child_same_shape(mid, above, at, min, 2 * min + 1);
                        assert(mid.between(at, r));
                        Self::lemma_child_lost(mid, above, at, r);
                        mid.lemma_has_child(at, r);
                        assert(mid.children@.last() == mid.children@[at]);
                        mid.lemma_greatest(r);
                        assert(Self::greatest_taken(before, above, min, r));
                    }
                }
            }
        }
    }

    /// `q` is `p` after the removal of `val`, which was there if and only if
    /// `r`: of the same shape and height, without `val` among its keys.
    pub open spec fn removed(p: Self, q: Self, min: int, val: T, r: bool) -> bool {
        &&& q.balanced(min, 2 * min + 1)
        &&& q.ordered()
        &&& q.height() == p.height()
        &&& q.keys@.len() + 1 >= p.keys@.len()
        &&& r == p.has(val)
        &&& forall|k: T| q.has(k) <==> p.has(k) && k != val
    }

    /// Whether the subtree is balanced and `depth` levels lie below this node.
    pub fn check_at(&self, min_keys: usize, max_keys: usize, depth: usize) -> (r: bool)
        ensures
            r == (self.balanced(min_keys as int, max_keys as int) && self.height() == depth),
        decreases depth,
    {
        if self.keys.len() > max_keys {
            return false;
        }
        if self.children.len() == 0 {
            return depth == 0;
        }
        if depth == 0 || self.children.len() - 1 != self.keys.len() {
            return false;
        }
        let mut i: usize = 0;
        while i < self.children.len()
            invariant
                i <= self.children@.len(),
                depth > 0,
                forall|j: int|
                    0 <= j < i ==> {
                        &&& (#[trigger] self.children@[j]).keys@.len() >= min_keys
                        &&& self.children@[j].balanced(min_keys as int, max_keys as int)
                        &&& self.children@[j].height() == depth - 1
                    },
            decreases self.children@.len() - i,
        {
            let child = &self.children[i];
            if child.keys.len() < min_keys || !child.check_at(min_keys, max_keys, depth - 1) {
                return false;
            }
            i += 1;
        }
        true
    }
}

} // verus!
