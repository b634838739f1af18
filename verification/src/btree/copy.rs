use crate::btree::node::Node;
use crate::cloning::{clones_of, faithful};
use vstd::prelude::*;

verus! {

impl<T: Clone> Node<T> {
    /// `r` has the shape of `self` and holds, place by place, a clone of
    /// each of its keys.
    pub open spec fn copied(self, r: Self) -> bool
        decreases self,
    {
        &&& clones_of(self.keys@, r.keys@)
        &&& r.children@.len() == self.children@.len()
        &&& forall|i: int|
            0 <= i < self.children@.len() ==> (#[trigger] self.children@[i]).copied(
                *r.children@[i],
            )
    }
}

impl<T: Clone> Clone for Node<T> {
    fn clone(&self) -> (r: Self)
        ensures
            self.copied(r),
        decreases self,
    {
        let mut keys: Vec<T> = Vec::new();
        let mut i: usize = 0;
        while i < self.keys.len()
            invariant
                i <= self.keys@.len(),
                keys@.len() == i,
                forall|j: int| 0 <= j < i ==> cloned(#[trigger] self.keys@[j], keys@[j]),
            decreases self.keys@.len() - i,
        {
            keys.push(self.keys[i].clone());
            i += 1;
        }
        let mut children: Vec<Box<Node<T>>> = Vec::new();
        let mut i: usize = 0;
        while i < self.children.len()
            invariant
                i <= self.children@.len(),
                children@.len() == i,
                forall|j: int|
                    0 <= j < i ==> (#[trigger] self.children@[j]).copied(*children@[j]),
            decreases self.children@.len() - i,
        {
            let child: &Node<T> = &self.children[i];
            children.push(Box::new(child.clone()));
            i += 1;
        }
        Node { keys, children }
    }
}

impl<T: Clone + Ord> Node<T> {
    /// A copy of a subtree has its shape.
    pub proof fn lemma_copied_shape(self, r: Self, min: int, max: int)
        requires
            self.copied(r),
        ensures
            r.height() == self.height(),
            self.balanced(min, max) ==> r.balanced(min, max),
        decreases self,
    {
        if self.children@.len() > 0 {
            self.children@[0].lemma_copied_shape(*r.children@[0], min, max);
        }
        if self.balanced(min, max) {
            assert forall|i: int| 0 <= i < r.children@.len() implies {
                &&& (#[trigger] r.children@[i]).keys@.len() >= min
                &&& r.children@[i].balanced(min, max)
                &&& r.children@[i].height() + 1 == r.height()
            } by {
                assert(self.children@[i].copied(*r.children@[i]));
                self.children@[i].lemma_copied_shape(*r.children@[i], min, max);
            }
        }
    }

    /// The traversal of a copy of a subtree holds, place by place, a clone of
    /// what the traversal of the subtree holds.
    pub proof fn lemma_copied_walk(self, r: Self)
        requires
            self.copied(r),
        ensures
            clones_of(self.walk(), r.walk()),
        decreases self, self.keys@.len() + 1,
    {
        if self.children@.len() != 0 && self.children@.len() == self.keys@.len() + 1 {
            let n = self.keys@.len();
            self.lemma_copied_walk_to(r, n);
            assert(self.children@[n as int].copied(*r.children@[n as int]));
            self.children@[n as int].lemma_copied_walk(*r.children@[n as int]);
        }
    }

    /// The same of the part of the traversal that ends with key `n - 1`.
    pub proof fn lemma_copied_walk_to(self, r: Self, n: nat)
        requires
            self.copied(r),
        ensures
            clones_of(self.walk_to(n), r.walk_to(n)),
        decreases self, n,
    {
        if !(n == 0 || n > self.keys@.len() || n > self.children@.len()) {
            self.lemma_copied_walk_to(r, (n - 1) as nat);
            assert(self.children@[n - 1].copied(*r.children@[n - 1]));
            self.children@[n - 1].lemma_copied_walk(*r.children@[n - 1]);
            assert(cloned(self.keys@[n - 1], r.keys@[n - 1]));
        }
    }

    /// Where a clone of a key is that key, a copy of a subtree holds the keys
    /// of the subtree and is in the search order if the subtree is.
    pub proof fn lemma_copied_keys(self, r: Self)
        requires
            faithful::<T>(),
            self.copied(r),
        ensures
            forall|k: T| r.has(k) <==> self.has(k),
            self.ordered() ==> r.ordered(),
        decreases self,
    {
        assert(r.keys@ =~= self.keys@);
        assert forall|i: int| 0 <= i < self.children@.len() implies {
            &&& forall|k: T| (#[trigger] r.children@[i]).has(k) <==> self.children@[i].has(k)
            &&& self.children@[i].ordered() ==> r.children@[i].ordered()
        } by {
            assert(self.children@[i].copied(*r.children@[i]));
            self.children@[i].lemma_copied_keys(*r.children@[i]);
        }
        assert forall|k: T| r.has(k) <==> self.has(k) by {
            if r.has(k) && !r.keys@.contains(k) {
                let i = choose|i: int| 0 <= i < r.children@.len() && r.children@[i].has(k);
                assert(self.children@[i].has(k));
            }
            if self.has(k) && !self.keys@.contains(k) {
                let i = choose|i: int| 0 <= i < self.children@.len() && self.children@[i].has(k);
                assert(r.children@[i].has(k));
            }
        }
        if self.ordered() {
            assert forall|i: int| 0 <= i < r.children@.len() implies (
            #[trigger] r.children@[i]).ordered() by {
                assert(self.children@[i].ordered());
            }
            assert forall|i: int, k: T|
                0 <= i < r.children@.len() && #[trigger] r.children@[i].has(k) implies r.between(
                i,
                k,
            ) by {
                assert(self.children@[i].has(k));
                assert(self.between(i, k));
            }
        }
    }
}

} // verus!
