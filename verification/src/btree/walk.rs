use crate::btree::node::Node;
use crate::order::{ascending, lemma_ascending_concat, lt, total_order};
use vstd::prelude::*;

verus! {

impl<T: Ord> Node<T> {
    /// The keys of the subtree in the order of an in-order traversal: those of
    /// child 0, key 0, those of child 1, key 1, and so on to the last child.
    pub open spec fn walk(self) -> Seq<T>
        decreases self, self.keys@.len() + 1,
    {
        if self.children@.len() == 0 {
            self.keys@
        } else if self.children@.len() == self.keys@.len() + 1 {
            self.walk_to(self.keys@.len()) + self.children@[self.keys@.len() as int].walk()
        } else {
            Seq::empty()
        }
    }

    /// The part of the traversal that ends with key `n - 1`.
    pub open spec fn walk_to(self, n: nat) -> Seq<T>
        decreases self, n,
    {
        if n == 0 || n > self.keys@.len() || n > self.children@.len() {
            Seq::empty()
        } else {
            (self.walk_to((n - 1) as nat) + self.children@[n - 1].walk()).push(self.keys@[n - 1])
        }
    }

    /// The traversal of a well-formed subtree ascends and holds exactly the
    /// keys of the subtree.
    pub proof fn lemma_walk(self, min: int, max: int)
        requires
            total_order::<T>(),
            self.balanced(min, max),
            self.ordered(),
        ensures
            ascending(self.walk()),
            forall|k: T| self.walk().contains(k) <==> self.has(k),
        decreases self, self.keys@.len() + 1,
    {
        if self.children@.len() != 0 {
            let n = self.keys@.len();
            self.lemma_walk_to(n, min, max);
            let last = self.children@[n as int];
            last.lemma_walk(min, max);
            let a = self.walk_to(n);
            let b = last.walk();
            assert forall|i: int, j: int| 0 <= i < a.len() && 0 <= j < b.len() implies lt(
                a[i],
                b[j],
            ) by {
                assert(a.contains(a[i]));
                assert(b.contains(b[j]));
                assert(last.has(b[j]));
                assert(lt(self.keys@[n - 1], b[j]));
            }
            lemma_ascending_concat(a, b);
            assert forall|k: T| (a + b).contains(k) <==> self.has(k) by {
                if (a + b).contains(k) {
                    let u = choose|u: int| 0 <= u < (a + b).len() && (a + b)[u] == k;
                    if u < a.len() {
                        assert(a.contains(a[u]));
                    } else {
                        assert(b.contains(b[u - a.len()]));
                        self.lemma_has_child(n as int, k);
                    }
                }
                if self.has(k) {
                    if self.keys@.contains(k) {
                        assert(a.contains(k));
                        let u = choose|u: int| 0 <= u < a.len() && a[u] == k;
                        assert((a + b)[u] == k);
                    } else {
                        let c = choose|c: int| 0 <= c < self.children@.len() && self.children@[c].has(k);
                        if c < n {
                            assert(a.contains(k));
                            let u = choose|u: int| 0 <= u < a.len() && a[u] == k;
                            assert((a + b)[u] == k);
                        } else {
                            assert(b.contains(k));
                            let u = choose|u: int| 0 <= u < b.len() && b[u] == k;
                            assert((a + b)[u + a.len()] == k);
                        }
                    }
                }
            }
        }
    }

    /// The part of the traversal that ends with key `n - 1` ascends, holds the
    /// first `n` keys and the keys below the first `n` children, and nothing
    /// that comes after key `n - 1`.
    pub proof fn lemma_walk_to(self, n: nat, min: int, max: int)
        requires
            total_order::<T>(),
            self.balanced(min, max),
            self.ordered(),
            self.children@.len() == self.keys@.len() + 1,
            n <= self.keys@.len(),
        ensures
            ascending(self.walk_to(n)),
            forall|k: T|
                self.walk_to(n).contains(k) <==> {
                    ||| exists|j: int| 0 <= j < n && self.keys@[j] == k
                    ||| exists|c: int| 0 <= c < n && (#[trigger] self.children@[c]).has(k)
                },
            n > 0 ==> forall|k: T|
                self.walk_to(n).contains(k) ==> k == self.keys@[n - 1] || lt(k, self.keys@[n - 1]),
        decreases self, n,
    {
        if n > 0 {
            let m = (n - 1) as nat;
            self.lemma_walk_to(m, min, max);
            let child = self.children@[n - 1];
            child.lemma_walk(min, max);
            let a = self.walk_to(m);
            let b = child.walk();
            let key = self.keys@[n - 1];
            let ab = a + b;
            let w = self.walk_to(n);
            assert(w == ab.push(key));
            assert forall|i: int, j: int| 0 <= i < a.len() && 0 <= j < b.len() implies lt(
                a[i],
                b[j],
            ) by {
                assert(a.contains(a[i]));
                assert(b.contains(b[j]));
                assert(child.has(b[j]));
                assert(lt(self.keys@[m as int - 1], b[j]));
            }
            lemma_ascending_concat(a, b);
            assert forall|i: int| 0 <= i < ab.len() implies lt(ab[i], key) by {
                if i < a.len() {
                    assert(a.contains(a[i]));
                    assert(lt(self.keys@[m as int - 1], key));
                } else {
                    assert(b.contains(b[i - a.len()]));
                    assert(child.has(b[i - a.len()]));
                }
            }
            assert(ascending(w)) by {
                assert forall|i: int, j: int| 0 <= i < j < w.len() implies lt(
                    #[trigger] w[i],
                    #[trigger] w[j],
                ) by {
                    if j < ab.len() {
                        assert(lt(ab[i], ab[j]));
                    }
                }
            }
            assert forall|k: T|
                w.contains(k) <==> {
                    ||| exists|j: int| 0 <= j < n && self.keys@[j] == k
                    ||| exists|c: int| 0 <= c < n && (#[trigger] self.children@[c]).has(k)
                } by {
                if w.contains(k) {
                    let u = choose|u: int| 0 <= u < w.len() && w[u] == k;
                    if u < a.len() {
                        assert(a.contains(a[u]));
                    } else if u < ab.len() {
                        assert(b.contains(b[u - a.len()]));
                        assert(self.children@[n - 1].has(k));
                    } else {
                        assert(self.keys@[n - 1] == k);
                    }
                }
                if exists|j: int| 0 <= j < n && self.keys@[j] == k {
                    let j = choose|j: int| 0 <= j < n && self.keys@[j] == k;
                    if j < m {
                        assert(a.contains(k));
                        let u = choose|u: int| 0 <= u < a.len() && a[u] == k;
                        assert(w[u] == k);
                    } else {
                        assert(w[ab.len() as int] == k);
                    }
                }
                if exists|c: int| 0 <= c < n && (#[trigger] self.children@[c]).has(k) {
                    let c = choose|c: int| 0 <= c < n && (#[trigger] self.children@[c]).has(k);
                    if c < m {
                        assert(a.contains(k));
                        let u = choose|u: int| 0 <= u < a.len() && a[u] == k;
                        assert(w[u] == k);
                    } else {
                        assert(b.contains(k));
                        let u = choose|u: int| 0 <= u < b.len() && b[u] == k;
                        assert(w[u + a.len()] == k);
                    }
                }
            }
            assert forall|k: T| w.contains(k) implies k == key || lt(k, key) by {
                let u = choose|u: int| 0 <= u < w.len() && w[u] == k;
                if u < ab.len() {
                    assert(lt(ab[u], key));
                }
            }
        }
    }

    /// The part of the traversal that ends with key `n - 1` holds at least
    /// `n` keys.
    pub proof fn lemma_walk_to_len(self, n: nat)
        requires
            n <= self.keys@.len(),
            self.children@.len() == self.keys@.len() + 1,
        ensures
            self.walk_to(n).len() >= n,
        decreases n,
    {
        if n > 0 {
            self.lemma_walk_to_len((n - 1) as nat);
        }
    }

    /// A subtree whose nodes all hold a key has at least as many keys as it
    /// has levels below its root.
    pub proof fn lemma_walk_len(self, min: int, max: int)
        requires
            min >= 1,
            self.balanced(min, max),
            self.leaf() || self.keys@.len() >= 1,
        ensures
            self.walk().len() >= self.height(),
        decreases self,
    {
        if !self.leaf() {
            let n = self.keys@.len();
            self.lemma_walk_to_len(n);
            let last = self.children@[n as int];
            last.lemma_walk_len(min, max);
        }
    }

    /// Some leaf of the subtree stands `d` levels below this node.
    pub open spec fn leaf_at(self, d: nat) -> bool
        decreases self,
    {
        if self.children@.len() == 0 {
            d == 0
        } else {
            d > 0 && exists|i: int|
                0 <= i < self.children@.len() && (#[trigger] self.children@[i]).leaf_at(
                    (d - 1) as nat,
                )
        }
    }

    /// In a balanced subtree every leaf stands as many levels below the root
    /// as the subtree is high.
    pub proof fn lemma_leaf_at(self, min: int, max: int, d: nat)
        requires
            self.balanced(min, max),
            self.leaf_at(d),
        ensures
            d == self.height(),
        decreases self,
    {
        if self.children@.len() != 0 {
            let i = choose|i: int|
                0 <= i < self.children@.len() && (#[trigger] self.children@[i]).leaf_at(
                    (d - 1) as nat,
                );
            self.children@[i].lemma_leaf_at(min, max, (d - 1) as nat);
        }
    }
}

} // verus!
