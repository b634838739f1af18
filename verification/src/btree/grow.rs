use crate::btree::node::Node;
use crate::order::{ascending, lt, total_order};
use vstd::prelude::*;

verus! {

impl<T: Ord> Node<T> {
    /// What `split_child` does to a node `p`, giving `q`: the full child at
    /// `index` gives its middle key to the parent and its upper half to a new
    /// right sibling.
    pub open spec fn split_of(p: Self, q: Self, index: int, min: int) -> bool {
        let l = p.children@[index];
        let a = q.children@[index];
        let b = q.children@[index + 1];
        &&& q.keys@ == p.keys@.insert(index, l.keys@[min])
        &&& q.children@.len() == p.children@.len() + 1
        &&& forall|i: int|
            #![trigger q.children@[i]]
            #![trigger p.children@[i]]
            0 <= i < index ==> q.children@[i] == p.children@[i]
        &&& forall|i: int|
            #![trigger p.children@[i]]
            index < i < p.children@.len() ==> q.children@[i + 1] == p.children@[i]
        &&& a.keys@ == l.keys@.subrange(0, min)
        &&& b.keys@ == l.keys@.subrange(min + 1, l.keys@.len() as int)
        &&& if l.leaf() {
            a.leaf() && b.leaf()
        } else {
            &&& a.children@ == l.children@.subrange(0, min + 1)
            &&& b.children@ == l.children@.subrange(min + 1, l.children@.len() as int)
        }
    }

    /// A split leaves the node balanced and as high as it was, with a key more;
    /// the two halves hold the least number of keys.
    pub proof fn lemma_split_shape(p: Self, q: Self, index: int, min: int, max: int)
        requires
            min >= 1,
            max == 2 * min + 1,
            p.balanced(min, max),
            !p.leaf(),
            p.keys@.len() < max,
            0 <= index <= p.keys@.len(),
            p.children@[index].keys@.len() == max,
            Self::split_of(p, q, index, min),
        ensures
            q.balanced(min, max),
            q.height() == p.height(),
            q.keys@.len() == p.keys@.len() + 1,
            q.children@[index].keys@.len() == min,
            q.children@[index + 1].keys@.len() == min,
    {
        let l = p.children@[index];
        let a = q.children@[index];
        let b = q.children@[index + 1];
        assert(l.balanced(min, max));
        assert(a.height() == l.height()) by {
            if !l.leaf() {
                assert(a.children@[0] == l.children@[0]);
            }
        }
        assert(b.height() == l.height()) by {
            if !l.leaf() {
                assert(b.children@[0] == l.children@[min + 1]);
                assert(l.children@[min + 1].height() + 1 == l.height());
            }
        }
        assert(a.balanced(min, max)) by {
            assert forall|i: int| 0 <= i < a.children@.len() implies {
                &&& (#[trigger] a.children@[i]).keys@.len() >= min
                &&& a.children@[i].balanced(min, max)
                &&& a.children@[i].height() + 1 == a.height()
            } by {
                assert(a.children@[i] == l.children@[i]);
            }
        }
        assert(b.balanced(min, max)) by {
            assert forall|i: int| 0 <= i < b.children@.len() implies {
                &&& (#[trigger] b.children@[i]).keys@.len() >= min
                &&& b.children@[i].balanced(min, max)
                &&& b.children@[i].height() + 1 == b.height()
            } by {
                assert(b.children@[i] == l.children@[i + min + 1]);
            }
        }
        assert(q.height() == p.height()) by {
            if index == 0 {
                assert(p.children@[0] == l);
            } else {
                assert(q.children@[0] == p.children@[0]);
            }
        }
        assert forall|i: int| 0 <= i < q.children@.len() implies {
            &&& (#[trigger] q.children@[i]).keys@.len() >= min
            &&& q.children@[i].balanced(min, max)
            &&& q.children@[i].height() + 1 == q.height()
        } by {
            if i < index {
                assert(q.children@[i] == p.children@[i]);
            } else if i > index + 1 {
                assert(q.children@[i - 1 + 1] == p.children@[i - 1]);
            }
        }
    }

    /// A split takes no key away and brings none: the keys of the full child are
    /// those of its two halves and the key that moved up.
    pub proof fn lemma_split_has(p: Self, q: Self, index: int, min: int, max: int)
        requires
            min >= 1,
            max == 2 * min + 1,
            p.balanced(min, max),
            !p.leaf(),
            0 <= index <= p.keys@.len(),
            p.children@[index].keys@.len() == max,
            Self::split_of(p, q, index, min),
        ensures
            forall|k: T|
                p.children@[index].has(k) <==> (q.children@[index].has(k) || k == q.keys@[index]
                    || q.children@[index + 1].has(k)),
            forall|k: T| q.has(k) <==> p.has(k),
    {
        let l = p.children@[index];
        let a = q.children@[index];
        let b = q.children@[index + 1];
        let m = l.keys@[min];
        assert(q.keys@[index] == m);
        assert(l.balanced(min, max));
        assert forall|k: T| l.has(k) <==> (a.has(k) || k == m || b.has(k)) by {
            if l.has(k) {
                if l.keys@.contains(k) {
                    let j = choose|j: int| 0 <= j < l.keys@.len() && l.keys@[j] == k;
                    if j < min {
                        assert(a.keys@[j] == k);
                    } else if j > min {
                        assert(b.keys@[j - min - 1] == k);
                    }
                } else {
                    let c = choose|c: int| 0 <= c < l.children@.len() && l.children@[c].has(k);
                    if c <= min {
                        assert(a.children@[c] == l.children@[c]);
                    } else {
                        assert(b.children@[c - min - 1] == l.children@[c]);
                    }
                }
            }
            if a.has(k) {
                if a.keys@.contains(k) {
                    let j = choose|j: int| 0 <= j < a.keys@.len() && a.keys@[j] == k;
                    assert(l.keys@[j] == k);
                } else {
                    let c = choose|c: int| 0 <= c < a.children@.len() && a.children@[c].has(k);
                    assert(l.children@[c] == a.children@[c]);
                }
            }
            if b.has(k) {
                if b.keys@.contains(k) {
                    let j = choose|j: int| 0 <= j < b.keys@.len() && b.keys@[j] == k;
                    assert(l.keys@[j + min + 1] == k);
                } else {
                    let c = choose|c: int| 0 <= c < b.children@.len() && b.children@[c].has(k);
                    assert(l.children@[c + min + 1] == b.children@[c]);
                }
            }
            if k == m {
                l.lemma_has_key(min);
            }
        }
        assert forall|k: T| q.has(k) <==> p.has(k) by {
            if p.has(k) {
                if p.keys@.contains(k) {
                    let j = choose|j: int| 0 <= j < p.keys@.len() && p.keys@[j] == k;
                    if j < index {
                        assert(q.keys@[j] == k);
                    } else {
                        assert(q.keys@[j + 1] == k);
                    }
                } else {
                    let i = choose|i: int| 0 <= i < p.children@.len() && p.children@[i].has(k);
                    if i < index {
                        assert(q.children@[i] == p.children@[i]);
                    } else if i > index {
                        assert(q.children@[i + 1] == p.children@[i]);
                    } else {
                        if a.has(k) {
                            q.lemma_has_child(index, k);
                        } else if b.has(k) {
                            q.lemma_has_child(index + 1, k);
                        } else {
                            q.lemma_has_key(index);
                        }
                    }
                }
            }
            if q.has(k) {
                if q.keys@.contains(k) {
                    let j = choose|j: int| 0 <= j < q.keys@.len() && q.keys@[j] == k;
                    if j < index {
                        assert(p.keys@[j] == k);
                    } else if j > index {
                        assert(p.keys@[j - 1] == k);
                    } else {
                        p.lemma_has_child(index, k);
                    }
                } else {
                    let i = choose|i: int| 0 <= i < q.children@.len() && q.children@[i].has(k);
                    if i < index {
                        assert(q.children@[i] == p.children@[i]);
                    } else if i > index + 1 {
                        assert(q.children@[i - 1 + 1] == p.children@[i - 1]);
                        p.lemma_has_child(i - 1, k);
                    } else {
                        p.lemma_has_child(index, k);
                    }
                }
            }
        }
    }

    /// A split keeps the search order.
    pub proof fn lemma_split_ordered(p: Self, q: Self, index: int, min: int, max: int)
        requires
            total_order::<T>(),
            min >= 1,
            max == 2 * min + 1,
            p.balanced(min, max),
            p.ordered(),
            !p.leaf(),
            0 <= index <= p.keys@.len(),
            p.children@[index].keys@.len() == max,
            Self::split_of(p, q, index, min),
        ensures
            q.ordered(),
    {
        let l = p.children@[index];
        let a = q.children@[index];
        let b = q.children@[index + 1];
        let m = l.keys@[min];
        Self::lemma_split_has(p, q, index, min, max);
        assert(q.keys@[index] == m);
        assert(l.balanced(min, max));
        assert(l.ordered());
        l.lemma_has_key(min);
        assert(ascending(q.keys@)) by {
            assert forall|i: int, j: int| 0 <= i < j < q.keys@.len() implies lt(
                #[trigger] q.keys@[i],
                #[trigger] q.keys@[j],
            ) by {
                if j < index {
                    assert(lt(p.keys@[i], p.keys@[j]));
                } else if i > index {
                    assert(lt(p.keys@[i - 1], p.keys@[j - 1]));
                } else if i < index && j > index {
                    assert(lt(p.keys@[i], p.keys@[j - 1]));
                } else if i == index {
                    // m before the keys that follow the child
                    assert(lt(m, p.keys@[index]));
                    if j - 1 > index {
                        assert(lt(p.keys@[index], p.keys@[j - 1]));
                    }
                } else {
                    // j == index: the keys before the child come before m
                    assert(lt(p.keys@[index - 1], m));
                    if i < index - 1 {
                        assert(lt(p.keys@[i], p.keys@[index - 1]));
                    }
                }
            }
        }
        assert(a.ordered()) by {
            assert forall|i: int, j: int| 0 <= i < j < a.keys@.len() implies lt(
                #[trigger] a.keys@[i],
                #[trigger] a.keys@[j],
            ) by {
                assert(lt(l.keys@[i], l.keys@[j]));
            }
            assert forall|i: int| 0 <= i < a.children@.len() implies (
            #[trigger] a.children@[i]).ordered() by {
                assert(a.children@[i] == l.children@[i]);
            }
            assert forall|i: int, k: T|
                0 <= i < a.children@.len() && #[trigger] a.children@[i].has(k) implies {
                &&& i < a.keys@.len() ==> lt(k, a.keys@[i])
                &&& 0 < i <= a.keys@.len() ==> lt(a.keys@[i - 1], k)
            } by {
                assert(a.children@[i] == l.children@[i]);
                assert(l.children@[i].has(k));
            }
        }
        assert(b.ordered()) by {
            assert forall|i: int, j: int| 0 <= i < j < b.keys@.len() implies lt(
                #[trigger] b.keys@[i],
                #[trigger] b.keys@[j],
            ) by {
                assert(lt(l.keys@[i + min + 1], l.keys@[j + min + 1]));
            }
            assert forall|i: int| 0 <= i < b.children@.len() implies (
            #[trigger] b.children@[i]).ordered() by {
                assert(b.children@[i] == l.children@[i + min + 1]);
            }
            assert forall|i: int, k: T|
                0 <= i < b.children@.len() && #[trigger] b.children@[i].has(k) implies {
                &&& i < b.keys@.len() ==> lt(k, b.keys@[i])
                &&& 0 < i <= b.keys@.len() ==> lt(b.keys@[i - 1], k)
            } by {
                assert(b.children@[i] == l.children@[i + min + 1]);
                assert(l.children@[i + min + 1].has(k));
            }
        }
        assert forall|k: T| a.has(k) implies lt(k, m) by {
            if a.keys@.contains(k) {
                let j = choose|j: int| 0 <= j < a.keys@.len() && a.keys@[j] == k;
                assert(lt(l.keys@[j], l.keys@[min]));
            } else {
                let c = choose|c: int| 0 <= c < a.children@.len() && a.children@[c].has(k);
                assert(a.children@[c] == l.children@[c]);
                assert(l.children@[c].has(k));
                if c < min {
                    assert(lt(k, l.keys@[c]));
                    assert(lt(l.keys@[c], l.keys@[min]));
                }
            }
        }
        assert forall|k: T| b.has(k) implies lt(m, k) by {
            if b.keys@.contains(k) {
                let j = choose|j: int| 0 <= j < b.keys@.len() && b.keys@[j] == k;
                assert(lt(l.keys@[min], l.keys@[j + min + 1]));
            } else {
                let c = choose|c: int| 0 <= c < b.children@.len() && b.children@[c].has(k);
                assert(b.children@[c] == l.children@[c + min + 1]);
                assert(l.children@[c + min + 1].has(k));
                assert(lt(l.keys@[c + min], k));
                if c > 0 {
                    assert(lt(l.keys@[min], l.keys@[c + min]));
                }
            }
        }
        assert forall|i: int| 0 <= i < q.children@.len() implies (
        #[trigger] q.children@[i]).ordered() by {
            if i < index {
                assert(q.children@[i] == p.children@[i]);
            } else if i > index + 1 {
                assert(q.children@[i - 1 + 1] == p.children@[i - 1]);
            }
        }
        assert forall|i: int, k: T|
            0 <= i < q.children@.len() && #[trigger] q.children@[i].has(k) implies {
            &&& i < q.keys@.len() ==> lt(k, q.keys@[i])
            &&& 0 < i <= q.keys@.len() ==> lt(q.keys@[i - 1], k)
        } by {
            if i < index {
                assert(q.children@[i] == p.children@[i]);
                assert(p.children@[i].has(k));
                assert(q.keys@[i] == p.keys@[i]);
                if i > 0 {
                    assert(q.keys@[i - 1] == p.keys@[i - 1]);
                }
            } else if i > index + 1 {
                assert(q.children@[i - 1 + 1] == p.children@[i - 1]);
                assert(p.children@[i - 1].has(k));
                assert(q.keys@[i - 1] == p.keys@[i - 2]);
                if i < q.keys@.len() {
                    assert(q.keys@[i] == p.keys@[i - 1]);
                }
            } else if i == index {
                assert(l.has(k));
                if index > 0 {
                    assert(q.keys@[index - 1] == p.keys@[index - 1]);
                }
            } else {
                assert(l.has(k));
                if index + 1 < q.keys@.len() {
                    assert(q.keys@[index + 1] == p.keys@[index]);
                }
            }
        }
    }

    /// Replacing child `i` of `p` by one that holds `v` besides what it held
    /// keeps the search order where `v` belongs to child `i`.
    pub proof fn lemma_child_gained(p: Self, q: Self, i: int, v: T)
        requires
            total_order::<T>(),
            p.ordered(),
            0 <= i < p.children@.len(),
            p.between(i, v),
            q.keys@ == p.keys@,
            q.children@ == p.children@.update(i, q.children@[i]),
            q.children@[i].ordered(),
            forall|k: T| q.children@[i].has(k) <==> p.children@[i].has(k) || k == v,
        ensures
            q.ordered(),
            forall|k: T| q.has(k) <==> p.has(k) || k == v,
    {
        assert forall|j: int| 0 <= j < q.children@.len() implies (
        #[trigger] q.children@[j]).ordered() by {
            if j != i {
                assert(q.children@[j] == p.children@[j]);
            }
        }
        assert forall|j: int, k: T|
            0 <= j < q.children@.len() && #[trigger] q.children@[j].has(k) implies q.between(
            j,
            k,
        ) by {
            if j != i {
                assert(q.children@[j] == p.children@[j]);
                assert(p.children@[j].has(k));
            } else if k != v {
                assert(p.children@[i].has(k));
            }
        }
        assert forall|k: T| q.has(k) <==> p.has(k) || k == v by {
            if q.has(k) && !q.keys@.contains(k) {
                let j = choose|j: int| 0 <= j < q.children@.len() && q.children@[j].has(k);
                if j != i {
                    assert(q.children@[j] == p.children@[j]);
                    p.lemma_has_child(j, k);
                } else if k != v {
                    p.lemma_has_child(i, k);
                }
            }
            if p.has(k) && !p.keys@.contains(k) {
                let j = choose|j: int| 0 <= j < p.children@.len() && p.children@[j].has(k);
                if j != i {
                    assert(q.children@[j] == p.children@[j]);
                }
                q.lemma_has_child(j, k);
            }
            if k == v {
                q.lemma_has_child(i, k);
            }
        }
    }

    /// A key put into a leaf at its place among the keys keeps the keys
    /// ascending, and is the one key that the leaf gains.
    pub proof fn lemma_leaf_insert(p: Self, q: Self, i: int, v: T)
        requires
            total_order::<T>(),
            p.ordered(),
            p.leaf(),
            q.leaf(),
            0 <= i <= p.keys@.len(),
            q.keys@ == p.keys@.insert(i, v),
            forall|j: int| 0 <= j < i ==> lt(#[trigger] p.keys@[j], v),
            forall|j: int| i <= j < p.keys@.len() ==> lt(v, #[trigger] p.keys@[j]),
        ensures
            q.ordered(),
            forall|k: T| q.has(k) <==> p.has(k) || k == v,
    {
        assert forall|a: int, b: int| 0 <= a < b < q.keys@.len() implies lt(
            #[trigger] q.keys@[a],
            #[trigger] q.keys@[b],
        ) by {
            if b < i {
                assert(lt(p.keys@[a], p.keys@[b]));
            } else if a > i {
                assert(lt(p.keys@[a - 1], p.keys@[b - 1]));
            } else if a < i && b > i {
                assert(lt(p.keys@[a], p.keys@[b - 1]));
            } else if a == i {
                assert(lt(v, p.keys@[b - 1]));
            } else {
                assert(lt(p.keys@[a], v));
            }
        }
        assert forall|k: T| q.has(k) <==> p.has(k) || k == v by {
            if q.has(k) {
                let j = choose|j: int| 0 <= j < q.keys@.len() && q.keys@[j] == k;
                if j < i {
                    assert(p.keys@[j] == k);
                } else if j > i {
                    assert(p.keys@[j - 1] == k);
                }
            }
            if p.has(k) {
                let j = choose|j: int| 0 <= j < p.keys@.len() && p.keys@[j] == k;
                if j < i {
                    assert(q.keys@[j] == k);
                } else {
                    assert(q.keys@[j + 1] == k);
                }
            }
            if k == v {
                assert(q.keys@[i] == v);
            }
        }
    }
}

} // verus!
