use crate::btree::node::Node;
use crate::order::{ascending, lt, total_order};
use vstd::prelude::*;

verus! {

impl<T: Ord> Node<T> {
    /// What `merge_children` does to a node `p`, giving `q`: key `index` of
    /// `p` and the child after it are folded into the child at `index`.
    pub open spec fn merge_of(p: Self, q: Self, index: int) -> bool {
        let l = p.children@[index];
        let r = p.children@[index + 1];
        let m = q.children@[index];
        &&& q.keys@ == p.keys@.remove(index)
        &&& q.children@.len() + 1 == p.children@.len()
        &&& forall|i: int|
            #![trigger q.children@[i]]
            #![trigger p.children@[i]]
            0 <= i < index ==> q.children@[i] == p.children@[i]
        &&& forall|i: int|
            #![trigger q.children@[i]]
            index < i < q.children@.len() ==> q.children@[i] == p.children@[i + 1]
        &&& m.keys@ == l.keys@.push(p.keys@[index]) + r.keys@
        &&& m.children@ == l.children@ + r.children@
    }

    /// A merge leaves the node balanced and as high as it was, with a key less;
    /// the merged child is full.
    pub proof fn lemma_merge_shape(p: Self, q: Self, index: int, min: int, max: int)
        requires
            min >= 1,
            max == 2 * min + 1,
            p.balanced(min, max),
            !p.leaf(),
            0 <= index < p.keys@.len(),
            p.children@[index].keys@.len() == min,
            p.children@[index + 1].keys@.len() == min,
            Self::merge_of(p, q, index),
        ensures
            q.balanced(min, max),
            q.height() == p.height(),
            q.keys@.len() + 1 == p.keys@.len(),
            q.children@[index].keys@.len() == max,
    {
        let l = p.children@[index];
        let r = p.children@[index + 1];
        let m = q.children@[index];
        assert(l.balanced(min, max));
        assert(r.balanced(min, max));
        assert(m.height() == l.height()) by {
            if !l.leaf() {
                assert(m.children@[0] == l.children@[0]);
            }
        }
        assert(m.balanced(min, max)) by {
            assert forall|i: int| 0 <= i < m.children@.len() implies {
                &&& (#[trigger] m.children@[i]).keys@.len() >= min
                &&& m.children@[i].balanced(min, max)
                &&& m.children@[i].height() + 1 == m.height()
            } by {
                if i < l.children@.len() {
                    assert(m.children@[i] == l.children@[i]);
                } else {
                    assert(m.children@[i] == r.children@[i - l.children@.len()]);
                }
            }
        }
        assert(q.height() == p.height()) by {
            if index == 0 {
                assert(p.children@[0] == l);
            } else {
                assert(q.children@[0] == p.children@[0]);
            }
        }
        assert forall|i: int| 0 <= i < q.children@.len() implies {
            &&& (#[trigger] q.children@[i]).keys@.len() >= min
            &&& q.children@[i].balanced(min, max)
            &&& q.children@[i].height() + 1 == q.height()
        } by {
            if i < index {
                assert(q.children@[i] == p.children@[i]);
            } else if i > index {
                assert(q.children@[i] == p.children@[i + 1]);
            }
        }
    }

    /// A merge takes no key away and brings none: the keys of the merged child
    /// are those of the two children and the key that moved down.
    pub proof fn lemma_merge_has(p: Self, q: Self, index: int, min: int, max: int)
        requires
            p.balanced(min, max),
            !p.leaf(),
            0 <= index < p.keys@.len(),
            Self::merge_of(p, q, index),
        ensures
            forall|k: T|
                q.children@[index].has(k) <==> (p.children@[index].has(k) || k == p.keys@[index]
                    || p.children@[index + 1].has(k)),
            forall|k: T| q.has(k) <==> p.has(k),
    {
        let l = p.children@[index];
        let r = p.children@[index + 1];
        let m = q.children@[index];
        let key = p.keys@[index];
        let ln = l.keys@.len() as int;
        let lc = l.children@.len() as int;
        assert(m.keys@[ln] == key);
        assert forall|k: T| m.has(k) <==> (l.has(k) || k == key || r.has(k)) by {
            if m.has(k) {
                if m.keys@.contains(k) {
                    let j = choose|j: int| 0 <= j < m.keys@.len() && m.keys@[j] == k;
                    if j < ln {
                        assert(l.keys@[j] == k);
                    } else if j > ln {
                        assert(r.keys@[j - ln - 1] == k);
                    }
                } else {
                    let c = choose|c: int| 0 <= c < m.children@.len() && m.children@[c].has(k);
                    if c < lc {
                        assert(l.children@[c] == m.children@[c]);
                    } else {
                        assert(r.children@[c - lc] == m.children@[c]);
                    }
                }
            }
            if l.has(k) {
                if l.keys@.contains(k) {
                    let j = choose|j: int| 0 <= j < l.keys@.len() && l.keys@[j] == k;
                    assert(m.keys@[j] == k);
                } else {
                    let c = choose|c: int| 0 <= c < l.children@.len() && l.children@[c].has(k);
                    assert(m.children@[c] == l.children@[c]);
                }
            }
            if r.has(k) {
                if r.keys@.contains(k) {
                    let j = choose|j: int| 0 <= j < r.keys@.len() && r.keys@[j] == k;
                    assert(m.keys@[j + ln + 1] == k);
                } else {
                    let c = choose|c: int| 0 <= c < r.children@.len() && r.children@[c].has(k);
                    assert(m.children@[c + lc] == r.children@[c]);
                }
            }
        }
        assert forall|k: T| q.has(k) <==> p.has(k) by {
            if p.has(k) {
                if p.keys@.contains(k) {
                    let j = choose|j: int| 0 <= j < p.keys@.len() && p.keys@[j] == k;
                    if j < index {
                        assert(q.keys@[j] == k);
                    } else if j > index {
                        assert(q.keys@[j - 1] == k);
                    } else {
                        q.lemma_has_child(index, k);
                    }
                } else {
                    let i = choose|i: int| 0 <= i < p.children@.len() && p.children@[i].has(k);
                    if i < index {
                        assert(q.children@[i] == p.children@[i]);
                    } else if i > index + 1 {
                        assert(q.children@[i - 1] == p.children@[i - 1 + 1]);
                    } else {
                        q.lemma_has_child(index, k);
                    }
                }
            }
            if q.has(k) {
                if q.keys@.contains(k) {
                    let j = choose|j: int| 0 <= j < q.keys@.len() && q.keys@[j] == k;
                    if j < index {
                        assert(p.keys@[j] == k);
                    } else {
                        assert(p.keys@[j + 1] == k);
                    }
                } else {
                    let i = choose|i: int| 0 <= i < q.children@.len() && q.children@[i].has(k);
                    if i < index {
                        assert(q.children@[i] == p.children@[i]);
                    } else if i > index {
                        assert(q.children@[i] == p.children@[i + 1]);
                        p.lemma_has_child(i + 1, k);
                    } else {
                        if l.has(k) {
                            p.lemma_has_child(index, k);
                        } else if r.has(k) {
                            p.lemma_has_child(index + 1, k);
                        } else {
                            p.lemma_has_key(index);
                        }
                    }
                }
            }
        }
    }

    /// A merge keeps the search order, and a key that belonged below one of
    /// the two children belongs below the merged child.
    pub proof fn lemma_merge_ordered(p: Self, q: Self, index: int, min: int, max: int)
        requires
            total_order::<T>(),
            p.balanced(min, max),
            p.ordered(),
            !p.leaf(),
            0 <= index < p.keys@.len(),
            Self::merge_of(p, q, index),
        ensures
            q.ordered(),
            forall|v: T| p.between(index, v) || p.between(index + 1, v) ==> q.between(index, v),
    {
        let l = p.children@[index];
        let r = p.children@[index + 1];
        let m = q.children@[index];
        let key = p.keys@[index];
        let ln = l.keys@.len() as int;
        let lc = l.children@.len() as int;
        Self::lemma_merge_has(p, q, index, min, max);
        assert forall|v: T| p.between(index, v) || p.between(index + 1, v) implies q.between(
            index,
            v,
        ) by {
            if index > 0 {
                assert(q.keys@[index - 1] == p.keys@[index - 1]);
                assert(lt(p.keys@[index - 1], key));
            }
            if index < q.keys@.len() {
                assert(q.keys@[index] == p.keys@[index + 1]);
                assert(lt(key, p.keys@[index + 1]));
            }
        }
        assert(l.balanced(min, max) && r.balanced(min, max));
        assert(l.ordered() && r.ordered());
        assert(l.height() == r.height());
        assert(m.keys@[ln] == key);
        assert forall|j: int| 0 <= j < ln implies lt(#[trigger] l.keys@[j], key) by {
            l.lemma_has_key(j);
        }
        assert forall|j: int| 0 <= j < r.keys@.len() implies lt(key, #[trigger] r.keys@[j]) by {
            r.lemma_has_key(j);
        }
        assert(ascending(q.keys@)) by {
            assert forall|i: int, j: int| 0 <= i < j < q.keys@.len() implies lt(
                #[trigger] q.keys@[i],
                #[trigger] q.keys@[j],
            ) by {
                let i0 = if i < index { i } else { i + 1 };
                let j0 = if j < index { j } else { j + 1 };
                assert(lt(p.keys@[i0], p.keys@[j0]));
            }
        }
        assert(ascending(m.keys@)) by {
            assert forall|i: int, j: int| 0 <= i < j < m.keys@.len() implies lt(
                #[trigger] m.keys@[i],
                #[trigger] m.keys@[j],
            ) by {
                if j < ln {
                    assert(lt(l.keys@[i], l.keys@[j]));
                } else if i > ln {
                    assert(lt(r.keys@[i - ln - 1], r.keys@[j - ln - 1]));
                } else if i < ln && j > ln {
                    assert(lt(l.keys@[i], key));
                    assert(lt(key, r.keys@[j - ln - 1]));
                } else if i == ln {
                    assert(lt(key, r.keys@[j - ln - 1]));
                } else {
                    assert(lt(l.keys@[i], key));
                }
            }
        }
        assert(m.ordered()) by {
            assert forall|i: int| 0 <= i < m.children@.len() implies (
            #[trigger] m.children@[i]).ordered() by {
                if i < lc {
                    assert(m.children@[i] == l.children@[i]);
                } else {
                    assert(m.children@[i] == r.children@[i - lc]);
                }
            }
            assert forall|i: int, k: T|
                0 <= i < m.children@.len() && #[trigger] m.children@[i].has(k) implies m.between(
                i,
                k,
            ) by {
                if i < lc {
                    assert(m.children@[i] == l.children@[i]);
                    assert(l.children@[i].has(k));
                    l.lemma_has_child(i, k);
                    if i < ln {
                        assert(m.keys@[i] == l.keys@[i]);
                    }
                    if i > 0 {
                        assert(m.keys@[i - 1] == l.keys@[i - 1]);
                    }
                } else {
                    let c = i - lc;
                    assert(m.children@[i] == r.children@[c]);
                    assert(r.children@[c].has(k));
                    r.lemma_has_child(c, k);
                    if c < r.keys@.len() {
                        assert(m.keys@[i] == r.keys@[c]);
                    }
                    if c > 0 {
                        assert(m.keys@[i - 1] == r.keys@[c - 1]);
                    }
                }
            }
        }
        assert forall|i: int| 0 <= i < q.children@.len() implies (
        #[trigger] q.children@[i]).ordered() by {
            if i < index {
                assert(q.children@[i] == p.children@[i]);
            } else if i > index {
                assert(q.children@[i] == p.children@[i + 1]);
            }
        }
        assert forall|i: int, k: T|
            0 <= i < q.children@.len() && #[trigger] q.children@[i].has(k) implies q.between(
            i,
            k,
        ) by {
            if i < index {
                assert(q.children@[i] == p.children@[i]);
                assert(p.children@[i].has(k));
                if i > 0 {
                    assert(q.keys@[i - 1] == p.keys@[i - 1]);
                }
                assert(q.keys@[i] == p.keys@[i]);
            } else if i > index {
                assert(q.children@[i] == p.children@[i + 1]);
                assert(p.children@[i + 1].has(k));
                assert(q.keys@[i - 1] == p.keys@[i]);
                if i < q.keys@.len() {
                    assert(q.keys@[i] == p.keys@[i + 1]);
                }
            } else {
                if index > 0 {
                    assert(q.keys@[index - 1] == p.keys@[index - 1]);
                    assert(lt(p.keys@[index - 1], key));
                }
                if index < q.keys@.len() {
                    assert(q.keys@[index] == p.keys@[index + 1]);
                    assert(lt(key, p.keys@[index + 1]));
                }
                if l.has(k) {
                    assert(p.between(index, k));
                } else if r.has(k) {
                    assert(p.between(index + 1, k));
                }
            }
        }
    }

    /// What borrowing from the left sibling does to a node `p`, giving `q`:
    /// the last key of child `index - 1` moves up to key `index - 1`, which
    /// moves down to the front of child `index`; the last child of the sibling,
    /// where it has one, goes with it.
    pub open spec fn borrow_left_of(p: Self, q: Self, index: int) -> bool {
        let s = p.children@[index - 1];
        let c = p.children@[index];
        let s1 = q.children@[index - 1];
        let c1 = q.children@[index];
        &&& q.keys@ == p.keys@.update(index - 1, s.keys@.last())
        &&& q.children@.len() == p.children@.len()
        &&& forall|i: int|
            #![trigger q.children@[i]]
            #![trigger p.children@[i]]
            0 <= i < q.children@.len() && i != index && i != index - 1 ==> q.children@[i]
                == p.children@[i]
        &&& s1.keys@ == s.keys@.drop_last()
        &&& c1.keys@ == c.keys@.insert(0, p.keys@[index - 1])
        &&& if s.leaf() {
            s1.leaf() && c1.leaf()
        } else {
            &&& s1.children@ == s.children@.drop_last()
            &&& c1.children@ == c.children@.insert(0, s.children@.last())
        }
    }

    /// Borrowing from the left sibling leaves the node balanced and as high as
    /// it was; the child has gained a key.
    pub proof fn lemma_borrow_left_shape(p: Self, q: Self, index: int, min: int, max: int)
        requires
            min >= 1,
            max == 2 * min + 1,
            p.balanced(min, max),
            !p.leaf(),
            0 < index <= p.keys@.len(),
            p.children@[index - 1].keys@.len() > min,
            p.children@[index].keys@.len() == min,
            Self::borrow_left_of(p, q, index),
        ensures
            q.balanced(min, max),
            q.height() == p.height(),
            q.keys@.len() == p.keys@.len(),
            q.children@[index].keys@.len() == min + 1,
    {
        let s = p.children@[index - 1];
        let c = p.children@[index];
        let s1 = q.children@[index - 1];
        let c1 = q.children@[index];
        assert(s.balanced(min, max) && c.balanced(min, max));
        assert(s.height() == c.height());
        assert(s1.height() == s.height()) by {
            if !s.leaf() {
                assert(s1.children@[0] == s.children@[0]);
            }
        }
        assert(c1.height() == c.height()) by {
            if !s.leaf() {
                assert(c1.children@[0] == s.children@[s.children@.len() - 1]);
                assert(c.children@[0].height() + 1 == c.height());
            }
        }
        assert(s1.balanced(min, max)) by {
            assert forall|i: int| 0 <= i < s1.children@.len() implies {
                &&& (#[trigger] s1.children@[i]).keys@.len() >= min
                &&& s1.children@[i].balanced(min, max)
                &&& s1.children@[i].height() + 1 == s1.height()
            } by {
                assert(s1.children@[i] == s.children@[i]);
            }
        }
        assert(c1.balanced(min, max)) by {
            assert forall|i: int| 0 <= i < c1.children@.len() implies {
                &&& (#[trigger] c1.children@[i]).keys@.len() >= min
                &&& c1.children@[i].balanced(min, max)
                &&& c1.children@[i].height() + 1 == c1.height()
            } by {
                if i == 0 {
                    assert(c1.children@[0] == s.children@[s.children@.len() - 1]);
                } else {
                    assert(c1.children@[i] == c.children@[i - 1]);
                }
            }
        }
        assert(q.height() == p.height()) by {
            if index - 1 != 0 {
                assert(q.children@[0] == p.children@[0]);
            }
        }
        assert forall|i: int| 0 <= i < q.children@.len() implies {
            &&& (#[trigger] q.children@[i]).keys@.len() >= min
            &&& q.children@[i].balanced(min, max)
            &&& q.children@[i].height() + 1 == q.height()
        } by {
            if i != index && i != index - 1 {
                assert(q.children@[i] == p.children@[i]);
            }
        }
    }

    /// Borrowing from the left sibling takes no key away and brings none.
    pub proof fn lemma_borrow_left_has(p: Self, q: Self, index: int, min: int, max: int)
        requires
            p.balanced(min, max),
            !p.leaf(),
            0 < index <= p.keys@.len(),
            p.children@[index - 1].keys@.len() > 0,
            Self::borrow_left_of(p, q, index),
        ensures
            forall|k: T|
                #![trigger p.children@[index - 1].has(k)]
                #![trigger q.children@[index - 1].has(k)]
                p.children@[index - 1].has(k) <==> q.children@[index - 1].has(k) || k
                    == q.keys@[index - 1] || ({
                    &&& !p.children@[index - 1].leaf()
                    &&& p.children@[index - 1].children@.last().has(k)
                }),
            forall|k: T|
                #![trigger q.children@[index].has(k)]
                #![trigger p.children@[index].has(k)]
                q.children@[index].has(k) <==> p.children@[index].has(k) || k == p.keys@[index
                    - 1] || ({
                    &&& !p.children@[index - 1].leaf()
                    &&& p.children@[index - 1].children@.last().has(k)
                }),
            forall|k: T| q.has(k) <==> p.has(k),
    {
        let s = p.children@[index - 1];
        let c = p.children@[index];
        let s1 = q.children@[index - 1];
        let c1 = q.children@[index];
        let up = s.keys@.last();
        let down = p.keys@[index - 1];
        assert(s.balanced(min, max) && c.balanced(min, max));
        assert(s.height() == c.height());
        assert(q.keys@[index - 1] == up);
        assert(c1.keys@[0] == down);
        assert forall|k: T|
            s.has(k) <==> s1.has(k) || k == up || (!s.leaf() && s.children@.last().has(k)) by {
            if s.has(k) {
                if s.keys@.contains(k) {
                    let j = choose|j: int| 0 <= j < s.keys@.len() && s.keys@[j] == k;
                    if j < s.keys@.len() - 1 {
                        assert(s1.keys@[j] == k);
                    }
                } else {
                    let i = choose|i: int| 0 <= i < s.children@.len() && s.children@[i].has(k);
                    if i < s.children@.len() - 1 {
                        assert(s1.children@[i] == s.children@[i]);
                    }
                }
            }
            if s1.has(k) {
                if s1.keys@.contains(k) {
                    let j = choose|j: int| 0 <= j < s1.keys@.len() && s1.keys@[j] == k;
                    assert(s.keys@[j] == k);
                } else {
                    let i = choose|i: int| 0 <= i < s1.children@.len() && s1.children@[i].has(k);
                    assert(s1.children@[i] == s.children@[i]);
                }
            }
            if k == up {
                s.lemma_has_key(s.keys@.len() - 1);
            }
            if !s.leaf() && s.children@.last().has(k) {
                s.lemma_has_child(s.children@.len() - 1, k);
            }
        }
        assert forall|k: T|
            c1.has(k) <==> c.has(k) || k == down || (!s.leaf() && s.children@.last().has(k)) by {
            if c1.has(k) {
                if c1.keys@.contains(k) {
                    let j = choose|j: int| 0 <= j < c1.keys@.len() && c1.keys@[j] == k;
                    if j > 0 {
                        assert(c.keys@[j - 1] == k);
                    }
                } else {
                    let i = choose|i: int| 0 <= i < c1.children@.len() && c1.children@[i].has(k);
                    if i > 0 {
                        assert(c1.children@[i] == c.children@[i - 1]);
                    } else {
                        assert(c1.children@[0] == s.children@.last());
                    }
                }
            }
            if c.has(k) {
                if c.keys@.contains(k) {
                    let j = choose|j: int| 0 <= j < c.keys@.len() && c.keys@[j] == k;
                    assert(c1.keys@[j + 1] == k);
                } else {
                    let i = choose|i: int| 0 <= i < c.children@.len() && c.children@[i].has(k);
                    assert(c1.children@[i + 1] == c.children@[i]);
                }
            }
            if k == down {
                c1.lemma_has_key(0);
            }
            if !s.leaf() && s.children@.last().has(k) {
                assert(c1.children@[0] == s.children@.last());
                c1.lemma_has_child(0, k);
            }
        }
        assert forall|k: T| q.has(k) <==> p.has(k) by {
            if p.has(k) {
                if p.keys@.contains(k) {
                    let j = choose|j: int| 0 <= j < p.keys@.len() && p.keys@[j] == k;
                    if j != index - 1 {
                        assert(q.keys@[j] == k);
                    } else {
                        q.lemma_has_child(index, k);
                    }
                } else {
                    let i = choose|i: int| 0 <= i < p.children@.len() && p.children@[i].has(k);
                    if i == index {
                        q.lemma_has_child(index, k);
                    } else if i == index - 1 {
                        if s1.has(k) {
                            q.lemma_has_child(index - 1, k);
                        } else if k == up {
                            q.lemma_has_key(index - 1);
                        } else {
                            q.lemma_has_child(index, k);
                        }
                    } else {
                        assert(q.children@[i] == p.children@[i]);
                    }
                }
            }
            if q.has(k) {
                if q.keys@.contains(k) {
                    let j = choose|j: int| 0 <= j < q.keys@.len() && q.keys@[j] == k;
                    if j != index - 1 {
                        assert(p.keys@[j] == k);
                    } else {
                        p.lemma_has_child(index - 1, k);
                    }
                } else {
                    let i = choose|i: int| 0 <= i < q.children@.len() && q.children@[i].has(k);
                    if i == index {
                        if c.has(k) {
                            p.lemma_has_child(index, k);
                        } else if k == down {
                            p.lemma_has_key(index - 1);
                        } else {
                            p.lemma_has_child(index - 1, k);
                        }
                    } else if i == index - 1 {
                        p.lemma_has_child(index - 1, k);
                    } else {
                        assert(q.children@[i] == p.children@[i]);
                        p.lemma_has_child(i, k);
                    }
                }
            }
        }
    }

    /// Borrowing from the left sibling keeps the search order, and a key that
    /// belonged below the child still does.
    pub proof fn lemma_borrow_left_ordered(p: Self, q: Self, index: int, min: int, max: int)
        requires
            total_order::<T>(),
            p.balanced(min, max),
            p.ordered(),
            !p.leaf(),
            0 < index <= p.keys@.len(),
            p.children@[index - 1].keys@.len() > 1,
            Self::borrow_left_of(p, q, index),
        ensures
            q.ordered(),
            forall|v: T| p.between(index, v) ==> q.between(index, v),
    {
        let s = p.children@[index - 1];
        let c = p.children@[index];
        let s1 = q.children@[index - 1];
        let c1 = q.children@[index];
        let up = s.keys@.last();
        let down = p.keys@[index - 1];
        let sn = s.keys@.len() as int;
        Self::lemma_borrow_left_has(p, q, index, min, max);
        assert(s.balanced(min, max) && c.balanced(min, max));
        assert(s.ordered() && c.ordered());
        assert(s.height() == c.height());
        assert(q.keys@[index - 1] == up);
        assert(c1.keys@[0] == down);
        s.lemma_has_key(sn - 1);
        assert(lt(up, down));
        // the subtree that changes hands lies between the two keys
        assert forall|k: T| !s.leaf() && s.children@.last().has(k) implies lt(up, k) && lt(
            k,
            down,
        ) by {
            s.lemma_has_child(s.children@.len() - 1, k);
            assert(s.between(s.children@.len() - 1, k));
        }
        assert forall|k: T| s1.has(k) implies lt(k, up) by {
            if s1.keys@.contains(k) {
                let j = choose|j: int| 0 <= j < s1.keys@.len() && s1.keys@[j] == k;
                assert(lt(s.keys@[j], s.keys@[sn - 1]));
            } else {
                let i = choose|i: int| 0 <= i < s1.children@.len() && s1.children@[i].has(k);
                assert(s1.children@[i] == s.children@[i]);
                assert(s.children@[i].has(k));
                assert(lt(k, s.keys@[i]));
                if i < sn - 1 {
                    assert(lt(s.keys@[i], s.keys@[sn - 1]));
                }
            }
        }
        assert forall|k: T| c.has(k) implies lt(down, k) by {
            assert(p.between(index, k));
        }
        assert(ascending(q.keys@)) by {
            assert forall|i: int, j: int| 0 <= i < j < q.keys@.len() implies lt(
                #[trigger] q.keys@[i],
                #[trigger] q.keys@[j],
            ) by {
                assert(lt(p.keys@[i], p.keys@[j]));
                if i == index - 1 {
                    assert(lt(up, down));
                } else if j == index - 1 {
                    // key i lies before everything in the sibling
                    assert(p.between(index - 1, up));
                    if i < index - 2 {
                        assert(lt(p.keys@[i], p.keys@[index - 2]));
                    }
                }
            }
        }
        assert(s1.ordered()) by {
            assert forall|i: int, j: int| 0 <= i < j < s1.keys@.len() implies lt(
                #[trigger] s1.keys@[i],
                #[trigger] s1.keys@[j],
            ) by {
                assert(lt(s.keys@[i], s.keys@[j]));
            }
            assert forall|i: int| 0 <= i < s1.children@.len() implies (
            #[trigger] s1.children@[i]).ordered() by {
                assert(s1.children@[i] == s.children@[i]);
            }
            assert forall|i: int, k: T|
                0 <= i < s1.children@.len() && #[trigger] s1.children@[i].has(k) implies s1.between(
                i,
                k,
            ) by {
                assert(s1.children@[i] == s.children@[i]);
                assert(s.children@[i].has(k));
                assert(s.between(i, k));
            }
        }
        assert(c1.ordered()) by {
            assert forall|i: int, j: int| 0 <= i < j < c1.keys@.len() implies lt(
                #[trigger] c1.keys@[i],
                #[trigger] c1.keys@[j],
            ) by {
                if i == 0 {
                    c.lemma_has_key(j - 1);
                } else {
                    assert(lt(c.keys@[i - 1], c.keys@[j - 1]));
                }
            }
            assert forall|i: int| 0 <= i < c1.children@.len() implies (
            #[trigger] c1.children@[i]).ordered() by {
                if i == 0 {
                    assert(c1.children@[0] == s.children@[s.children@.len() - 1]);
                } else {
                    assert(c1.children@[i] == c.children@[i - 1]);
                }
            }
            assert forall|i: int, k: T|
                0 <= i < c1.children@.len() && #[trigger] c1.children@[i].has(k) implies c1.between(
                i,
                k,
            ) by {
                if i == 0 {
                    assert(c1.children@[0] == s.children@.last());
                } else {
                    assert(c1.children@[i] == c.children@[i - 1]);
                    assert(c.children@[i - 1].has(k));
                    assert(c.between(i - 1, k));
                    c.lemma_has_child(i - 1, k);
                    if i - 1 < c.keys@.len() {
                        assert(c1.keys@[i] == c.keys@[i - 1]);
                    }
                    if i - 1 > 0 {
                        assert(c1.keys@[i - 1] == c.keys@[i - 2]);
                    }
                }
            }
        }
        assert forall|i: int| 0 <= i < q.children@.len() implies (
        #[trigger] q.children@[i]).ordered() by {
            if i != index && i != index - 1 {
                assert(q.children@[i] == p.children@[i]);
            }
        }
        assert forall|i: int, k: T|
            0 <= i < q.children@.len() && #[trigger] q.children@[i].has(k) implies q.between(
            i,
            k,
        ) by {
            if i == index {
                if c.has(k) {
                    assert(p.between(index, k));
                } else if k == down {
                    if index < p.keys@.len() {
                        assert(lt(p.keys@[index - 1], p.keys@[index]));
                    }
                } else {
                    if index < p.keys@.len() {
                        assert(lt(p.keys@[index - 1], p.keys@[index]));
                    }
                }
            } else if i == index - 1 {
                assert(s.has(k));
                assert(p.between(index - 1, k));
            } else {
                assert(q.children@[i] == p.children@[i]);
                assert(p.children@[i].has(k));
                assert(p.between(i, k));
                if i == index - 2 {
                    assert(lt(up, down));
                    assert(p.between(index - 1, up));
                } else if i == index + 1 {
                }
            }
        }
        assert forall|v: T| p.between(index, v) implies q.between(index, v) by {
            assert(lt(down, v));
        }
    }

    /// What borrowing from the right sibling does to a node `p`, giving `q`:
    /// the first key of child `index + 1` moves up to key `index`, which moves
    /// down to the end of child `index`; the first child of the sibling, where
    /// it has one, goes with it.
    pub open spec fn borrow_right_of(p: Self, q: Self, index: int) -> bool {
        let s = p.children@[index + 1];
        let c = p.children@[index];
        let s1 = q.children@[index + 1];
        let c1 = q.children@[index];
        &&& q.keys@ == p.keys@.update(index, s.keys@[0])
        &&& q.children@.len() == p.children@.len()
        &&& forall|i: int|
            #![trigger q.children@[i]]
            #![trigger p.children@[i]]
            0 <= i < q.children@.len() && i != index && i != index + 1 ==> q.children@[i]
                == p.children@[i]
        &&& s1.keys@ == s.keys@.remove(0)
        &&& c1.keys@ == c.keys@.push(p.keys@[index])
        &&& if s.leaf() {
            s1.leaf() && c1.leaf()
        } else {
            &&& s1.children@ == s.children@.remove(0)
            &&& c1.children@ == c.children@.push(s.children@[0])
        }
    }

    /// Borrowing from the right sibling leaves the node balanced and as high
    /// as it was; the child has gained a key.
    pub proof fn lemma_borrow_right_shape(p: Self, q: Self, index: int, min: int, max: int)
        requires
            min >= 1,
            max == 2 * min + 1,
            p.balanced(min, max),
            !p.leaf(),
            0 <= index < p.keys@.len(),
            p.children@[index + 1].keys@.len() > min,
            p.children@[index].keys@.len() == min,
            Self::borrow_right_of(p, q, index),
        ensures
            q.balanced(min, max),
            q.height() == p.height(),
            q.keys@.len() == p.keys@.len(),
            q.children@[index].keys@.len() == min + 1,
    {
        let s = p.children@[index + 1];
        let c = p.children@[index];
        let s1 = q.children@[index + 1];
        let c1 = q.children@[index];
        assert(s.balanced(min, max) && c.balanced(min, max));
        assert(s.height() == c.height());
        assert(s1.height() == s.height()) by {
            if !s.leaf() {
                assert(s1.children@[0] == s.children@[1]);
                assert(s.children@[1].height() + 1 == s.height());
            }
        }
        assert(c1.height() == c.height()) by {
            if !s.leaf() {
                assert(c1.children@[0] == c.children@[0]);
            }
        }
        assert(s1.balanced(min, max)) by {
            assert forall|i: int| 0 <= i < s1.children@.len() implies {
                &&& (#[trigger] s1.children@[i]).keys@.len() >= min
                &&& s1.children@[i].balanced(min, max)
                &&& s1.children@[i].height() + 1 == s1.height()
            } by {
                assert(s1.children@[i] == s.children@[i + 1]);
            }
        }
        assert(c1.balanced(min, max)) by {
            assert forall|i: int| 0 <= i < c1.children@.len() implies {
                &&& (#[trigger] c1.children@[i]).keys@.len() >= min
                &&& c1.children@[i].balanced(min, max)
                &&& c1.children@[i].height() + 1 == c1.height()
            } by {
                if i == c.children@.len() {
                    assert(c1.children@[i] == s.children@[0]);
                } else {
                    assert(c1.children@[i] == c.children@[i]);
                }
            }
        }
        assert(q.height() == p.height()) by {
            if index != 0 {
                assert(q.children@[0] == p.children@[0]);
            }
        }
        assert forall|i: int| 0 <= i < q.children@.len() implies {
            &&& (#[trigger] q.children@[i]).keys@.len() >= min
            &&& q.children@[i].balanced(min, max)
            &&& q.children@[i].height() + 1 == q.height()
        } by {
            if i != index && i != index + 1 {
                assert(q.children@[i] == p.children@[i]);
            }
        }
    }

    /// Borrowing from the right sibling takes no key away and brings none.
    pub proof fn lemma_borrow_right_has(p: Self, q: Self, index: int, min: int, max: int)
        requires
            p.balanced(min, max),
            !p.leaf(),
            0 <= index < p.keys@.len(),
            p.children@[index + 1].keys@.len() > 0,
            Self::borrow_right_of(p, q, index),
        ensures
            forall|k: T|
                #![trigger p.children@[index + 1].has(k)]
                #![trigger q.children@[index + 1].has(k)]
                p.children@[index + 1].has(k) <==> q.children@[index + 1].has(k) || k
                    == q.keys@[index] || ({
                    &&& !p.children@[index + 1].leaf()
                    &&& p.children@[index + 1].children@[0].has(k)
                }),
            forall|k: T|
                #![trigger q.children@[index].has(k)]
                #![trigger p.children@[index].has(k)]
                q.children@[index].has(k) <==> p.children@[index].has(k) || k == p.keys@[index]
                    || ({
                    &&& !p.children@[index + 1].leaf()
                    &&& p.children@[index + 1].children@[0].has(k)
                }),
            forall|k: T| q.has(k) <==> p.has(k),
    {
        let s = p.children@[index + 1];
        let c = p.children@[index];
        let s1 = q.children@[index + 1];
        let c1 = q.children@[index];
        let up = s.keys@[0];
        let down = p.keys@[index];
        let cn = c.keys@.len() as int;
        let cc = c.children@.len() as int;
        assert(s.balanced(min, max) && c.balanced(min, max));
        assert(s.height() == c.height());
        assert(q.keys@[index] == up);
        assert(c1.keys@[cn] == down);
        assert forall|k: T|
            s.has(k) <==> s1.has(k) || k == up || (!s.leaf() && s.children@[0].has(k)) by {
            if s.has(k) {
                if s.keys@.contains(k) {
                    let j = choose|j: int| 0 <= j < s.keys@.len() && s.keys@[j] == k;
                    if j > 0 {
                        assert(s1.keys@[j - 1] == k);
                    }
                } else {
                    let i = choose|i: int| 0 <= i < s.children@.len() && s.children@[i].has(k);
                    if i > 0 {
                        assert(s1.children@[i - 1] == s.children@[i]);
                    }
                }
            }
            if s1.has(k) {
                if s1.keys@.contains(k) {
                    let j = choose|j: int| 0 <= j < s1.keys@.len() && s1.keys@[j] == k;
                    assert(s.keys@[j + 1] == k);
                } else {
                    let i = choose|i: int| 0 <= i < s1.children@.len() && s1.children@[i].has(k);
                    assert(s1.children@[i] == s.children@[i + 1]);
                }
            }
            if k == up {
                s.lemma_has_key(0);
            }
            if !s.leaf() && s.children@[0].has(k) {
                s.lemma_has_child(0, k);
            }
        }
        assert forall|k: T|
            c1.has(k) <==> c.has(k) || k == down || (!s.leaf() && s.children@[0].has(k)) by {
            if c1.has(k) {
                if c1.keys@.contains(k) {
                    let j = choose|j: int| 0 <= j < c1.keys@.len() && c1.keys@[j] == k;
                    if j < cn {
                        assert(c.keys@[j] == k);
                    }
                } else {
                    let i = choose|i: int| 0 <= i < c1.children@.len() && c1.children@[i].has(k);
                    if i < cc {
                        assert(c1.children@[i] == c.children@[i]);
                    } else {
                        assert(c1.children@[i] == s.children@[0]);
                    }
                }
            }
            if c.has(k) {
                if c.keys@.contains(k) {
                    let j = choose|j: int| 0 <= j < c.keys@.len() && c.keys@[j] == k;
                    assert(c1.keys@[j] == k);
                } else {
                    let i = choose|i: int| 0 <= i < c.children@.len() && c.children@[i].has(k);
                    assert(c1.children@[i] == c.children@[i]);
                }
            }
            if k == down {
                c1.lemma_has_key(cn);
            }
            if !s.leaf() && s.children@[0].has(k) {
                assert(c1.children@[cc] == s.children@[0]);
                c1.lemma_has_child(cc, k);
            }
        }
        assert forall|k: T| q.has(k) <==> p.has(k) by {
            if p.has(k) {
                if p.keys@.contains(k) {
                    let j = choose|j: int| 0 <= j < p.keys@.len() && p.keys@[j] == k;
                    if j != index {
                        assert(q.keys@[j] == k);
                    } else {
                        q.lemma_has_child(index, k);
                    }
                } else {
                    let i = choose|i: int| 0 <= i < p.children@.len() && p.children@[i].has(k);
                    if i == index {
                        q.lemma_has_child(index, k);
                    } else if i == index + 1 {
                        if s1.has(k) {
                            q.lemma_has_child(index + 1, k);
                        } else if k == up {
                            q.lemma_has_key(index);
                        } else {
                            q.lemma_has_child(index, k);
                        }
                    } else {
                        assert(q.children@[i] == p.children@[i]);
                    }
                }
            }
            if q.has(k) {
                if q.keys@.contains(k) {
                    let j = choose|j: int| 0 <= j < q.keys@.len() && q.keys@[j] == k;
                    if j != index {
                        assert(p.keys@[j] == k);
                    } else {
                        p.lemma_has_child(index + 1, k);
                    }
                } else {
                    let i = choose|i: int| 0 <= i < q.children@.len() && q.children@[i].has(k);
                    if i == index {
                        if c.has(k) {
                            p.lemma_has_child(index, k);
                        } else if k == down {
                            p.lemma_has_key(index);
                        } else {
                            p.lemma_has_child(index + 1, k);
                        }
                    } else if i == index + 1 {
                        p.lemma_has_child(index + 1, k);
                    } else {
                        assert(q.children@[i] == p.children@[i]);
                        p.lemma_has_child(i, k);
                    }
                }
            }
        }
    }

    /// Borrowing from the right sibling keeps the search order, and a key that
    /// belonged below the child still does.
    pub proof fn lemma_borrow_right_ordered(p: Self, q: Self, index: int, min: int, max: int)
        requires
            total_order::<T>(),
            p.balanced(min, max),
            p.ordered(),
            !p.leaf(),
            0 <= index < p.keys@.len(),
            p.children@[index + 1].keys@.len() > 1,
            Self::borrow_right_of(p, q, index),
        ensures
            q.ordered(),
            forall|v: T| p.between(index, v) ==> q.between(index, v),
    {
        let s = p.children@[index + 1];
        let c = p.children@[index];
        let s1 = q.children@[index + 1];
        let c1 = q.children@[index];
        let up = s.keys@[0];
        let down = p.keys@[index];
        let cn = c.keys@.len() as int;
        let cc = c.children@.len() as int;
        Self::lemma_borrow_right_has(p, q, index, min, max);
        assert(s.balanced(min, max) && c.balanced(min, max));
        assert(s.ordered() && c.ordered());
        assert(s.height() == c.height());
        assert(q.keys@[index] == up);
        assert(c1.keys@[cn] == down);
        s.lemma_has_key(0);
        assert(p.between(index + 1, up));
        assert(lt(down, up));
        assert forall|k: T| !s.leaf() && s.children@[0].has(k) implies lt(down, k) && lt(
            k,
            up,
        ) by {
            s.lemma_has_child(0, k);
            assert(s.between(0, k));
            assert(p.between(index + 1, k));
        }
        assert forall|k: T| s1.has(k) implies lt(up, k) by {
            if s1.keys@.contains(k) {
                let j = choose|j: int| 0 <= j < s1.keys@.len() && s1.keys@[j] == k;
                assert(lt(s.keys@[0], s.keys@[j + 1]));
            } else {
                let i = choose|i: int| 0 <= i < s1.children@.len() && s1.children@[i].has(k);
                assert(s1.children@[i] == s.children@[i + 1]);
                assert(s.children@[i + 1].has(k));
                assert(lt(s.keys@[i], k));
                if i > 0 {
                    assert(lt(s.keys@[0], s.keys@[i]));
                }
            }
        }
        assert forall|k: T| c.has(k) implies lt(k, down) by {
            assert(p.between(index, k));
        }
        assert(ascending(q.keys@)) by {
            assert forall|i: int, j: int| 0 <= i < j < q.keys@.len() implies lt(
                #[trigger] q.keys@[i],
                #[trigger] q.keys@[j],
            ) by {
                assert(lt(p.keys@[i], p.keys@[j]));
                if j == index {
                    assert(lt(down, up));
                } else if i == index {
                    if j > index + 1 {
                        assert(lt(p.keys@[index + 1], p.keys@[j]));
                    }
                }
            }
        }
        assert(s1.ordered()) by {
            assert forall|i: int, j: int| 0 <= i < j < s1.keys@.len() implies lt(
                #[trigger] s1.keys@[i],
                #[trigger] s1.keys@[j],
            ) by {
                assert(lt(s.keys@[i + 1], s.keys@[j + 1]));
            }
            assert forall|i: int| 0 <= i < s1.children@.len() implies (
            #[trigger] s1.children@[i]).ordered() by {
                assert(s1.children@[i] == s.children@[i + 1]);
            }
            assert forall|i: int, k: T|
                0 <= i < s1.children@.len() && #[trigger] s1.children@[i].has(k) implies s1.between(
                i,
                k,
            ) by {
                assert(s1.children@[i] == s.children@[i + 1]);
                assert(s.children@[i + 1].has(k));
                assert(s.between(i + 1, k));
                if i < s1.keys@.len() {
                    assert(s1.keys@[i] == s.keys@[i + 1]);
                }
                if i > 0 {
                    assert(s1.keys@[i - 1] == s.keys@[i]);
                }
            }
        }
        assert(c1.ordered()) by {
            assert forall|i: int, j: int| 0 <= i < j < c1.keys@.len() implies lt(
                #[trigger] c1.keys@[i],
                #[trigger] c1.keys@[j],
            ) by {
                if j == cn {
                    c.lemma_has_key(i);
                } else {
                    assert(lt(c.keys@[i], c.keys@[j]));
                }
            }
            assert forall|i: int| 0 <= i < c1.children@.len() implies (
            #[trigger] c1.children@[i]).ordered() by {
                if i == cc {
                    assert(c1.children@[i] == s.children@[0]);
                } else {
                    assert(c1.children@[i] == c.children@[i]);
                }
            }
            assert forall|i: int, k: T|
                0 <= i < c1.children@.len() && #[trigger] c1.children@[i].has(k) implies c1.between(
                i,
                k,
            ) by {
                if i == cc {
                    assert(c1.children@[i] == s.children@[0]);
                } else {
                    assert(c1.children@[i] == c.children@[i]);
                    assert(c.children@[i].has(k));
                    assert(c.between(i, k));
                    c.lemma_has_child(i, k);
                    if i < cn {
                        assert(c1.keys@[i] == c.keys@[i]);
                    }
                    if i > 0 {
                        assert(c1.keys@[i - 1] == c.keys@[i - 1]);
                    }
                }
            }
        }
        assert forall|i: int| 0 <= i < q.children@.len() implies (
        #[trigger] q.children@[i]).ordered() by {
            if i != index && i != index + 1 {
                assert(q.children@[i] == p.children@[i]);
            }
        }
        assert forall|i: int, k: T|
            0 <= i < q.children@.len() && #[trigger] q.children@[i].has(k) implies q.between(
            i,
            k,
        ) by {
            if i == index {
                if c.has(k) {
                    assert(p.between(index, k));
                } else {
                    if index > 0 {
                        assert(lt(p.keys@[index - 1], p.keys@[index]));
                    }
                }
            } else if i == index + 1 {
                assert(s.has(k));
                assert(p.between(index + 1, k));
            } else {
                assert(q.children@[i] == p.children@[i]);
                assert(p.children@[i].has(k));
                assert(p.between(i, k));
                if i == index + 2 {
                    assert(p.between(index + 1, up));
                }
            }
        }
        assert forall|v: T| p.between(index, v) implies q.between(index, v) by {
            assert(lt(v, down));
        }
    }

    /// Replacing child `i` of `p`, the one child below which `v` can be, by
    /// one that holds what it held but `v` takes `v`, and nothing else, from
    /// the keys of `p`.
    pub proof fn lemma_child_lost(p: Self, q: Self, i: int, v: T)
        requires
            total_order::<T>(),
            p.ordered(),
            p.children@.len() == p.keys@.len() + 1,
            0 <= i < p.children@.len(),
            q.keys@ == p.keys@,
            q.children@ == p.children@.update(i, q.children@[i]),
            q.children@[i].ordered(),
            p.between(i, v),
            forall|k: T| q.children@[i].has(k) <==> p.children@[i].has(k) && k != v,
        ensures
            q.ordered(),
            forall|k: T| q.has(k) <==> p.has(k) && k != v,
    {
        p.lemma_only_child(i, v);
        assert forall|j: int| 0 <= j < q.children@.len() implies (
        #[trigger] q.children@[j]).ordered() by {
            if j != i {
                assert(q.children@[j] == p.children@[j]);
            }
        }
        assert forall|j: int, k: T|
            0 <= j < q.children@.len() && #[trigger] q.children@[j].has(k) implies q.between(
            j,
            k,
        ) by {
            if j != i {
                assert(q.children@[j] == p.children@[j]);
            }
            assert(p.children@[j].has(k));
        }
        assert forall|k: T| q.has(k) <==> p.has(k) && k != v by {
            if q.has(k) && !q.keys@.contains(k) {
                let j = choose|j: int| 0 <= j < q.children@.len() && q.children@[j].has(k);
                if j != i {
                    assert(q.children@[j] == p.children@[j]);
                }
                p.lemma_has_child(j, k);
            }
            if p.has(k) && k != v && !p.keys@.contains(k) {
                let j = choose|j: int| 0 <= j < p.children@.len() && p.children@[j].has(k);
                if j != i {
                    assert(q.children@[j] == p.children@[j]);
                }
                q.lemma_has_child(j, k);
            }
        }
    }

    /// A key taken out of a leaf leaves the keys ascending, and is the one key
    /// that the leaf loses.
    pub proof fn lemma_leaf_remove(p: Self, q: Self, i: int)
        requires
            total_order::<T>(),
            p.ordered(),
            p.leaf(),
            q.leaf(),
            0 <= i < p.keys@.len(),
            q.keys@ == p.keys@.remove(i),
        ensures
            q.ordered(),
            forall|k: T| q.has(k) <==> p.has(k) && k != p.keys@[i],
    {
        assert forall|a: int, b: int| 0 <= a < b < q.keys@.len() implies lt(
            #[trigger] q.keys@[a],
            #[trigger] q.keys@[b],
        ) by {
            let a0 = if a < i { a } else { a + 1 };
            let b0 = if b < i { b } else { b + 1 };
            assert(lt(p.keys@[a0], p.keys@[b0]));
        }
        assert forall|k: T| q.has(k) <==> p.has(k) && k != p.keys@[i] by {
            if q.has(k) {
                let j = choose|j: int| 0 <= j < q.keys@.len() && q.keys@[j] == k;
                let j0 = if j < i { j } else { j + 1 };
                assert(p.keys@[j0] == k);
                if j0 < i {
                    assert(lt(p.keys@[j0], p.keys@[i]));
                } else {
                    assert(lt(p.keys@[i], p.keys@[j0]));
                }
            }
            if p.has(k) && k != p.keys@[i] {
                let j = choose|j: int| 0 <= j < p.keys@.len() && p.keys@[j] == k;
                if j < i {
                    assert(q.keys@[j] == k);
                } else {
                    assert(q.keys@[j - 1] == k);
                }
            }
        }
    }

    /// Key `index` of `p` gives way to `x`, the greatest key below the child
    /// before it (`at == index`) or the least key below the child after it
    /// (`at == index + 1`), which that child loses.
    pub proof fn lemma_key_replaced(p: Self, q: Self, index: int, at: int, x: T)
        requires
            total_order::<T>(),
            p.ordered(),
            p.children@.len() == p.keys@.len() + 1,
            0 <= index < p.keys@.len(),
            at == index || at == index + 1,
            q.keys@ == p.keys@.update(index, x),
            q.children@ == p.children@.update(at, q.children@[at]),
            q.children@[at].ordered(),
            p.children@[at].has(x),
            forall|k: T|
                p.children@[at].has(k) ==> k == x || if at == index {
                    lt(k, x)
                } else {
                    lt(x, k)
                },
            forall|k: T|
                q.children@[at].has(k) <==> p.children@[at].has(k) && k != x,
        ensures
            q.ordered(),
            forall|k: T| q.has(k) <==> p.has(k) && k != p.keys@[index],
    {
        let c = p.children@[at];
        let c1 = q.children@[at];
        let old_key = p.keys@[index];
        assert(p.between(at, x));
        p.lemma_only_child(at, x);
        assert(ascending(q.keys@)) by {
            assert forall|a: int, b: int| 0 <= a < b < q.keys@.len() implies lt(
                #[trigger] q.keys@[a],
                #[trigger] q.keys@[b],
            ) by {
                assert(lt(p.keys@[a], p.keys@[b]));
                if a == index {
                    if at == index + 1 && b > index + 1 {
                        assert(lt(p.keys@[index + 1], p.keys@[b]));
                    }
                } else if b == index {
                    if at == index && a < index - 1 {
                        assert(lt(p.keys@[a], p.keys@[index - 1]));
                    }
                }
            }
        }
        assert forall|j: int| 0 <= j < q.children@.len() implies (
        #[trigger] q.children@[j]).ordered() by {
            if j != at {
                assert(q.children@[j] == p.children@[j]);
            }
        }
        assert forall|j: int, k: T|
            0 <= j < q.children@.len() && #[trigger] q.children@[j].has(k) implies q.between(
            j,
            k,
        ) by {
            if j != at {
                assert(q.children@[j] == p.children@[j]);
            }
            assert(p.children@[j].has(k));
            assert(p.between(j, k));
        }
        assert forall|k: T| q.has(k) <==> p.has(k) && k != old_key by {
            p.lemma_has_key(index);
            if q.has(k) {
                if q.keys@.contains(k) {
                    let j = choose|j: int| 0 <= j < q.keys@.len() && q.keys@[j] == k;
                    if j != index {
                        assert(p.keys@[j] == k);
                        if j < index {
                            assert(lt(p.keys@[j], p.keys@[index]));
                        } else {
                            assert(lt(p.keys@[index], p.keys@[j]));
                        }
                    } else {
                        p.lemma_has_child(at, k);
                        assert(p.between(at, k));
                    }
                } else {
                    let j = choose|j: int| 0 <= j < q.children@.len() && q.children@[j].has(k);
                    if j != at {
                        assert(q.children@[j] == p.children@[j]);
                    }
                    p.lemma_has_child(j, k);
                    assert(p.between(j, k));
                    if j <= index {
                        if j < index {
                            assert(lt(p.keys@[j], p.keys@[index]));
                        }
                    } else {
                        if j - 1 > index {
                            assert(lt(p.keys@[index], p.keys@[j - 1]));
                        }
                    }
                }
            }
            if p.has(k) && k != old_key {
                if p.keys@.contains(k) {
                    let j = choose|j: int| 0 <= j < p.keys@.len() && p.keys@[j] == k;
                    assert(q.keys@[j] == k);
                } else {
                    let j = choose|j: int| 0 <= j < p.children@.len() && p.children@[j].has(k);
                    if j != at {
                        assert(q.children@[j] == p.children@[j]);
                        q.lemma_has_child(j, k);
                    } else if k == x {
                        q.lemma_has_key(index);
                    } else {
                        q.lemma_has_child(j, k);
                    }
                }
            }
        }
    }

    /// The least key below the first child is the least key of the subtree.
    pub proof fn lemma_least(self, x: T)
        requires
            total_order::<T>(),
            self.ordered(),
            self.children@.len() == self.keys@.len() + 1,
            self.children@[0].has(x),
            forall|k: T| self.children@[0].has(k) ==> k == x || lt(x, k),
        ensures
            forall|k: T| self.has(k) ==> k == x || lt(x, k),
    {
        assert(self.between(0, x));
        assert forall|k: T| self.has(k) implies k == x || lt(x, k) by {
            if self.keys@.contains(k) {
                let j = choose|j: int| 0 <= j < self.keys@.len() && self.keys@[j] == k;
                if j > 0 {
                    assert(lt(self.keys@[0], self.keys@[j]));
                }
            } else {
                let j = choose|j: int| 0 <= j < self.children@.len() && self.children@[j].has(k);
                if j > 0 {
                    assert(self.between(j, k));
                    if j - 1 > 0 {
                        assert(lt(self.keys@[0], self.keys@[j - 1]));
                    }
                }
            }
        }
    }

    /// The greatest key below the last child is the greatest key of the
    /// subtree.
    pub proof fn lemma_greatest(self, x: T)
        requires
            total_order::<T>(),
            self.ordered(),
            self.keys@.len() >= 1,
            self.children@.len() == self.keys@.len() + 1,
            self.children@.last().has(x),
            forall|k: T| self.children@.last().has(k) ==> k == x || lt(k, x),
        ensures
            forall|k: T| self.has(k) ==> k == x || lt(k, x),
    {
        let n = self.keys@.len() as int;
        assert(self.between(n, x));
        assert forall|k: T| self.has(k) implies k == x || lt(k, x) by {
            if self.keys@.contains(k) {
                let j = choose|j: int| 0 <= j < self.keys@.len() && self.keys@[j] == k;
                if j < n - 1 {
                    assert(lt(self.keys@[j], self.keys@[n - 1]));
                }
            } else {
                let j = choose|j: int| 0 <= j < self.children@.len() && self.children@[j].has(k);
                if j < n {
                    assert(self.between(j, k));
                    if j < n - 1 {
                        assert(lt(self.keys@[j], self.keys@[n - 1]));
                    }
                }
            }
        }
    }
}

} // verus!
