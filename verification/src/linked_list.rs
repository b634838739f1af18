use slab::Slab;
use vstd::prelude::*;

verus! {

/// `slab::Slab`, a store that gives each value put into it a key of its own.
#[verifier::external_type_specification]
#[verifier::external_body]
#[verifier::reject_recursive_types(T)]
pub struct ExSlab<T>(Slab<T>);

/// What a slab of pairs holds: the pair under each key that is in use.
pub uninterp spec fn held(s: Slab<(usize, usize)>) -> Map<usize, (usize, usize)>;

/// The map that holds nothing.
pub open spec fn nothing() -> Map<usize, (usize, usize)> {
    Map::empty()
}

/// Calls `Slab::new`, which gives a slab that holds nothing.
#[verifier::external_body]
fn new_slab() -> (r: Slab<(usize, usize)>)
    ensures
        held(r) == nothing(),
{
    Slab::new()
}

/// Calls `Slab::len`, which gives the number of values held.
#[verifier::external_body]
fn count(s: &Slab<(usize, usize)>) -> (r: usize)
    ensures
        r == held(*s).dom().len(),
{
    s.len()
}

/// Calls `Slab::insert`, which puts `val` under a key that was not in use
/// and returns the key. The key is a place in the vector of the slab or the
/// one behind its end, and so less than the number `usize::MAX`, which a
/// vector of pairs never reaches.
#[verifier::external_body]
fn insert(s: &mut Slab<(usize, usize)>, val: (usize, usize)) -> (key: usize)
    ensures
        !held(*old(s)).dom().contains(key),
        held(*final(s)) == held(*old(s)).insert(key, val),
        key < usize::MAX,
{
    s.insert(val)
}

/// Calls `Slab::remove`, which takes the value under `key` out and returns
/// it. It panics where the key is not in use.
#[verifier::external_body]
fn remove(s: &mut Slab<(usize, usize)>, key: usize) -> (val: (usize, usize))
    requires
        held(*old(s)).dom().contains(key),
    ensures
        val == held(*old(s))[key],
        held(*final(s)) == held(*old(s)).remove(key),
{
    s.remove(key)
}

/// Calls `Slab::get`, which gives the value under `key`, or nothing where
/// the key is not in use.
#[verifier::external_body]
fn get(s: &Slab<(usize, usize)>, key: usize) -> (r: Option<(usize, usize)>)
    ensures
        r == if held(*s).dom().contains(key) {
            Some(held(*s)[key])
        } else {
            None
        },
{
    s.get(key).copied()
}

/// Calls `index_mut` of the slab, which gives the value under `key` for
/// changing it, and puts `val` in its place. It panics where the key is not
/// in use.
#[verifier::external_body]
fn set(s: &mut Slab<(usize, usize)>, key: usize, val: (usize, usize))
    requires
        held(*old(s)).dom().contains(key),
    ensures
        held(*final(s)) == held(*old(s)).insert(key, val),
{
    s[key] = val;
}

/// The key that stands for no node at all.
pub const NULL: usize = usize::MAX;

/// A doubly linked list. Each node has a key, which it keeps as long as it
/// is in the list; under its key a slab holds the keys of the nodes before
/// and after it, and a vector holds its value.
///
/// The view of a list is the sequence of its values from front to back.
pub struct List<T> {
    links: Slab<(usize, usize)>,
    values: Vec<Option<T>>,
    head: usize,
    tail: usize,
    /// The keys of the nodes from front to back.
    order: Ghost<Seq<usize>>,
}

impl<T> View for List<T> {
    type V = Seq<T>;

    closed spec fn view(&self) -> Seq<T> {
        Seq::new(self.order@.len(), |k: int| self.values@[self.order@[k] as int].unwrap())
    }
}

/// The pair that the node at place `k` of `order` holds: the keys of the
/// nodes before and after it, or `NULL` where there is none.
pub open spec fn links_at(order: Seq<usize>, k: int) -> (usize, usize) {
    (
        if k > 0 {
            order[k - 1]
        } else {
            NULL
        },
        if k + 1 < order.len() {
            order[k + 1]
        } else {
            NULL
        },
    )
}

/// The keys in use in `m` are those of `order`, none of which is `NULL` or
/// occurs twice, and under each of them `m` holds the keys before and after
/// it in `order`.
pub open spec fn chained(m: Map<usize, (usize, usize)>, order: Seq<usize>) -> bool {
    &&& order.no_duplicates()
    &&& forall|key: usize| m.dom().contains(key) <==> order.contains(key)
    &&& forall|k: int|
        0 <= k < order.len() ==> (#[trigger] order[k]) != NULL && m[order[k]] == links_at(order, k)
}

/// Taking the `k`-th node out of the chain and letting its neighbours
/// follow each other leaves a chain.
pub proof fn lemma_unlinked(
    m0: Map<usize, (usize, usize)>,
    m: Map<usize, (usize, usize)>,
    order: Seq<usize>,
    k: int,
)
    requires
        chained(m0, order),
        0 <= k < order.len(),
        m.dom() == m0.dom().remove(order[k]),
        forall|key: usize|
            m.dom().contains(key) && key != links_at(order, k).0 && key != links_at(order, k).1
                ==> #[trigger] m[key] == m0[key],
        k > 0 ==> m[order[k - 1]] == (m0[order[k - 1]].0, links_at(order, k).1),
        k + 1 < order.len() ==> m[order[k + 1]] == (links_at(order, k).0, m0[order[k + 1]].1),
    ensures
        chained(m, order.remove(k)),
{
    let after = order.remove(k);
    assert forall|i: int, j: int|
        0 <= i < after.len() && 0 <= j < after.len() && i != j implies after[i] != after[j] by {
        let i0 = if i < k { i } else { i + 1 };
        let j0 = if j < k { j } else { j + 1 };
        assert(order[i0] != order[j0]);
    }
    assert forall|key: usize| m.dom().contains(key) <==> after.contains(key) by {
        if after.contains(key) {
            let j = choose|j: int| 0 <= j < after.len() && after[j] == key;
            let j0 = if j < k { j } else { j + 1 };
            assert(order.contains(order[j0]));
            assert(order[j0] != order[k]);
        }
        if m.dom().contains(key) {
            assert(order.contains(key));
            let j0 = choose|j0: int| 0 <= j0 < order.len() && order[j0] == key;
            let j = if j0 < k { j0 } else { j0 - 1 };
            assert(after[j] == key);
        }
    }
    assert forall|j: int| 0 <= j < after.len() implies (#[trigger] after[j]) != NULL && m[after[j]]
        == links_at(after, j) by {
        let j0 = if j < k { j } else { j + 1 };
        assert(order[j0] != NULL && m0[order[j0]] == links_at(order, j0));
        assert(order.contains(order[j0]));
        assert(order[j0] != order[k]);
        if j0 == k - 1 {
        } else if j0 == k + 1 {
        } else {
            if k > 0 {
                assert(order[j0] != order[k - 1]);
            }
            if k + 1 < order.len() {
                assert(order[j0] != order[k + 1]);
            }
        }
    }
}

impl<T> List<T> {
    /// The keys of the nodes from front to back.
    pub closed spec fn keys(self) -> Seq<usize> {
        self.order@
    }

    /// The keys in use are those of the nodes, each of which has a value;
    /// the nodes follow each other from `head` to `tail`, and each holds the
    /// keys of those before and after it.
    pub closed spec fn wf(self) -> bool {
        let order = self.order@;
        &&& chained(held(self.links), order)
        &&& forall|k: int|
            0 <= k < order.len() ==> (#[trigger] order[k]) < self.values@.len()
                && self.values@[order[k] as int] is Some
        &&& if order.len() > 0 {
            self.head == order[0] && self.tail == order.last()
        } else {
            self.head == NULL && self.tail == NULL
        }
    }

    /// An empty list.
    pub fn new() -> (list: Self)
        ensures
            list.wf(),
            list@ == Seq::<T>::empty(),
            list.keys() == Seq::<usize>::empty(),
    {
        let list = List {
            links: new_slab(),
            values: Vec::new(),
            head: NULL,
            tail: NULL,
            order: Ghost(Seq::empty()),
        };
        assert(list@ =~= Seq::<T>::empty());
        list
    }

    /// The number of values.
    pub fn len(&self) -> (r: usize)
        requires
            self.wf(),
        ensures
            r == self@.len(),
            r == self.keys().len(),
    {
        proof {
            self.order@.unique_seq_to_set();
            assert(held(self.links).dom() =~= self.order@.to_set());
        }
        count(&self.links)
    }

    /// Makes the nodes `a` and `b` follow each other, where they are nodes
    /// at all: `a` notes `b` as the one after it, and `b` notes `a` as the one
    /// before it.
    fn link(&mut self, a: usize, b: usize)
        requires
            a != NULL ==> held(old(self).links).dom().contains(a),
            b != NULL ==> held(old(self).links).dom().contains(b),
            a != b || a == NULL,
        ensures
            final(self).values == old(self).values,
            final(self).head == old(self).head,
            final(self).tail == old(self).tail,
            final(self).order == old(self).order,
            held(final(self).links).dom() == held(old(self).links).dom(),
            forall|key: usize|
                key != a && key != b ==> #[trigger] held(final(self).links)[key] == held(
                    old(self).links,
                )[key],
            a != NULL ==> held(final(self).links)[a] == (held(old(self).links)[a].0, b),
            b != NULL ==> held(final(self).links)[b] == (a, held(old(self).links)[b].1),
    {
        if a != NULL {
            let pair = get(&self.links, a).unwrap();
            set(&mut self.links, a, (pair.0, b));
        }
        if b != NULL {
            let pair = get(&self.links, b).unwrap();
            set(&mut self.links, b, (a, pair.1));
        }
        proof {
            assert(held(self.links).dom() =~= held(old(self).links).dom());
        }
    }

    /// Puts `value` under the key `key` into the vector of values.
    fn keep(&mut self, key: usize, value: T)
        requires
            key < usize::MAX,
        ensures
            final(self).links == old(self).links,
            final(self).head == old(self).head,
            final(self).tail == old(self).tail,
            final(self).order == old(self).order,
            final(self).values@.len() > key,
            final(self).values@.len() >= old(self).values@.len(),
            final(self).values@[key as int] == Some(value),
            forall|j: int|
                0 <= j < old(self).values@.len() && j != key ==> #[trigger] final(self).values@[j]
                    == old(self).values@[j],
    {
        while self.values.len() <= key
            invariant
                key < usize::MAX,
                self.links == old(self).links,
                self.head == old(self).head,
                self.tail == old(self).tail,
                self.order == old(self).order,
                self.values@.len() >= old(self).values@.len(),
                forall|j: int|
                    0 <= j < old(self).values@.len() ==> #[trigger] self.values@[j] == old(self).values@[j],
            decreases key + 1 - self.values@.len(),
        {
            self.values.push(None);
        }
        self.values[key] = Some(value);
    }

    /// Puts `value` at the back of the list, and returns the key of its
    /// node.
    pub fn push_back(&mut self, value: T) -> (node: usize)
        requires
            old(self).wf(),
        ensures
            final(self).wf(),
            final(self)@ == old(self)@.push(value),
            final(self).keys() == old(self).keys().push(node),
            node != NULL,
    {
        let node = insert(&mut self.links, (NULL, NULL));
        self.keep(node, value);
        let tail = self.tail;
        proof {
            let before = old(self).order@;
            if before.len() > 0 {
                assert(before.contains(before[before.len() - 1]));
            }
        }
        self.link(tail, node);
        self.tail = node;
        if self.head == NULL {
            self.head = node;
        }
        self.order = Ghost(old(self).order@.push(node));
        proof {
            let before = old(self).order@;
            let order = self.order@;
            let m = held(self.links);
            assert forall|i: int, j: int|
                0 <= i < order.len() && 0 <= j < order.len() && i != j implies order[i]
                != order[j] by {
                if i < before.len() && j < before.len() {
                    assert(before[i] != before[j]);
                } else if i < before.len() {
                    assert(before.contains(before[i]));
                } else {
                    assert(before.contains(before[j]));
                }
            }
            assert forall|key: usize| m.dom().contains(key) <==> order.contains(key) by {
                if order.contains(key) {
                    let k = choose|k: int| 0 <= k < order.len() && order[k] == key;
                    if k < before.len() {
                        assert(before.contains(before[k]));
                    }
                }
                if m.dom().contains(key) && key != node {
                    assert(before.contains(key));
                    let k = choose|k: int| 0 <= k < before.len() && before[k] == key;
                    assert(order[k] == key);
                }
                if key == node {
                    assert(order[order.len() - 1] == node);
                }
            }
            assert forall|k: int| 0 <= k < order.len() implies (#[trigger] order[k]) != NULL
                && m[order[k]] == links_at(order, k) by {
                if k < before.len() {
                    assert(before.contains(before[k]));
                    assert(before[k] != NULL && held(old(self).links)[before[k]] == links_at(
                        before,
                        k,
                    ));
                    if k < before.len() - 1 {
                        assert(before[k] != before[before.len() - 1]);
                    }
                }
            }
            assert forall|k: int| 0 <= k < order.len() implies (#[trigger] order[k])
                < self.values@.len() && self.values@[order[k] as int] is Some by {
                if k < before.len() {
                    assert(before.contains(before[k]));
                    assert(before[k] < old(self).values@.len());
                }
            }
            assert(self@ =~= old(self)@.push(value)) by {
                assert forall|k: int| 0 <= k < before.len() implies self.values@[before[k] as int]
                    == old(self).values@[before[k] as int] by {
                    assert(before.contains(before[k]));
                }
            }
        }
        node
    }

    /// Puts `value` at the front of the list, and returns the key of its
    /// node.
    pub fn push_front(&mut self, value: T) -> (node: usize)
        requires
            old(self).wf(),
        ensures
            final(self).wf(),
            final(self)@ == seq![value] + old(self)@,
            final(self).keys() == seq![node] + old(self).keys(),
            node != NULL,
    {
        let node = insert(&mut self.links, (NULL, NULL));
        self.keep(node, value);
        let head = self.head;
        proof {
            let before = old(self).order@;
            if before.len() > 0 {
                assert(before.contains(before[0]));
            }
        }
        self.link(node, head);
        self.head = node;
        if self.tail == NULL {
            self.tail = node;
        }
        self.order = Ghost(seq![node] + old(self).order@);
        proof {
            let before = old(self).order@;
            let order = self.order@;
            let m = held(self.links);
            assert forall|i: int, j: int|
                0 <= i < order.len() && 0 <= j < order.len() && i != j implies order[i]
                != order[j] by {
                if i > 0 && j > 0 {
                    assert(before[i - 1] != before[j - 1]);
                } else if i > 0 {
                    assert(before.contains(before[i - 1]));
                } else {
                    assert(before.contains(before[j - 1]));
                }
            }
            assert forall|key: usize| m.dom().contains(key) <==> order.contains(key) by {
                if order.contains(key) {
                    let k = choose|k: int| 0 <= k < order.len() && order[k] == key;
                    if k > 0 {
                        assert(before.contains(before[k - 1]));
                    }
                }
                if m.dom().contains(key) && key != node {
                    assert(before.contains(key));
                    let k = choose|k: int| 0 <= k < before.len() && before[k] == key;
                    assert(order[k + 1] == key);
                }
                if key == node {
                    assert(order[0] == node);
                }
            }
            assert forall|k: int| 0 <= k < order.len() implies (#[trigger] order[k]) != NULL
                && m[order[k]] == links_at(order, k) by {
                if k > 0 {
                    assert(before.contains(before[k - 1]));
                    assert(before[k - 1] != NULL && held(old(self).links)[before[k - 1]]
                        == links_at(before, k - 1));
                    if k > 1 {
                        assert(before[k - 1] != before[0]);
                    }
                }
            }
            assert forall|k: int| 0 <= k < order.len() implies (#[trigger] order[k])
                < self.values@.len() && self.values@[order[k] as int] is Some by {
                if k > 0 {
                    assert(before.contains(before[k - 1]));
                    assert(before[k - 1] < old(self).values@.len());
                }
            }
            assert(self@ =~= seq![value] + old(self)@) by {
                assert forall|k: int| 0 <= k < before.len() implies self.values@[before[k] as int]
                    == old(self).values@[before[k] as int] by {
                    assert(before.contains(before[k]));
                }
            }
        }
        node
    }

    /// Takes the node with the key `index`, which is the `k`-th of the
    /// list, out of it, and returns its value.
    fn unlink(&mut self, index: usize, Ghost(k): Ghost<int>) -> (value: T)
        requires
            old(self).wf(),
            0 <= k < old(self).order@.len(),
            old(self).order@[k] == index,
        ensures
            final(self).wf(),
            value == old(self)@[k],
            final(self)@ == old(self)@.remove(k),
            final(self).keys() == old(self).keys().remove(k),
    {
        let ghost before = old(self).order@;
        let ghost m0 = held(self.links);
        proof {
            assert(before.contains(before[k]));
            assert(before[k] != NULL && m0[before[k]] == links_at(before, k));
            if k > 0 {
                assert(before.contains(before[k - 1]));
                assert(before[k - 1] != NULL);
            }
            if k + 1 < before.len() {
                assert(before.contains(before[k + 1]));
                assert(before[k + 1] != NULL);
                assert(before[k + 1] != before[k]);
            }
            if k > 0 && k + 1 < before.len() {
                assert(before[k - 1] != before[k + 1]);
            }
            assert(old(self).head == index <==> k == 0) by {
                if old(self).head == index {
                    assert(before[0] == before[k]);
                }
            }
            assert(old(self).tail == index <==> k == before.len() - 1) by {
                if old(self).tail == index {
                    assert(before[before.len() - 1] == before[k]);
                }
            }
        }
        let node = remove(&mut self.links, index);
        let value = self.values[index].take().unwrap();
        self.link(node.0, node.1);
        if self.head == index {
            self.head = node.1;
        }
        if self.tail == index {
            self.tail = node.0;
        }
        self.order = Ghost(before.remove(k));
        proof {
            let order = self.order@;
            lemma_unlinked(m0, held(self.links), before, k);
            assert forall|j: int| 0 <= j < order.len() implies (#[trigger] order[j])
                < self.values@.len() && self.values@[order[j] as int] is Some by {
                let j0 = if j < k { j } else { j + 1 };
                assert(before[j0] != before[k]);
                assert(before[j0] < old(self).values@.len());
            }
            assert(self@ =~= old(self)@.remove(k)) by {
                assert forall|j: int| 0 <= j < order.len() implies self.values@[order[j] as int]
                    == old(self).values@[order[j] as int] by {
                    let j0 = if j < k { j } else { j + 1 };
                    assert(before[j0] != before[k]);
                }
            }
        }
        value
    }

    /// Takes the value at the back of the list, if there is one.
    pub fn pop_back(&mut self) -> (r: Option<T>)
        requires
            old(self).wf(),
        ensures
            final(self).wf(),
            old(self)@.len() == 0 ==> r.is_none() && final(self)@ == old(self)@ && final(self).keys() == old(self).keys(),
            old(self)@.len() > 0 ==> r == Some(old(self)@.last()) && final(self)@ == old(self)@.drop_last() && final(self).keys() == old(self).keys().drop_last(),
    {
        if self.len() == 0 {
            None
        } else {
            let ghost k = self.order@.len() - 1;
            let tail = self.tail;
            let value = self.unlink(tail, Ghost(k));
            proof {
                assert(old(self)@.remove(k) =~= old(self)@.drop_last());
                assert(old(self).order@.remove(k) =~= old(self).order@.drop_last());
            }
            Some(value)
        }
    }

    /// Takes the value at the front of the list, if there is one.
    pub fn pop_front(&mut self) -> (r: Option<T>)
        requires
            old(self).wf(),
        ensures
            final(self).wf(),
            old(self)@.len() == 0 ==> r.is_none() && final(self)@ == old(self)@ && final(self).keys() == old(self).keys(),
            old(self)@.len() > 0 ==> r == Some(old(self)@[0]) && final(self)@ == old(self)@.remove(0) && final(self).keys() == old(self).keys().remove(0),
    {
        if self.len() == 0 {
            None
        } else {
            let head = self.head;
            let value = self.unlink(head, Ghost(0));
            Some(value)
        }
    }

    /// Whether `index` is the key of a node.
    pub fn contains_key(&self, index: usize) -> (r: bool)
        requires
            self.wf(),
        ensures
            r == self.keys().contains(index),
    {
        get(&self.links, index).is_some()
    }

    /// Takes the node with the key `index` out of the list, and returns its
    /// value.
    pub fn remove(&mut self, index: usize) -> (value: T)
        requires
            old(self).wf(),
            old(self).keys().contains(index),
        ensures
            final(self).wf(),
            exists|k: int|
                {
                    &&& 0 <= k < old(self).keys().len()
                    &&& old(self).keys()[k] == index
                    &&& value == old(self)@[k]
                    &&& final(self)@ == old(self)@.remove(k)
                    &&& #[trigger] old(self).keys().remove(k) == final(self).keys()
                },
    {
        let ghost k = choose|k: int| 0 <= k < self.order@.len() && self.order@[k] == index;
        self.unlink(index, Ghost(k))
    }

    /// The value at the front of the list, if there is one.
    pub fn peek_front(&self) -> (r: Option<&T>)
        requires
            self.wf(),
        ensures
            self@.len() == 0 ==> r.is_none(),
            self@.len() > 0 ==> r == Some(&self@[0]),
    {
        if self.len() == 0 {
            None
        } else {
            self.values[self.head].as_ref()
        }
    }

    /// The value at the back of the list, if there is one.
    pub fn peek_back(&self) -> (r: Option<&T>)
        requires
            self.wf(),
        ensures
            self@.len() == 0 ==> r.is_none(),
            self@.len() > 0 ==> r == Some(&self@.last()),
    {
        if self.len() == 0 {
            None
        } else {
            self.values[self.tail].as_ref()
        }
    }

    /// The list as a source of its values from either end.
    pub fn into_iter(self) -> (r: IntoIter<T>)
        requires
            self.wf(),
        ensures
            r.0 == self,
    {
        IntoIter(self)
    }
}

/// A list that gives its values away from the front and from the back.
pub struct IntoIter<T>(pub List<T>);

impl<T> IntoIter<T> {
    /// The next value from the front, if one is left.
    pub fn next(&mut self) -> (r: Option<T>)
        requires
            old(self).0.wf(),
        ensures
            final(self).0.wf(),
            old(self).0@.len() == 0 ==> r.is_none() && final(self).0@ == old(self).0@,
            old(self).0@.len() > 0 ==> r == Some(old(self).0@[0]) && final(self).0@ == old(self).0@.remove(0),
    {
        self.0.pop_front()
    }

    /// The next value from the back, if one is left.
    pub fn next_back(&mut self) -> (r: Option<T>)
        requires
            old(self).0.wf(),
        ensures
            final(self).0.wf(),
            old(self).0@.len() == 0 ==> r.is_none() && final(self).0@ == old(self).0@,
            old(self).0@.len() > 0 ==> r == Some(old(self).0@.last()) && final(self).0@ == old(self).0@.drop_last(),
    {
        self.0.pop_back()
    }
}

} // verus!
