use crate::cloning::clones_of;
use vstd::prelude::*;

verus! {

/// A value of the cache with its place in the list of use: the places of the
/// entries used just after and just before it.
pub struct Entry<T> {
    val: T,
    prev: usize,
    next: usize,
}

/// A cache of at most `N` values that lets go of the one used least
/// recently when a new one comes in and it is full. The values stand in a
/// vector and never change their place in it; the order of use is a list
/// that runs through them from `head`, the most recently used, to `tail`.
///
/// The view of a cache is the sequence of its values, the most recently used
/// first.
pub struct LRUCache<T, const N: usize> {
    entries: Vec<Entry<T>>,
    head: usize,
    tail: usize,
    length: usize,
    /// The places of the entries in the order of use.
    order: Ghost<Seq<usize>>,
}

impl<T, const N: usize> View for LRUCache<T, N> {
    type V = Seq<T>;

    closed spec fn view(&self) -> Seq<T> {
        Seq::new(self.order@.len(), |k: int| self.entries@[self.order@[k] as int].val)
    }
}

impl<T, const N: usize> Default for LRUCache<T, N> {
    /// An empty cache.
    fn default() -> (cache: Self)
        ensures
            cache.wf(),
            cache@ == Seq::<T>::empty(),
    {
        Self::new()
    }
}

impl<T: Clone, const N: usize> Clone for LRUCache<T, N> {
    /// A cache that holds a clone of each value, in the same order of use.
    fn clone(&self) -> (r: Self)
        ensures
            self.wf() ==> r.wf() && clones_of(self@, r@),
    {
        let mut entries: Vec<Entry<T>> = Vec::new();
        let mut i: usize = 0;
        while i < self.entries.len()
            invariant
                i <= self.entries@.len(),
                entries@.len() == i,
                forall|j: int|
                    0 <= j < i ==> {
                        &&& cloned(self.entries@[j].val, (#[trigger] entries@[j]).val)
                        &&& entries@[j].prev == self.entries@[j].prev
                        &&& entries@[j].next == self.entries@[j].next
                    },
            decreases self.entries@.len() - i,
        {
            let entry = &self.entries[i];
            entries.push(Entry { val: entry.val.clone(), prev: entry.prev, next: entry.next });
            i += 1;
        }
        let r = LRUCache {
            entries,
            head: self.head,
            tail: self.tail,
            length: self.length,
            order: Ghost(self.order@),
        };
        proof {
            if self.wf() {
                assert forall|k: int| 0 <= k < self@.len() implies cloned(
                    #[trigger] self@[k],
                    r@[k],
                ) by {
                    assert(self.order@[k] < self.entries@.len());
                }
            }
        }
        r
    }
}

/// The sequence `s` with its element `k` moved to the front.
pub open spec fn touched<T>(s: Seq<T>, k: int) -> Seq<T> {
    seq![s[k]] + s.remove(k)
}

impl<T, const N: usize> LRUCache<T, N> {
    /// The list runs through the entries at the places `order`, in that
    /// order, from `head` to `tail`: each of them notes the one after it, and
    /// each but the first the one before it.
    pub closed spec fn linked(self) -> bool {
        let order = self.order@;
        &&& order.no_duplicates()
        &&& forall|k: int| 0 <= k < order.len() ==> #[trigger] order[k] < self.entries@.len()
        &&& order.len() > 0 ==> self.head == order[0] && self.tail == order.last()
        &&& forall|k: int|
            0 <= k < order.len() - 1 ==> (#[trigger] self.entries@[order[k] as int]).next == order[k
                + 1]
        &&& forall|k: int|
            1 <= k < order.len() ==> (#[trigger] self.entries@[order[k] as int]).prev == order[k
                - 1]
    }

    /// The list runs through all the entries, of which there are no more
    /// than `N`, and their number is counted rightly.
    pub closed spec fn wf(self) -> bool {
        &&& self.linked()
        &&& self.order@.len() == self.entries@.len()
        &&& self.length == self.entries@.len()
        &&& self.entries@.len() <= N
    }

    /// An empty cache.
    pub fn new() -> (cache: Self)
        ensures
            cache.wf(),
            cache@ == Seq::<T>::empty(),
    {
        let cache = LRUCache {
            entries: Vec::new(),
            head: 0,
            tail: 0,
            length: 0,
            order: Ghost(Seq::empty()),
        };
        assert(cache@ =~= Seq::<T>::empty());
        cache
    }

    /// The number of values in the cache.
    pub fn len(&self) -> (r: usize)
        requires
            self.wf(),
        ensures
            r == self@.len(),
    {
        self.length
    }

    pub fn is_empty(&self) -> (r: bool)
        requires
            self.wf(),
        ensures
            r == (self@.len() == 0),
    {
        self.length == 0
    }

    /// The value used most recently, if there is one.
    pub fn front(&self) -> (r: Option<&T>)
        requires
            self.wf(),
        ensures
            self@.len() == 0 ==> r.is_none(),
            self@.len() > 0 ==> r == Some(&self@[0]),
    {
        if self.head < self.entries.len() {
            Some(&self.entries[self.head].val)
        } else {
            None
        }
    }

    /// The value used most recently, if there is one, for changing it.
    pub fn front_mut(&mut self) -> (r: Option<&mut T>)
        requires
            old(self).wf(),
        ensures
            old(self)@.len() == 0 ==> r.is_none() && final(self)@ == old(self)@ && final(self).wf(),
            old(self)@.len() > 0 ==> {
                &&& r.is_some()
                &&& *r.unwrap() == old(self)@[0]
                &&& final(self)@ == old(self)@.update(0, *final(r.unwrap()))
                &&& final(self).wf()
            },
    {
        if self.head < self.entries.len() {
            let entry = &mut self.entries[self.head];
            let r = &mut entry.val;
            Some(r)
        } else {
            None
        }
    }

    /// The values of the cache, the most recently used first.
    pub fn values(&self) -> (r: Vec<&T>)
        requires
            self.wf(),
        ensures
            r@.len() == self@.len(),
            forall|k: int| 0 <= k < r@.len() ==> *r@[k] == self@[k],
    {
        let mut r: Vec<&T> = Vec::new();
        let mut pos = self.head;
        let mut k: usize = 0;
        while k < self.length
            invariant
                self.wf(),
                k <= self.length,
                k < self.length ==> pos == self.order@[k as int],
                r@.len() == k,
                forall|j: int| 0 <= j < k ==> *r@[j] == self@[j],
            decreases self.length - k,
        {
            r.push(&self.entries[pos].val);
            pos = self.entries[pos].next;
            k += 1;
        }
        r
    }

    /// Empties the cache.
    pub fn clear(&mut self)
        ensures
            final(self).wf(),
            final(self)@ == Seq::<T>::empty(),
    {
        self.entries.clear();
        self.head = 0;
        self.tail = 0;
        self.length = 0;
        self.order = Ghost(Seq::empty());
        assert(self@ =~= Seq::<T>::empty());
    }

    /// Takes `val` in as the value used most recently. A full cache first
    /// lets go of the value used least recently.
    pub fn insert(&mut self, val: T)
        requires
            old(self).wf(),
            N > 0,
        ensures
            final(self).wf(),
            final(self)@ == seq![val] + if old(self)@.len() == N {
                old(self)@.drop_last()
            } else {
                old(self)@
            },
    {
        let entry = Entry { val, prev: 0, next: 0 };
        // the cache is full
        let new_head = if self.length == N {
            // the place of the oldest entry
            let last_index = self.pop_back();
            // the new entry takes the place of the oldest
            self.put(last_index, entry);
            last_index
        } else {
            self.entries.push(entry);
            self.length += 1;
            proof {
                assert(self@ =~= old(self)@);
            }
            self.entries.len() - 1
        };
        self.push_front(new_head);
    }

    /// Puts `entry` at the place `index`, which the list does not run
    /// through.
    fn put(&mut self, index: usize, entry: Entry<T>)
        requires
            old(self).linked(),
            index < old(self).entries@.len(),
            !old(self).order@.contains(index),
        ensures
            final(self).linked(),
            final(self).order@ == old(self).order@,
            final(self).length == old(self).length,
            final(self).entries@ == old(self).entries@.update(index as int, entry),
            final(self)@ == old(self)@,
    {
        self.entries[index] = entry;
        proof {
            let order = self.order@;
            assert forall|k: int| 0 <= k < order.len() implies self.entries@[order[k] as int]
                == old(self).entries@[order[k] as int] by {
                assert(order.contains(order[k]));
            }
            assert(self@ =~= old(self)@);
        }
    }

    /// Moves the first value of which `pred` says `true` to the front.
    /// Returns whether there is one.
    pub fn touch<F: Fn(&T) -> bool>(&mut self, pred: F) -> (r: bool)
        requires
            old(self).wf(),
            forall|x: &T| call_requires(pred, (x,)),
        ensures
            final(self).wf(),
            r ==> exists|k: int|
                {
                    &&& 0 <= k < old(self)@.len()
                    &&& call_ensures(pred, (&old(self)@[k],), true)
                    &&& forall|j: int| 0 <= j < k ==> call_ensures(pred, (&old(self)@[j],), false)
                    &&& #[trigger] touched(old(self)@, k) == final(self)@
                },
            !r ==> final(self)@ == old(self)@ && forall|j: int|
                0 <= j < old(self)@.len() ==> call_ensures(pred, (&old(self)@[j],), false),
    {
        let mut pos = self.head;
        let mut k: usize = 0;
        while k < self.length
            invariant
                self.wf(),
                *self == *old(self),
                k <= self.length,
                k < self.length ==> pos == self.order@[k as int],
                forall|x: &T| call_requires(pred, (x,)),
                forall|j: int| 0 <= j < k ==> call_ensures(pred, (&self@[j],), false),
            decreases self.length - k,
        {
            if pred(&self.entries[pos].val) {
                self.touch_index(pos, Ghost(k as int));
                return true;
            }
            pos = self.entries[pos].next;
            k += 1;
        }
        false
    }

    /// Looks for the first value for which `pred` has an answer, moves it to
    /// the front, and returns the answer.
    pub fn lookup<F: Fn(&T) -> Option<R>, R>(&mut self, pred: F) -> (r: Option<R>)
        requires
            old(self).wf(),
            forall|x: &T| call_requires(pred, (x,)),
        ensures
            final(self).wf(),
            r.is_some() ==> exists|k: int|
                {
                    &&& 0 <= k < old(self)@.len()
                    &&& call_ensures(pred, (&old(self)@[k],), r)
                    &&& forall|j: int|
                        0 <= j < k ==> call_ensures(pred, (&old(self)@[j],), None::<R>)
                    &&& #[trigger] touched(old(self)@, k) == final(self)@
                },
            r.is_none() ==> final(self)@ == old(self)@ && forall|j: int|
                0 <= j < old(self)@.len() ==> call_ensures(pred, (&old(self)@[j],), None::<R>),
    {
        let mut pos = self.head;
        let mut k: usize = 0;
        while k < self.length
            invariant
                self.wf(),
                *self == *old(self),
                k <= self.length,
                k < self.length ==> pos == self.order@[k as int],
                forall|x: &T| call_requires(pred, (x,)),
                forall|j: int| 0 <= j < k ==> call_ensures(pred, (&self@[j],), None::<R>),
            decreases self.length - k,
        {
            let answer = pred(&self.entries[pos].val);
            if answer.is_some() {
                self.touch_index(pos, Ghost(k as int));
                return answer;
            }
            pos = self.entries[pos].next;
            k += 1;
        }
        None
    }

    /// Moves the first value of which `pred` says `true` to the front, and
    /// returns it for changing it.
    pub fn fetch<F: Fn(&T) -> bool>(&mut self, pred: F) -> (r: Option<&mut T>)
        requires
            old(self).wf(),
            forall|x: &T| call_requires(pred, (x,)),
        ensures
            final(self).wf(),
            r.is_some() ==> exists|k: int|
                {
                    &&& 0 <= k < old(self)@.len()
                    &&& call_ensures(pred, (&old(self)@[k],), true)
                    &&& forall|j: int| 0 <= j < k ==> call_ensures(pred, (&old(self)@[j],), false)
                    &&& *r.unwrap() == old(self)@[k]
                    &&& #[trigger] touched(old(self)@, k).update(0, *final(r.unwrap())) == final(self)@
                },
            r.is_none() ==> final(self)@ == old(self)@ && forall|j: int|
                0 <= j < old(self)@.len() ==> call_ensures(pred, (&old(self)@[j],), false),
    {
        if self.touch(pred) {
            self.front_mut()
        } else {
            None
        }
    }

    /// Puts the entry at `index`, which is the `k`-th in the order of use,
    /// first in the list.
    fn touch_index(&mut self, index: usize, Ghost(k): Ghost<int>)
        requires
            old(self).wf(),
            0 <= k < old(self).order@.len(),
            old(self).order@[k] == index,
        ensures
            final(self).wf(),
            final(self)@ == touched(old(self)@, k),
    {
        if index != self.head {
            self.remove(index, Ghost(k));
            // `remove` has counted one entry less
            self.length += 1;
            self.push_front(index);
            proof {
                assert(self@ =~= touched(old(self)@, k));
            }
        } else {
            proof {
                assert(old(self).order@[0] == index);
                assert(self@ =~= touched(old(self)@, k));
            }
        }
    }

    /// Makes the entry at `index`, which the list does not run through, the
    /// head of the list.
    fn push_front(&mut self, index: usize)
        requires
            old(self).linked(),
            index < old(self).entries@.len(),
            !old(self).order@.contains(index),
            old(self).entries@.len() == 1 <==> old(self).order@.len() == 0,
        ensures
            final(self).linked(),
            final(self).order@ == seq![index] + old(self).order@,
            final(self).length == old(self).length,
            final(self).entries@.len() == old(self).entries@.len(),
            forall|i: int|
                0 <= i < final(self).entries@.len() ==> (#[trigger] final(self).entries@[i]).val
                    == old(self).entries@[i].val,
            final(self)@ == seq![old(self).entries@[index as int].val] + old(self)@,
    {
        if self.entries.len() == 1 {
            self.tail = index;
        } else {
            let head = self.head;
            self.entries[index].next = head;
            self.entries[head].prev = index;
        }
        self.head = index;
        self.order = Ghost(seq![index] + old(self).order@);
        proof {
            let order = self.order@;
            let before = old(self).order@;
            assert forall|i: int, j: int| 0 <= i < order.len() && 0 <= j < order.len() && i != j implies order[i]
                != order[j] by {
                if i > 0 && j > 0 {
                    assert(before[i - 1] != before[j - 1]);
                } else if i > 0 {
                    assert(before.contains(before[i - 1]));
                } else {
                    assert(before.contains(before[j - 1]));
                }
            }
            assert forall|k: int| 0 <= k < order.len() - 1 implies (
            #[trigger] self.entries@[order[k] as int]).next == order[k + 1] by {
                if k > 0 {
                    assert(before.contains(before[k - 1]));
                    assert(old(self).entries@[before[k - 1] as int].next == before[k - 1 + 1]);
                    if before[k - 1] == old(self).head {
                        assert(before[0] == before[k - 1]);
                    }
                }
            }
            assert forall|k: int| 1 <= k < order.len() implies (
            #[trigger] self.entries@[order[k] as int]).prev == order[k - 1] by {
                assert(before.contains(before[k - 1]));
                if k > 1 {
                    assert(old(self).entries@[before[k - 1] as int].prev == before[k - 1 - 1]);
                    if before[k - 1] == old(self).head {
                        assert(before[0] == before[k - 1]);
                    }
                }
            }
            assert(self@ =~= seq![old(self).entries@[index as int].val] + old(self)@);
        }
    }

    /// Takes the last entry out of the list, and returns its place. The
    /// entry stays in the vector.
    fn pop_back(&mut self) -> (old_tail: usize)
        requires
            old(self).linked(),
            old(self).order@.len() > 0,
        ensures
            final(self).linked(),
            old_tail == old(self).order@.last(),
            final(self).order@ == old(self).order@.drop_last(),
            final(self).length == old(self).length,
            final(self).entries@ == old(self).entries@,
            !final(self).order@.contains(old_tail),
            final(self)@ == old(self)@.drop_last(),
    {
        let old_tail = self.tail;
        let new_tail = self.entries[old_tail].prev;
        self.tail = new_tail;
        self.order = Ghost(old(self).order@.drop_last());
        proof {
            let order = self.order@;
            let before = old(self).order@;
            assert forall|k: int| 0 <= k < order.len() - 1 implies (
            #[trigger] self.entries@[order[k] as int]).next == order[k + 1] by {
                assert(old(self).entries@[before[k] as int].next == before[k + 1]);
            }
            assert forall|k: int| 1 <= k < order.len() implies (
            #[trigger] self.entries@[order[k] as int]).prev == order[k - 1] by {
                assert(old(self).entries@[before[k] as int].prev == before[k - 1]);
            }
            if order.len() > 0 {
                assert(old(self).entries@[before[before.len() - 1] as int].prev == before[before.len()
                    - 2]);
            }
            assert(order.no_duplicates()) by {
                assert forall|i: int, j: int|
                    0 <= i < order.len() && 0 <= j < order.len() && i != j implies order[i]
                    != order[j] by {
                    assert(before[i] != before[j]);
                }
            }
            if order.contains(old_tail) {
                let i = choose|i: int| 0 <= i < order.len() && order[i] == old_tail;
                assert(before[i] == before[before.len() - 1]);
            }
            assert(self@ =~= old(self)@.drop_last());
        }
        old_tail
    }

    /// Takes the entry at `index`, which is the `k`-th in the order of use,
    /// out of the list. The entry stays in the vector.
    fn remove(&mut self, index: usize, Ghost(k): Ghost<int>)
        requires
            old(self).linked(),
            old(self).length > 0,
            0 <= k < old(self).order@.len(),
            old(self).order@[k] == index,
        ensures
            final(self).linked(),
            final(self).order@ == old(self).order@.remove(k),
            final(self).length == old(self).length - 1,
            final(self).entries@.len() == old(self).entries@.len(),
            forall|i: int|
                0 <= i < final(self).entries@.len() ==> (#[trigger] final(self).entries@[i]).val
                    == old(self).entries@[i].val,
            !final(self).order@.contains(index),
            final(self)@ == old(self)@.remove(k),
    {
        let prev = self.entries[index].prev;
        let next = self.entries[index].next;
        let ghost before = old(self).order@;
        proof {
            if k > 0 {
                assert(old(self).entries@[before[k] as int].prev == before[k - 1]);
            }
            if k < before.len() - 1 {
                assert(old(self).entries@[before[k] as int].next == before[k + 1]);
            }
            if index == self.head {
                assert(before[0] == before[k]);
            }
            if index == self.tail {
                assert(before[before.len() - 1] == before[k]);
            }
        }
        if index == self.head {
            self.head = next;
        } else {
            self.entries[prev].next = next;
        }
        if index == self.tail {
            self.tail = prev;
        } else {
            self.entries[next].prev = prev;
        }
        self.length -= 1;
        self.order = Ghost(before.remove(k));
        proof {
            let order = self.order@;
            assert(order.no_duplicates()) by {
                assert forall|i: int, j: int|
                    0 <= i < order.len() && 0 <= j < order.len() && i != j implies order[i]
                    != order[j] by {
                    let i0 = if i < k { i } else { i + 1 };
                    let j0 = if j < k { j } else { j + 1 };
                    assert(before[i0] != before[j0]);
                }
            }
            assert forall|j: int| 0 <= j < order.len() - 1 implies (
            #[trigger] self.entries@[order[j] as int]).next == order[j + 1] by {
                let j0 = if j < k { j } else { j + 1 };
                assert(old(self).entries@[before[j0] as int].next == before[j0 + 1]);
                assert(before[j0] != before[k]);
                if k > 0 {
                    assert(j0 != k - 1 ==> before[j0] != before[k - 1]);
                }
                if k < before.len() - 1 {
                    assert(j0 != k + 1 ==> before[j0] != before[k + 1]);
                }
            }
            assert forall|j: int| 1 <= j < order.len() implies (
            #[trigger] self.entries@[order[j] as int]).prev == order[j - 1] by {
                let j0 = if j < k { j } else { j + 1 };
                assert(old(self).entries@[before[j0] as int].prev == before[j0 - 1]);
                assert(before[j0] != before[k]);
                if k > 0 {
                    assert(j0 != k - 1 ==> before[j0] != before[k - 1]);
                }
                if k < before.len() - 1 {
                    assert(j0 != k + 1 ==> before[j0] != before[k + 1]);
                }
            }
            assert forall|j: int| 0 <= j < order.len() implies #[trigger] order[j]
                < self.entries@.len() by {
                let j0 = if j < k { j } else { j + 1 };
                assert(before[j0] < old(self).entries@.len());
            }
            if order.contains(index) {
                let i = choose|i: int| 0 <= i < order.len() && order[i] == index;
                let i0 = if i < k { i } else { i + 1 };
                assert(before[i0] == before[k]);
            }
            assert(self@ =~= old(self)@.remove(k));
        }
    }
}

} // verus!
