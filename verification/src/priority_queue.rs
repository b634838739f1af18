use crate::order::{lt, rank, total_order, Rank};
use crate::vecs::swap;
use vstd::prelude::*;

verus! {

/// Exchanging two elements of a sequence changes nothing in what it holds.
pub proof fn lemma_exchange<T>(s: Seq<T>, i: int, j: int)
    requires
        0 <= i < s.len(),
        0 <= j < s.len(),
    ensures
        s.update(i, s[j]).update(j, s[i]).to_multiset() == s.to_multiset(),
{
    let t = s.update(i, s[j]);
    vstd::seq_lib::to_multiset_update(s, i, s[j]);
    vstd::seq_lib::to_multiset_update(t, j, s[i]);
    vstd::seq_lib::to_multiset_contains(s, s[i]);
    vstd::seq_lib::to_multiset_contains(s, s[j]);
    assert(t.update(j, s[i]).to_multiset() =~= s.to_multiset());
}

/// A way of ranking the values of `T`: by it a queue decides which of its
/// elements leaves first.
pub trait Comparator<T> {
    /// The comparator can be called on any two values, and ranks two given
    /// values in one way only.
    spec fn usable(&self) -> bool;

    /// How `a` ranks against `b`: `Greater` where `a` is to leave the queue
    /// before `b`, `Less` where after it.
    spec fn ranks(&self, a: T, b: T) -> Rank;

    fn compare(&self, a: &T, b: &T) -> (r: Rank)
        requires
            self.usable(),
        ensures
            r == self.ranks(*a, *b),
    ;
}

/// The comparator that ranks the values of `T` by their own order, the
/// greatest highest.
pub struct Natural;

impl<T: Ord> Comparator<T> for Natural {
    open spec fn usable(&self) -> bool {
        total_order::<T>()
    }

    open spec fn ranks(&self, a: T, b: T) -> Rank {
        if lt(a, b) {
            Rank::Less
        } else if a == b {
            Rank::Equal
        } else {
            Rank::Greater
        }
    }

    fn compare(&self, a: &T, b: &T) -> (r: Rank) {
        rank(a, b)
    }
}

/// A function or closure that ranks two values is a comparator, provided
/// that it accepts every two values and answers in one way only.
impl<T, F: Fn(&T, &T) -> Rank> Comparator<T> for F {
    open spec fn usable(&self) -> bool {
        &&& forall|a: T, b: T| call_requires(*self, (&a, &b))
        &&& forall|a: T, b: T, r1: Rank, r2: Rank|
            call_ensures(*self, (&a, &b), r1) && call_ensures(*self, (&a, &b), r2) ==> r1 == r2
    }

    open spec fn ranks(&self, a: T, b: T) -> Rank {
        choose|r: Rank| call_ensures(*self, (&a, &b), r)
    }

    fn compare(&self, a: &T, b: &T) -> (r: Rank) {
        let r = self(a, b);
        proof {
            let chosen = choose|r: Rank| call_ensures(*self, (a, b), r);
            assert(call_ensures(*self, (a, b), r));
            assert(call_ensures(*self, (a, b), chosen));
        }
        r
    }
}

/// `a` does not rank above `b`.
pub open spec fn le<T, C: Comparator<T>>(c: C, a: T, b: T) -> bool {
    c.ranks(a, b) !== Rank::Greater
}

/// The ranking is a total preorder: of two values one ranks below the other
/// exactly where the other ranks above it, and a value that does not rank
/// above a second, which does not rank above a third, does not rank above the
/// third.
pub open spec fn preorder<T, C: Comparator<T>>(c: C) -> bool {
    &&& forall|a: T, b: T|
        #![trigger c.ranks(a, b)]
        (c.ranks(a, b) === Rank::Less <==> c.ranks(b, a) === Rank::Greater)
    &&& forall|x: T, y: T, z: T|
        #![trigger le(c, x, y), le(c, y, z)]
        le(c, x, y) && le(c, y, z) ==> le(c, x, z)
}

/// No element of `s` ranks above the one at half its place: the elements
/// form a heap whose top is the first.
pub open spec fn heap<T, C: Comparator<T>>(c: C, s: Seq<T>) -> bool {
    forall|i: int| 1 <= i < s.len() ==> le(c, #[trigger] s[i], s[(i - 1) / 2])
}

/// No element of `s` ranks above the one at half its place, except perhaps
/// the one at `pos`, whose own followers do not rank above the one it
/// follows.
pub open spec fn heap_but_up<T, C: Comparator<T>>(c: C, s: Seq<T>, pos: int) -> bool {
    &&& forall|i: int| 1 <= i < s.len() && i != pos ==> le(c, #[trigger] s[i], s[(i - 1) / 2])
    &&& forall|i: int|
        1 <= i < s.len() && (i - 1) / 2 == pos && pos > 0 ==> le(
            c,
            #[trigger] s[i],
            s[(pos - 1) / 2],
        )
}

/// No element of `s` ranks above the one at half its place, except perhaps
/// the followers of the one at `pos`, which do not rank above the one that
/// `pos` follows.
pub open spec fn heap_but_down<T, C: Comparator<T>>(c: C, s: Seq<T>, pos: int) -> bool {
    &&& forall|i: int|
        1 <= i < s.len() && (i - 1) / 2 != pos ==> le(c, #[trigger] s[i], s[(i - 1) / 2])
    &&& forall|i: int|
        1 <= i < s.len() && (i - 1) / 2 == pos && pos > 0 ==> le(
            c,
            #[trigger] s[i],
            s[(pos - 1) / 2],
        )
}

/// In a heap no element ranks above the first.
pub proof fn lemma_heap_top<T, C: Comparator<T>>(c: C, s: Seq<T>, i: int)
    requires
        preorder(c),
        heap(c, s),
        0 <= i < s.len(),
    ensures
        le(c, s[i], s[0]),
    decreases i,
{
    if i == 0 {
        // a value ranks neither above nor below itself
        assert(c.ranks(s[0], s[0]) === Rank::Less <==> c.ranks(s[0], s[0]) === Rank::Greater);
    } else {
        lemma_heap_top(c, s, (i - 1) / 2);
        assert(le(c, s[i], s[(i - 1) / 2]));
    }
}

/// One step of sinking: the element at `pos` ranks below `child`, the
/// higher of its followers, and changes places with it.
pub proof fn lemma_sink_step<T, C: Comparator<T>>(
    c: C,
    s: Seq<T>,
    t: Seq<T>,
    pos: int,
    child: int,
    other: int,
)
    requires
        preorder(c),
        heap_but_down(c, s, pos),
        0 <= pos,
        child < s.len(),
        (child == 2 * pos + 1 && other == 2 * pos + 2) || (child == 2 * pos + 2 && other == 2
            * pos + 1),
        other < s.len() ==> le(c, s[other], s[child]),
        c.ranks(s[pos], s[child]) === Rank::Less,
        t == s.update(pos, s[child]).update(child, s[pos]),
    ensures
        heap_but_down(c, t, child),
{
    assert(c.ranks(s[child], s[pos]) === Rank::Greater);
    assert(le(c, s[pos], s[child]));
    assert forall|i: int| 1 <= i < t.len() && (i - 1) / 2 != child implies le(
        c,
        #[trigger] t[i],
        t[(i - 1) / 2],
    ) by {
        let p = (i - 1) / 2;
        if i == child {
        } else if i == other {
        } else if i == pos {
            assert(le(c, s[child], s[p]));
        } else {
            assert(p != pos);
            assert(le(c, s[i], s[p]));
        }
    }
    assert forall|i: int| 1 <= i < t.len() && (i - 1) / 2 == child && child > 0 implies le(
        c,
        #[trigger] t[i],
        t[(child - 1) / 2],
    ) by {
        assert(le(c, s[i], s[child]));
    }
}

/// The end of sinking: the element at `pos` has no follower, or does not
/// rank below `child`, the higher of its followers.
pub proof fn lemma_sink_done<T, C: Comparator<T>>(c: C, s: Seq<T>, pos: int, child: int, other: int)
    requires
        preorder(c),
        heap_but_down(c, s, pos),
        0 <= pos,
        2 * pos + 1 < s.len() ==> {
            &&& child < s.len()
            &&& (child == 2 * pos + 1 && other == 2 * pos + 2) || (child == 2 * pos + 2 && other
                == 2 * pos + 1)
            &&& other < s.len() ==> le(c, s[other], s[child])
            &&& c.ranks(s[pos], s[child]) !== Rank::Less
        },
    ensures
        heap(c, s),
{
    assert forall|i: int| 1 <= i < s.len() implies le(c, #[trigger] s[i], s[(i - 1) / 2]) by {
        if (i - 1) / 2 == pos {
            assert(c.ranks(s[child], s[pos]) !== Rank::Greater);
            assert(le(c, s[child], s[pos]));
            if i == other {
                assert(le(c, s[other], s[child]));
            }
        }
    }
}

/// One step of rising: the element at `pos` ranks above the one at half its
/// place and changes places with it.
pub proof fn lemma_rise_step<T, C: Comparator<T>>(c: C, s: Seq<T>, t: Seq<T>, pos: int)
    requires
        preorder(c),
        heap_but_up(c, s, pos),
        0 < pos < s.len(),
        c.ranks(s[pos], s[(pos - 1) / 2]) === Rank::Greater,
        t == s.update(pos, s[(pos - 1) / 2]).update((pos - 1) / 2, s[pos]),
    ensures
        heap_but_up(c, t, (pos - 1) / 2),
{
    let parent = (pos - 1) / 2;
    assert(c.ranks(s[parent], s[pos]) === Rank::Less);
    assert(le(c, s[parent], s[pos]));
    assert forall|i: int| 1 <= i < t.len() && i != parent implies le(
        c,
        #[trigger] t[i],
        t[(i - 1) / 2],
    ) by {
        let p = (i - 1) / 2;
        if i == pos {
        } else if p == pos {
            assert(le(c, s[i], s[parent]));
        } else if p == parent {
            assert(le(c, s[i], s[parent]));
        } else {
            assert(le(c, s[i], s[p]));
        }
    }
    assert forall|i: int| 1 <= i < t.len() && (i - 1) / 2 == parent && parent > 0 implies le(
        c,
        #[trigger] t[i],
        t[(parent - 1) / 2],
    ) by {
        assert(le(c, s[parent], s[(parent - 1) / 2]));
        if i != pos {
            assert(le(c, s[i], s[parent]));
        }
    }
}

/// A queue from which the element that ranks highest leaves first.
///
/// The view of a queue is the sequence of its elements as the heap holds
/// them: the first is the next to leave.
pub struct PriorityQueue<T, C> {
    storage: Vec<T>,
    comparator: C,
}

impl<T, C> View for PriorityQueue<T, C> {
    type V = Seq<T>;

    closed spec fn view(&self) -> Seq<T> {
        self.storage@
    }
}

impl<T: Ord> Default for PriorityQueue<T, Natural> {
    /// An empty queue from which the greatest element leaves first.
    fn default() -> (q: Self)
        ensures
            q@ == Seq::<T>::empty(),
            q.order() == Natural,
            total_order::<T>() ==> q.wf(),
    {
        let q = PriorityQueue { storage: Vec::new(), comparator: Natural };
        proof {
            if total_order::<T>() {
                lemma_natural::<T>();
            }
        }
        q
    }
}

/// The order of `T`, where it is a total order, is a total preorder.
pub proof fn lemma_natural<T: Ord>()
    requires
        total_order::<T>(),
    ensures
        preorder::<T, Natural>(Natural),
{
    let c = Natural;
    assert forall|a: T, b: T|
        #![trigger c.ranks(a, b)]
        (c.ranks(a, b) === Rank::Less <==> c.ranks(b, a) === Rank::Greater) by {
        if lt(a, b) && lt(b, a) {
            assert(lt(a, a));
        }
    }
    assert forall|x: T, y: T, z: T|
        #![trigger le(c, x, y), le(c, y, z)]
        le(c, x, y) && le(c, y, z) implies le(c, x, z) by {
        if lt(z, x) {
            // then z < x <= y <= z
            if x == y {
            } else {
                assert(lt(x, y));
                assert(lt(z, y));
            }
        }
    }
}

impl<T, C: Comparator<T>> PriorityQueue<T, C> {
    /// The comparator by which the queue ranks its elements.
    pub closed spec fn order(self) -> C {
        self.comparator
    }

    /// The comparator is usable and a total preorder, and the elements form
    /// a heap by it.
    pub closed spec fn wf(self) -> bool {
        &&& self.comparator.usable()
        &&& preorder(self.comparator)
        &&& heap(self.comparator, self.storage@)
    }

    /// In a well-formed queue no element ranks above the first.
    pub proof fn lemma_first_is_highest(self, i: int)
        requires
            self.wf(),
            0 <= i < self@.len(),
        ensures
            le(self.order(), self@[i], self@[0]),
    {
        lemma_heap_top(self.comparator, self.storage@, i);
    }

    /// An empty queue that ranks its elements by `comparator`.
    pub fn new_with(comparator: C) -> (q: Self)
        ensures
            q@ == Seq::<T>::empty(),
            q.order() == comparator,
            comparator.usable() && preorder(comparator) ==> q.wf(),
    {
        PriorityQueue { storage: Vec::new(), comparator }
    }

    /// The element that leaves next, if there is one.
    pub fn peek(&self) -> (r: Option<&T>)
        ensures
            self@.len() == 0 ==> r.is_none(),
            self@.len() > 0 ==> r == Some(&self@[0]),
    {
        self.storage.as_slice().first()
    }

    pub fn len(&self) -> (r: usize)
        ensures
            r == self@.len(),
    {
        self.storage.len()
    }

    /// Takes `value` into the queue.
    pub fn insert(&mut self, value: T)
        requires
            old(self).wf(),
        ensures
            final(self).wf(),
            final(self).order() == old(self).order(),
            final(self)@.len() == old(self)@.len() + 1,
            final(self)@.to_multiset() == old(self)@.to_multiset().insert(value),
    {
        let old_len = self.storage.len();
        self.storage.push(value);
        proof {
            vstd::seq_lib::to_multiset_build(old(self).storage@, value);
            let s = self.storage@;
            let c = self.comparator;
            assert forall|i: int| 1 <= i < s.len() && i != old_len implies le(
                c,
                #[trigger] s[i],
                s[(i - 1) / 2],
            ) by {
                assert(le(c, old(self).storage@[i], old(self).storage@[(i - 1) / 2]));
            }
        }
        self.bubble_up(0, old_len);
    }

    /// Takes out the element that ranks highest, the first of the view, if
    /// there is one.
    pub fn pop(&mut self) -> (r: Option<T>)
        requires
            old(self).wf(),
        ensures
            final(self).wf(),
            final(self).order() == old(self).order(),
            old(self)@.len() == 0 ==> r.is_none() && final(self)@ == old(self)@,
            old(self)@.len() > 0 ==> {
                &&& r == Some(old(self)@[0])
                &&& final(self)@.len() + 1 == old(self)@.len()
                &&& final(self)@.to_multiset() == old(self)@.to_multiset().remove(old(self)@[0])
            },
    {
        let n = self.len();
        if n == 0 {
            None
        } else if n == 1 {
            let r = self.storage.pop();
            proof {
                vstd::seq_lib::to_multiset_remove(old(self).storage@, 0);
                assert(self.storage@ =~= old(self).storage@.remove(0));
            }
            r
        } else {
            let rv = self.storage.swap_remove(0);
            proof {
                let s0 = old(self).storage@;
                let s = self.storage@;
                let c = self.comparator;
                let last = s0.len() - 1;
                // the last element took the place of the first
                lemma_exchange(s0, 0, last);
                let x = s0.update(0, s0[last]).update(last, s0[0]);
                assert(s =~= x.remove(last));
                vstd::seq_lib::to_multiset_remove(x, last);
                assert forall|i: int| 1 <= i < s.len() && (i - 1) / 2 != 0 implies le(
                    c,
                    #[trigger] s[i],
                    s[(i - 1) / 2],
                ) by {
                    assert(le(c, s0[i], s0[(i - 1) / 2]));
                }
            }
            self.sift_down(0);
            Some(rv)
        }
    }

    /// Lets the element at `pos` rise past those that it ranks above, and
    /// that begin no lower than `start`, until it stands below one that it
    /// does not rank above.
    fn bubble_up(&mut self, start: usize, pos: usize)
        requires
            old(self).comparator.usable(),
            preorder(old(self).comparator),
            pos < old(self).storage@.len(),
            start == 0,
            heap_but_up(old(self).comparator, old(self).storage@, pos as int),
        ensures
            final(self).comparator == old(self).comparator,
            final(self).storage@.len() == old(self).storage@.len(),
            final(self).storage@.to_multiset() == old(self).storage@.to_multiset(),
            heap(final(self).comparator, final(self).storage@),
    {
        let mut pos = pos;
        while pos > start
            invariant
                start == 0,
                self.comparator == old(self).comparator,
                self.comparator.usable(),
                preorder(self.comparator),
                pos < self.storage@.len(),
                self.storage@.len() == old(self).storage@.len(),
                self.storage@.to_multiset() == old(self).storage@.to_multiset(),
                heap_but_up(self.comparator, self.storage@, pos as int),
            ensures
                heap(self.comparator, self.storage@),
                self.comparator == old(self).comparator,
                self.storage@.len() == old(self).storage@.len(),
                self.storage@.to_multiset() == old(self).storage@.to_multiset(),
            decreases pos,
        {
            let parent = (pos - 1) / 2;
            let ghost s = self.storage@;
            let r = self.comparator.compare(&self.storage[pos], &self.storage[parent]);
            if r == Rank::Greater {
                swap(&mut self.storage, pos, parent);
                proof {
                    lemma_exchange(s, pos as int, parent as int);
                    lemma_rise_step(self.comparator, s, self.storage@, pos as int);
                }
                pos = parent;
            } else {
                break;
            }
        }
    }

    /// Lets the element at `pos` sink below the higher of its followers, as
    /// long as it ranks below that one.
    fn sift_down(&mut self, pos: usize)
        requires
            old(self).comparator.usable(),
            preorder(old(self).comparator),
            pos < old(self).storage@.len(),
            heap_but_down(old(self).comparator, old(self).storage@, pos as int),
        ensures
            final(self).comparator == old(self).comparator,
            final(self).storage@.len() == old(self).storage@.len(),
            final(self).storage@.to_multiset() == old(self).storage@.to_multiset(),
            heap(final(self).comparator, final(self).storage@),
    {
        let mut pos = pos;
        let end = self.len() - 1;
        loop
            invariant
                self.comparator == old(self).comparator,
                self.comparator.usable(),
                preorder(self.comparator),
                pos <= end,
                end + 1 == self.storage@.len(),
                self.storage@.len() == old(self).storage@.len(),
                self.storage@.to_multiset() == old(self).storage@.to_multiset(),
                heap_but_down(self.comparator, self.storage@, pos as int),
            ensures
                heap(self.comparator, self.storage@),
                self.comparator == old(self).comparator,
                self.storage@.len() == old(self).storage@.len(),
                self.storage@.to_multiset() == old(self).storage@.to_multiset(),
            decreases end - pos,
        {
            let ghost c = self.comparator;
            let ghost s = self.storage@;
            if end == 0 || pos > (end - 1) / 2 {
                proof {
                    lemma_sink_done(c, s, pos as int, 0, 0);
                }
                break;
            }
            let mut child = 2 * pos + 1;
            assert(child <= end && end < self.storage.len());
            let right = child + 1;
            if right <= end {
                let r = self.comparator.compare(&self.storage[child], &self.storage[right]);
                if r != Rank::Greater {
                    child = right;
                } else {
                    proof {
                        assert(c.ranks(s[right as int], s[2 * pos + 1]) === Rank::Less);
                    }
                }
            }
            let ghost other = if child == right {
                2 * pos + 1
            } else {
                right as int
            };
            let r = self.comparator.compare(&self.storage[pos], &self.storage[child]);
            if r == Rank::Less {
                swap(&mut self.storage, pos, child);
                proof {
                    lemma_exchange(s, pos as int, child as int);
                    lemma_sink_step(c, s, self.storage@, pos as int, child as int, other);
                }
                pos = child;
            } else {
                proof {
                    lemma_sink_done(c, s, pos as int, child as int, other);
                }
                break;
            }
        }
    }
}

} // verus!
