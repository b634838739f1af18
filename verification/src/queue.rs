use crate::vecs::reverse;
use vstd::prelude::*;

verus! {

/// A first-in, first-out queue kept in two stacks: `newer`, onto which
/// elements are pushed, and `older`, from whose end they are popped.
///
/// The view of a queue is the sequence of its elements, the next to leave
/// first.
pub struct Queue<T> {
    older: Vec<T>,
    newer: Vec<T>,
}

impl<T> View for Queue<T> {
    type V = Seq<T>;

    open spec fn view(&self) -> Seq<T> {
        self.older().reverse() + self.newer()
    }
}

impl<T> Queue<T> {
    /// The elements that were turned over for leaving, the next to leave
    /// last.
    pub closed spec fn older(self) -> Seq<T> {
        self.older@
    }

    /// The elements pushed since the stacks were last turned over, the
    /// latest last.
    pub closed spec fn newer(self) -> Seq<T> {
        self.newer@
    }

    pub fn new() -> (q: Queue<T>)
        ensures
            q.older() == Seq::<T>::empty(),
            q.newer() == Seq::<T>::empty(),
            q@ == Seq::<T>::empty(),
    {
        let q = Queue { older: Vec::new(), newer: Vec::new() };
        assert(q@ =~= Seq::<T>::empty());
        q
    }

    /// Puts `t` at the back of the queue.
    pub fn push(&mut self, t: T)
        ensures
            final(self).older() == old(self).older(),
            final(self).newer() == old(self).newer().push(t),
            final(self)@ == old(self)@.push(t),
    {
        self.newer.push(t);
        assert(self@ =~= old(self)@.push(t));
    }

    pub fn is_empty(&self) -> (r: bool)
        ensures
            r == (self@.len() == 0),
    {
        self.older.is_empty() && self.newer.is_empty()
    }

    /// Takes the element at the front of the queue, if there is one. Where
    /// no element is ready to leave, those pushed last are turned over first.
    pub fn pop(&mut self) -> (r: Option<T>)
        ensures
            old(self)@.len() == 0 ==> r.is_none() && final(self)@ == old(self)@,
            old(self)@.len() > 0 ==> r == Some(old(self)@[0]) && final(self)@ == old(self)@.subrange(
                1,
                old(self)@.len() as int,
            ),
            old(self).older().len() > 0 ==> {
                &&& final(self).older() == old(self).older().drop_last()
                &&& final(self).newer() == old(self).newer()
            },
            old(self).older().len() == 0 && old(self).newer().len() > 0 ==> {
                &&& final(self).older() == old(self).newer().reverse().drop_last()
                &&& final(self).newer() == Seq::<T>::empty()
            },
            old(self)@.len() == 0 ==> {
                &&& final(self).older() == old(self).older()
                &&& final(self).newer() == old(self).newer()
            },
    {
        if self.older.is_empty() {
            if self.newer.is_empty() {
                return None;
            }
            core::mem::swap(&mut self.older, &mut self.newer);
            reverse(&mut self.older);
        }
        let r = self.older.pop();
        proof {
            assert(self@ =~= old(self)@.subrange(1, old(self)@.len() as int));
        }
        r
    }

    /// Gives the two stacks up: first the elements ready to leave, the next
    /// to leave last, then the elements pushed since, the latest last.
    pub fn split(self) -> (r: (Vec<T>, Vec<T>))
        ensures
            r.0@ == self.older(),
            r.1@ == self.newer(),
    {
        (self.older, self.newer)
    }
}

} // verus!
