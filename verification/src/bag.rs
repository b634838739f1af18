use crate::pennant::Pennant;
use vstd::arithmetic::power2::{lemma2_to64, lemma_pow2_strictly_increases, lemma_pow2_unfold, pow2};
use vstd::multiset::Multiset;
use vstd::prelude::*;

verus! {

/// The greatest number of elements that `n` slots can hold, `2^n - 1`, or
/// the greatest number that fits the machine's word where that is less.
pub open spec fn room(n: nat) -> nat {
    if pow2(n) - 1 <= usize::MAX {
        (pow2(n) - 1) as nat
    } else {
        usize::MAX as nat
    }
}

/// Computes `room(n)`.
pub fn full(n: usize) -> (r: usize)
    ensures
        r == room(n as nat),
{
    let mut r: usize = 0;
    let mut i: usize = 0;
    proof {
        lemma2_to64();
    }
    while i < n
        invariant
            i <= n,
            r == pow2(i as nat) - 1,
        decreases n - i,
    {
        proof {
            lemma_pow2_unfold((i + 1) as nat);
        }
        if r > (usize::MAX - 1) / 2 {
            proof {
                if i + 1 < n {
                    lemma_pow2_strictly_increases((i + 1) as nat, n as nat);
                }
            }
            return usize::MAX;
        }
        r = 2 * r + 1;
        i += 1;
    }
    r
}

/// An unordered collection kept as a spine of pennants: slot `i` of the
/// spine is empty or holds a pennant of degree `i`, that is of `2^i`
/// elements, as the binary digits of the number of elements tell.
///
/// The view of a bag is the multiset of its elements.
pub struct Bag<T> {
    spine: Vec<Option<Box<Pennant<T>>>>,
    capacity: usize,
    count: usize,
}

impl<T> View for Bag<T> {
    type V = Multiset<T>;

    closed spec fn view(&self) -> Multiset<T> {
        Self::held(self.spine@, self.spine@.len())
    }
}

impl<T> Bag<T> {
    /// The elements of one slot.
    pub closed spec fn slot_held(slot: Option<Box<Pennant<T>>>) -> Multiset<T> {
        match slot {
            None => Multiset::empty(),
            Some(p) => p@.to_multiset(),
        }
    }

    /// The elements of the first `n` slots.
    pub closed spec fn held(spine: Seq<Option<Box<Pennant<T>>>>, n: nat) -> Multiset<T>
        decreases n,
    {
        if n == 0 || n > spine.len() {
            Multiset::empty()
        } else {
            Self::held(spine, (n - 1) as nat).add(Self::slot_held(spine[n - 1]))
        }
    }

    /// The slots of the spine.
    pub closed spec fn slots(self) -> Seq<Option<Box<Pennant<T>>>> {
        self.spine@
    }

    pub closed spec fn spec_capacity(self) -> nat {
        self.capacity as nat
    }

    /// The number of elements that the bag has counted.
    pub closed spec fn spec_len(self) -> nat {
        self.count as nat
    }

    /// Every pennant is well-formed and of the degree of its slot.
    pub closed spec fn slots_wf(spine: Seq<Option<Box<Pennant<T>>>>) -> bool {
        forall|i: int|
            0 <= i < spine.len() && (#[trigger] spine[i]) is Some ==> {
                &&& spine[i].unwrap().wf()
                &&& spine[i].unwrap().spec_degree() == i
            }
    }

    /// Every pennant is well-formed and of the degree of its slot, and the
    /// bag has counted its elements rightly.
    pub closed spec fn wf(self) -> bool {
        &&& Self::slots_wf(self.spine@)
        &&& self.count == self@.len()
    }

    /// A well-formed bag has counted as many elements as it holds.
    pub proof fn lemma_wf(self)
        requires
            self.wf(),
        ensures
            self.spec_len() == self@.len(),
    {
    }

    proof fn lemma_held_update(
        spine: Seq<Option<Box<Pennant<T>>>>,
        j: int,
        slot: Option<Box<Pennant<T>>>,
        n: nat,
    )
        requires
            0 <= j < spine.len(),
            n <= spine.len(),
        ensures
            j < n ==> Self::held(spine.update(j, slot), n).add(Self::slot_held(spine[j]))
                == Self::held(spine, n).add(Self::slot_held(slot)),
            j >= n ==> Self::held(spine.update(j, slot), n) == Self::held(spine, n),
        decreases n,
    {
        let after = spine.update(j, slot);
        if n > 0 {
            let m = (n - 1) as nat;
            Self::lemma_held_update(spine, j, slot, m);
            if j == m {
                assert(after[n - 1] == slot);
                assert(Self::held(after, n).add(Self::slot_held(spine[j])) =~= Self::held(
                    spine,
                    n,
                ).add(Self::slot_held(slot)));
            } else {
                assert(after[n - 1] == spine[n - 1]);
                if j < m {
                    let a = Self::held(after, m);
                    let b = Self::held(spine, m);
                    let x = Self::slot_held(spine[n - 1]);
                    assert(a.add(Self::slot_held(spine[j])) == b.add(Self::slot_held(slot)));
                    assert(a.add(x).add(Self::slot_held(spine[j])) =~= a.add(
                        Self::slot_held(spine[j]),
                    ).add(x));
                    assert(b.add(x).add(Self::slot_held(slot)) =~= b.add(Self::slot_held(slot)).add(
                        x,
                    ));
                }
            }
        }
    }

    proof fn lemma_held_push(spine: Seq<Option<Box<Pennant<T>>>>, n: nat)
        requires
            n <= spine.len(),
        ensures
            Self::held(spine.push(None), n) == Self::held(spine, n),
        decreases n,
    {
        let after = spine.push(None);
        if n > 0 {
            Self::lemma_held_push(spine, (n - 1) as nat);
            assert(after[n - 1] == spine[n - 1]);
        }
    }

    /// An empty slot more at the end of the spine holds nothing more.
    proof fn lemma_held_longer(spine: Seq<Option<Box<Pennant<T>>>>)
        ensures
            Self::held(spine.push(None), spine.len() + 1) == Self::held(spine, spine.len()),
    {
        let after = spine.push(None);
        Self::lemma_held_push(spine, spine.len());
        assert(after[spine.len() as int] is None);
        assert(Self::held(after, spine.len() + 1) =~= Self::held(spine, spine.len()));
    }

    /// A sequence of one element holds that element once.
    proof fn lemma_single(e: T)
        ensures
            seq![e].to_multiset() == Multiset::<T>::empty().insert(e),
    {
        let none = Seq::<T>::empty();
        vstd::seq_lib::to_multiset_build(none, e);
        vstd::seq_lib::to_multiset_len(none);
        vstd::multiset::lemma_multiset_empty_len(none.to_multiset());
        assert(seq![e] =~= none.push(e));
        assert(none.to_multiset() =~= Multiset::<T>::empty());
    }

    /// A well-formed pennant has a degree below 64.
    proof fn lemma_degree(p: Pennant<T>)
        requires
            p.wf(),
            p@.len() <= usize::MAX,
        ensures
            0 <= p.spec_degree() < 64,
    {
        p.lemma_wf();
        lemma2_to64();
        if p.spec_degree() > 64 {
            lemma_pow2_strictly_increases(64, p.spec_degree() as nat);
        }
    }

    proof fn lemma_held_none(spine: Seq<Option<Box<Pennant<T>>>>, n: nat)
        requires
            n <= spine.len(),
            forall|i: int| 0 <= i < spine.len() ==> (#[trigger] spine[i]) is None,
        ensures
            Self::held(spine, n) == Multiset::<T>::empty(),
        decreases n,
    {
        if n > 0 {
            Self::lemma_held_none(spine, (n - 1) as nat);
            assert(spine[n - 1] is None);
            assert(Self::held(spine, n) =~= Multiset::<T>::empty());
        }
    }

    /// The elements of the first `n` slots are among those of all the slots.
    proof fn lemma_held_part(spine: Seq<Option<Box<Pennant<T>>>>, j: int, n: nat)
        requires
            0 <= j < n <= spine.len(),
        ensures
            Self::slot_held(spine[j]).len() <= Self::held(spine, n).len(),
        decreases n,
    {
        if j < n - 1 {
            Self::lemma_held_part(spine, j, (n - 1) as nat);
        }
    }

    fn empty_spine(n: usize) -> (spine: Vec<Option<Box<Pennant<T>>>>)
        ensures
            spine@.len() == n,
            forall|i: int| 0 <= i < n ==> (#[trigger] spine@[i]) is None,
    {
        let mut spine: Vec<Option<Box<Pennant<T>>>> = Vec::new();
        while spine.len() < n
            invariant
                spine@.len() <= n,
                forall|i: int| 0 <= i < spine@.len() ==> (#[trigger] spine@[i]) is None,
            decreases n - spine@.len(),
        {
            spine.push(None);
        }
        spine
    }

    /// An empty bag with a spine of 8 slots.
    pub fn new() -> (bag: Self)
        ensures
            bag.wf(),
            bag@ == Multiset::<T>::empty(),
            bag.slots().len() == 8,
            bag.spec_capacity() == 255,
            bag.spec_len() == 0,
    {
        let bag = Bag { spine: Self::empty_spine(8), capacity: 255, count: 0 };
        proof {
            Self::lemma_held_none(bag.spine@, 8);
        }
        bag
    }

    /// An empty bag with a spine of `k` slots, and with the capacity
    /// `2^(k + 1) - 1`, or the greatest number of the machine's word where
    /// that is less.
    pub fn with_degree(k: usize) -> (bag: Self)
        ensures
            bag.wf(),
            bag@ == Multiset::<T>::empty(),
            bag.slots().len() == k,
            bag.spec_len() == 0,
            bag.spec_capacity() == room((k + 1) as nat),
    {
        let capacity = if k == usize::MAX {
            proof {
                lemma2_to64();
                lemma_pow2_strictly_increases(64, (k + 1) as nat);
            }
            usize::MAX
        } else {
            full(k + 1)
        };
        let bag = Bag { spine: Self::empty_spine(k), capacity, count: 0 };
        proof {
            Self::lemma_held_none(bag.spine@, k as nat);
        }
        bag
    }

    /// The number of elements for which the spine was laid out.
    pub fn capacity(&self) -> (r: usize)
        ensures
            r == self.spec_capacity(),
    {
        self.capacity
    }

    /// The number of elements that the bag has counted, which in a
    /// well-formed bag is the number of its elements.
    pub fn len(&self) -> (r: usize)
        ensures
            r == self.spec_len(),
            self.wf() ==> r == self@.len(),
    {
        self.count
    }

    /// The number of slots of the spine.
    pub fn degree(&self) -> (r: usize)
        ensures
            r == self.slots().len(),
    {
        self.spine.len()
    }

    /// The pennant in slot `i`, if there is one.
    pub fn slot(&self, i: usize) -> (r: Option<&Pennant<T>>)
        requires
            i < self.slots().len(),
        ensures
            r is None <==> self.slots()[i as int] is None,
            r is Some ==> *r.unwrap() == *self.slots()[i as int].unwrap(),
    {
        match &self.spine[i] {
            None => None,
            Some(b) => Some(&**b),
        }
    }

    /// How the spine grows when a pennant is put in at slot `index`: where
    /// a slot from `index` on is empty the spine and the capacity stay as they
    /// are; where none is, the spine becomes twice as long and one slot more,
    /// and the capacity is that of the new spine.
    pub open spec fn grown(before: Self, after: Self, index: int) -> bool {
        let n = before.slots().len();
        if exists|e: int| index <= e < n && (#[trigger] before.slots()[e]) is None {
            &&& after.slots().len() == n
            &&& after.spec_capacity() == before.spec_capacity()
        } else {
            &&& after.slots().len() == 2 * n + 1
            &&& after.spec_capacity() == room((2 * n + 1) as nat)
        }
    }

    /// Puts `element` into the bag.
    pub fn insert(&mut self, element: T)
        requires
            old(self).wf(),
            old(self)@.len() < usize::MAX,
        ensures
            final(self).wf(),
            final(self)@ == old(self)@.insert(element),
            final(self).spec_len() == old(self).spec_len() + 1,
            Self::grown(*old(self), *final(self), 0),
    {
        let new_pennant = Box::new(Pennant::new(element));
        proof {
            Self::lemma_single(element);
        }
        self.insert_pennant(new_pennant, 0);
        assert(self@ =~= old(self)@.insert(element));
    }

    /// Puts a pennant of degree `index` into slot `index`. Where a pennant
    /// stands there, the two are combined and the result goes to the next
    /// slot, and so on; a spine that ends before an empty slot is met is
    /// made longer. Whatever stands behind the first empty slot from `index`
    /// on stays where it is.
    fn insert_pennant(&mut self, pennant: Box<Pennant<T>>, index: usize)
        requires
            old(self).wf(),
            pennant.wf(),
            pennant.spec_degree() == index,
            index <= old(self).spine@.len(),
            old(self)@.len() + pennant@.len() <= usize::MAX,
        ensures
            final(self).wf(),
            final(self)@ == old(self)@.add(pennant@.to_multiset()),
            final(self).spec_len() == old(self).spec_len() + pennant@.len(),
            final(self).spine@.len() >= old(self).spine@.len(),
            forall|j: int|
                0 <= j < index && j < old(self).spine@.len() ==> final(self).spine@[j] == old(self).spine@[j],
            forall|j: int, e: int|
                #![trigger old(self).spine@[e], final(self).spine@[j]]
                index <= e < j < old(self).spine@.len() && old(self).spine@[e] is None
                    ==> final(self).spine@[j] == old(self).spine@[j],
            Self::grown(*old(self), *final(self), index as int),
        decreases old(self).spine@.len() - index,
    {
        let mut pennant = pennant;
        proof {
            pennant.lemma_wf();
            Self::lemma_degree(*pennant);
        }
        if index == self.spine.len() {
            let new_len = index * 2 + 1;
            while self.spine.len() < new_len
                invariant
                    self.spine@.len() <= new_len,
                    self.spine@.len() >= old(self).spine@.len(),
                    self.count == old(self).count,
                    Self::slots_wf(self.spine@),
                    self@ == old(self)@,
                    forall|j: int|
                        0 <= j < old(self).spine@.len() ==> self.spine@[j] == old(self).spine@[j],
                    forall|j: int|
                        old(self).spine@.len() <= j < self.spine@.len() ==> (
                        #[trigger] self.spine@[j]) is None,
                decreases new_len - self.spine@.len(),
            {
                proof {
                    Self::lemma_held_longer(self.spine@);
                }
                self.spine.push(None);
            }
            self.capacity = full(new_len);
        }
        assert(index < self.spine@.len());
        let ghost grown = *self;
        let slot = self.spine[index].take();
        let ghost emptied = *self;
        proof {
            assert(emptied.spine@ =~= grown.spine@.update(index as int, None));
            Self::lemma_held_update(grown.spine@, index as int, None, grown.spine@.len());
            Self::lemma_held_part(grown.spine@, index as int, grown.spine@.len());
            assert(Self::slot_held(None) =~= Multiset::<T>::empty());
            // what the bag holds without the slot, and the slot
            assert(emptied@.add(Self::slot_held(slot)) =~= old(self)@);
            vstd::seq_lib::to_multiset_len(pennant@);
        }
        match slot {
            None => {
                self.count += pennant.len();
                self.spine[index] = Some(pennant);
                proof {
                    assert(self.spine@ =~= emptied.spine@.update(index as int, Some(pennant)));
                    Self::lemma_held_update(
                        emptied.spine@,
                        index as int,
                        Some(pennant),
                        emptied.spine@.len(),
                    );
                    assert(self@.add(Multiset::<T>::empty()) =~= self@);
                    assert(emptied@.add(Multiset::<T>::empty()) =~= emptied@);
                    assert(self@ =~= old(self)@.add(pennant@.to_multiset()));
                    assert forall|i: int|
                        0 <= i < self.spine@.len() && (#[trigger] self.spine@[i]) is Some implies {
                        &&& self.spine@[i].unwrap().wf()
                        &&& self.spine@[i].unwrap().spec_degree() == i
                    } by {
                        if i != index {
                            assert(self.spine@[i] == grown.spine@[i]);
                        }
                    }
                }
            },
            Some(other) => {
                proof {
                    assert(grown.spine@[index as int] == Some(other));
                    other.lemma_wf();
                    lemma_pow2_unfold((index + 1) as nat);
                    vstd::seq_lib::lemma_multiset_commutative(pennant@, other@);
                    vstd::seq_lib::to_multiset_len(other@);
                    assert forall|i: int|
                        0 <= i < self.spine@.len() && (#[trigger] self.spine@[i]) is Some implies {
                        &&& self.spine@[i].unwrap().wf()
                        &&& self.spine@[i].unwrap().spec_degree() == i
                    } by {
                        assert(self.spine@[i] == grown.spine@[i]);
                    }
                }
                self.count -= other.len();
                let ghost given = *pennant;
                pennant.combine(other);
                proof {
                    vstd::seq_lib::to_multiset_len(pennant@);
                }
                let ghost mid = *self;
                self.insert_pennant(pennant, index + 1);
                proof {
                    assert(self@ =~= old(self)@.add(given@.to_multiset()));
                    assert forall|j: int, e: int|
                        #![trigger old(self).spine@[e], self.spine@[j]]
                        index <= e < j < old(self).spine@.len() && old(self).spine@[e]
                            is None implies self.spine@[j] == old(self).spine@[j] by {
                        assert(mid.spine@[e] == old(self).spine@[e]);
                        assert(mid.spine@[j] == old(self).spine@[j]);
                    }
                    assert forall|j: int|
                        0 <= j < index && j < old(self).spine@.len() implies #[trigger] self.spine@[j]
                        == old(self).spine@[j] by {
                        assert(mid.spine@[j] == old(self).spine@[j]);
                    }
                    if exists|e: int|
                        index <= e < old(self).spine@.len() && (#[trigger] old(self).slots()[e])
                            is None {
                        let e = choose|e: int|
                            index <= e < old(self).spine@.len() && (#[trigger] old(self).slots()[e])
                                is None;
                        assert(mid.slots()[e] == old(self).slots()[e]);
                    } else {
                        assert forall|e: int| index + 1 <= e < mid.spine@.len() implies !((
                        #[trigger] mid.slots()[e]) is None) by {
                            assert(mid.slots()[e] == old(self).slots()[e]);
                        }
                    }
                }
            },
        }
    }

    /// Takes in all the elements of `other`.
    pub fn union(&mut self, other: Bag<T>)
        requires
            old(self).wf(),
            other.wf(),
            old(self)@.len() + other@.len() <= usize::MAX,
        ensures
            final(self).wf(),
            final(self)@ == old(self)@.add(other@),
            final(self).spec_len() == old(self).spec_len() + other.spec_len(),
    {
        let mut other = other;
        let ghost given = other;
        let n = other.spine.len();
        let mut i: usize = 0;
        while i < n
            invariant
                i <= n,
                n == other.spine@.len(),
                n == given.spine@.len(),
                self.wf(),
                Self::slots_wf(given.spine@),
                forall|j: int| i <= j < n ==> other.spine@[j] == given.spine@[j],
                self@ == old(self)@.add(Self::held(given.spine@, i as nat)),
                old(self)@.len() + Self::held(given.spine@, n as nat).len() <= usize::MAX,
            decreases n - i,
        {
            let ghost before = other.spine@;
            let slot = other.spine[i].take();
            proof {
                assert(other.spine@ =~= before.update(i as int, None));
                Self::lemma_held_grows(given.spine@, (i + 1) as nat, n as nat);
            }
            match slot {
                None => {
                    proof {
                        assert(Self::held(given.spine@, (i + 1) as nat) =~= Self::held(
                            given.spine@,
                            i as nat,
                        ));
                    }
                },
                Some(to_insert) => {
                    proof {
                        to_insert.lemma_wf();
                        vstd::seq_lib::to_multiset_len(to_insert@);
                        if i >= 64 {
                            lemma2_to64();
                            lemma_pow2_strictly_increases(64, i as nat);
                        }
                    }
                    let k: usize = to_insert.degree() as usize;
                    if k > self.spine.len() {
                        self.grow(k);
                    }
                    self.insert_pennant(to_insert, k);
                    proof {
                        assert(self@ =~= old(self)@.add(Self::held(given.spine@, (i + 1) as nat)));
                    }
                },
            }
            i += 1;
        }
    }

    /// The elements of the first `n` slots are no more than those of the
    /// first `m`, where `n <= m`.
    proof fn lemma_held_grows(spine: Seq<Option<Box<Pennant<T>>>>, n: nat, m: nat)
        requires
            n <= m <= spine.len(),
        ensures
            Self::held(spine, n).len() <= Self::held(spine, m).len(),
        decreases m - n,
    {
        if n < m {
            Self::lemma_held_grows(spine, n, (m - 1) as nat);
        }
    }

    /// Makes the spine at least `n` slots long.
    fn grow(&mut self, n: usize)
        requires
            old(self).wf(),
        ensures
            final(self).wf(),
            final(self)@ == old(self)@,
            final(self).spec_len() == old(self).spec_len(),
            final(self).spine@.len() >= n,
            final(self).spine@.len() >= old(self).spine@.len(),
            forall|j: int|
                0 <= j < old(self).spine@.len() ==> final(self).spine@[j] == old(self).spine@[j],
    {
        while self.spine.len() < n
            invariant
                self.spine@.len() >= old(self).spine@.len(),
                self.count == old(self).count,
                Self::slots_wf(self.spine@),
                self@ == old(self)@,
                forall|j: int|
                    0 <= j < old(self).spine@.len() ==> self.spine@[j] == old(self).spine@[j],
            decreases n - self.spine@.len(),
        {
            proof {
                Self::lemma_held_longer(self.spine@);
            }
            self.spine.push(None);
        }
    }

    /// Gives away half of the elements, rounded down, as a bag of their
    /// own: every pennant of two elements or more is split between the two
    /// bags. A bag of one element gives that element away and is left empty.
    pub fn split(&mut self) -> (r: Bag<T>)
        requires
            old(self).wf(),
        ensures
            final(self).wf(),
            r.wf(),
            final(self)@.add(r@) == old(self)@,
            old(self)@.len() <= 1 ==> r@ == old(self)@ && final(self).slots().len() == 8 && final(self).spec_capacity() == 255,
            old(self)@.len() > 1 ==> r@.len() == old(self)@.len() / 2 && final(self).slots().len()
                == old(self).slots().len(),
    {
        let count = self.count;
        if count <= 1 {
            let mut fresh = Self::new();
            core::mem::swap(self, &mut fresh);
            assert(self@.add(fresh@) =~= fresh@);
            return fresh;
        }
        let len = self.spine.len();
        let mut spare = Bag::with_degree(len);
        let mut i: usize = 0;
        assert(self@.add(spare@) =~= old(self)@);
        while i < len
            invariant
                i <= len,
                len == self.spine@.len(),
                len == old(self).spine@.len(),
                len <= spare.spine@.len(),
                self.wf(),
                spare.wf(),
                old(self).wf(),
                self@.add(spare@) == old(self)@,
                forall|j: int| i <= j < len ==> self.spine@[j] == old(self).spine@[j],
                2 * spare@.len() + (if i > 0 && old(self).spine@[0] is Some {
                    1nat
                } else {
                    0nat
                }) == Self::held(old(self).spine@, i as nat).len(),
            decreases len - i,
        {
            let ghost before = *self;
            let ghost spare_before = spare;
            let current = self.spine[i].take();
            proof {
                assert(self.spine@ =~= before.spine@.update(i as int, None));
                Self::lemma_held_update(before.spine@, i as int, None, before.spine@.len());
                assert(Self::slot_held(None) =~= Multiset::<T>::empty());
                assert(self@.add(Self::slot_held(current)) =~= before@);
                assert(current == old(self).spine@[i as int]);
            }
            match current {
                None => {
                    proof {
                        assert(self@.add(Multiset::<T>::empty()) =~= self@);
                        assert(Self::held(old(self).spine@, (i + 1) as nat) =~= Self::held(
                            old(self).spine@,
                            i as nat,
                        ));
                    }
                },
                Some(p) => {
                    let mut pennant = p;
                    let ghost whole = *pennant;
                    proof {
                        whole.lemma_wf();
                        vstd::seq_lib::to_multiset_len(whole@);
                        Self::lemma_degree(whole);
                        assert forall|j: int|
                            0 <= j < self.spine@.len() && (#[trigger] self.spine@[j])
                                is Some implies {
                            &&& self.spine@[j].unwrap().wf()
                            &&& self.spine@[j].unwrap().spec_degree() == j
                        } by {
                            assert(self.spine@[j] == before.spine@[j]);
                        }
                    }
                    self.count -= pennant.len();
                    let ghost emptied = *self;
                    let other = pennant.split();
                    if let Some(other_pennant) = other {
                        proof {
                            other_pennant.lemma_wf();
                            vstd::seq_lib::to_multiset_len(other_pennant@);
                            vstd::seq_lib::to_multiset_len(pennant@);
                            vstd::seq_lib::lemma_multiset_commutative(pennant@, other_pennant@);
                            vstd::seq_lib::to_multiset_len(old(self).spine@[i as int].unwrap()@);
                        }
                        let other_pennant_k: usize = other_pennant.degree() as usize;
                        spare.insert_pennant(other_pennant, other_pennant_k);
                    }
                    proof {
                        pennant.lemma_wf();
                        vstd::seq_lib::to_multiset_len(pennant@);
                    }
                    let self_k: usize = pennant.degree() as usize;
                    self.insert_pennant(pennant, self_k);
                    proof {
                        assert(emptied.spine@[i as int] is None);
                        assert(self@.add(spare@) =~= old(self)@);
                        assert forall|j: int| i + 1 <= j < len implies self.spine@[j] == old(self).spine@[j] by {
                            assert(emptied.spine@[j] == old(self).spine@[j]);
                        }
                        if i == 0 {
                            lemma2_to64();
                        } else {
                            lemma_pow2_unfold(i as nat);
                        }
                    }
                },
            }
            i += 1;
        }
        spare
    }
}

} // verus!
