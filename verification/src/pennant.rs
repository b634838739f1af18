use vstd::arithmetic::power2::{
    lemma2_to64, lemma_pow2_pos, lemma_pow2_strictly_increases, lemma_pow2_unfold, pow2,
};
use vstd::prelude::*;

verus! {

/// The whole part of the logarithm of `n` to the base 2.
pub fn log2(n: usize) -> (r: i32)
    requires
        n >= 1,
    ensures
        0 <= r < 64,
        pow2(r as nat) <= n < 2 * pow2(r as nat),
{
    let mut m: usize = n;
    let mut r: i32 = 0;
    proof {
        lemma2_to64();
        assert(m * pow2(0) == m && (m + 1) * pow2(0) == m + 1);
    }
    while m > 1
        invariant
            m >= 1,
            0 <= r < 64,
            m < pow2((64 - r) as nat),
            m * pow2(r as nat) <= n < (m + 1) * pow2(r as nat),
        decreases m,
    {
        proof {
            let p = pow2(r as nat);
            lemma_pow2_pos(r as nat);
            lemma_pow2_unfold((r + 1) as nat);
            lemma2_to64();
            lemma_pow2_unfold((64 - r) as nat);
            let h = m / 2;
            assert(h * (2 * p) <= m * p) by (nonlinear_arith)
                requires
                    2 * h <= m,
                    p > 0,
            ;
            assert((m + 1) * p <= (h + 1) * (2 * p)) by (nonlinear_arith)
                requires
                    m + 1 <= 2 * (h + 1),
                    p > 0,
            ;
        }
        m = m / 2;
        r = r + 1;
    }
    r
}

/// Only one exponent has its power of two in a given octave.
pub proof fn lemma_log2_unique(a: nat, b: nat, n: int)
    requires
        pow2(a) <= n < 2 * pow2(a),
        pow2(b) <= n < 2 * pow2(b),
    ensures
        a == b,
{
    if a < b {
        lemma_pow2_unfold(b);
        if a < b - 1 {
            lemma_pow2_strictly_increases(a, (b - 1) as nat);
        }
    } else if b < a {
        lemma_pow2_unfold(a);
        if b < a - 1 {
            lemma_pow2_strictly_increases(b, (a - 1) as nat);
        }
    }
}

/// A pennant of degree `k`: a root with one child, `middle`, which is the
/// root of a complete binary tree of `2^k - 1` nodes, so that the pennant
/// holds `2^k` elements. A pennant of degree 0 is a root alone.
///
/// The view of a pennant is the sequence of its elements: that of the root,
/// then those of the tree below it, each node between its left and its right
/// subtree.
pub struct Pennant<T> {
    pub k: i32,
    element: T,
    count: usize,
    left: Option<Box<Pennant<T>>>,
    middle: Option<Box<Pennant<T>>>,
    right: Option<Box<Pennant<T>>>,
}

impl<T> View for Pennant<T> {
    type V = Seq<T>;

    closed spec fn view(&self) -> Seq<T> {
        self.flat()
    }
}

impl<T> Pennant<T> {
    pub closed spec fn spec_element(self) -> T {
        self.element
    }

    /// The degree that the node has noted: the field `k`.
    pub closed spec fn spec_degree(self) -> int {
        self.k as int
    }

    /// The number of elements that the node has counted.
    pub closed spec fn spec_len(self) -> nat {
        self.count as nat
    }

    pub closed spec fn spec_left(self) -> Option<Box<Pennant<T>>> {
        self.left
    }

    pub closed spec fn spec_middle(self) -> Option<Box<Pennant<T>>> {
        self.middle
    }

    pub closed spec fn spec_right(self) -> Option<Box<Pennant<T>>> {
        self.right
    }

    /// The elements at and below a node: those below `left`, its own, those
    /// below `middle` and those below `right`.
    pub closed spec fn flat(self) -> Seq<T>
        decreases self,
    {
        Self::flat_of(self.left).push(self.element) + Self::flat_of(self.middle) + Self::flat_of(
            self.right,
        )
    }

    pub closed spec fn flat_of(t: Option<Box<Pennant<T>>>) -> Seq<T>
        decreases t,
    {
        match t {
            None => Seq::empty(),
            Some(n) => n.flat(),
        }
    }

    /// `t` is a complete binary tree of `depth` levels whose nodes have no
    /// middle child.
    pub closed spec fn complete(t: Option<Box<Pennant<T>>>, depth: nat) -> bool
        decreases depth,
    {
        if depth == 0 {
            t is None
        } else {
            match t {
                None => false,
                Some(n) => {
                    &&& n.middle is None
                    &&& Self::complete(n.left, (depth - 1) as nat)
                    &&& Self::complete(n.right, (depth - 1) as nat)
                },
            }
        }
    }

    /// The root has no child but `middle`, below which stands a complete
    /// tree of `k` levels, and has counted `2^k` elements.
    pub closed spec fn wf(self) -> bool {
        &&& self.left is None
        &&& self.right is None
        &&& self.k >= 0
        &&& self.count == pow2(self.k as nat)
        &&& Self::complete(self.middle, self.k as nat)
    }

    proof fn lemma_complete_len(t: Option<Box<Pennant<T>>>, depth: nat)
        requires
            Self::complete(t, depth),
        ensures
            Self::flat_of(t).len() + 1 == pow2(depth),
        decreases depth,
    {
        if depth == 0 {
            lemma2_to64();
        } else {
            let n = t.unwrap();
            Self::lemma_complete_len(n.left, (depth - 1) as nat);
            Self::lemma_complete_len(n.right, (depth - 1) as nat);
            lemma_pow2_unfold(depth);
            assert(Self::flat_of(n.middle).len() == 0);
        }
    }

    /// A well-formed pennant of degree `k` holds `2^k` elements, as many as
    /// its root has counted, and has a child exactly where `k` is not 0.
    pub proof fn lemma_wf(self)
        requires
            self.wf(),
        ensures
            self.spec_degree() >= 0,
            self@.len() == pow2(self.spec_degree() as nat),
            self@.len() == self.spec_len(),
            self@[0] == self.spec_element(),
            self.spec_left() is None,
            self.spec_right() is None,
            self.spec_middle() is None <==> self.spec_degree() == 0,
    {
        Self::lemma_complete_len(self.middle, self.k as nat);
        assert(Self::flat_of(self.left).len() == 0);
        assert(Self::flat_of(self.right).len() == 0);
    }

    /// A pennant of degree 0 that holds `element`.
    pub fn new(element: T) -> (p: Self)
        ensures
            p.wf(),
            p.spec_degree() == 0,
            p@ == seq![element],
            p.spec_element() == element,
            p.spec_len() == 1,
            p.spec_left() is None,
            p.spec_middle() is None,
            p.spec_right() is None,
    {
        let p = Pennant { element, k: 0, count: 1, left: None, right: None, middle: None };
        proof {
            lemma2_to64();
            assert(Self::flat_of(p.left) =~= Seq::<T>::empty());
            assert(Self::flat_of(p.middle) =~= Seq::<T>::empty());
            assert(p@ =~= seq![element]);
        }
        p
    }

    /// The element at the root.
    pub fn fetch_element(&self) -> (r: &T)
        ensures
            *r == self.spec_element(),
    {
        &self.element
    }

    /// The number of elements that the root has counted, which in a
    /// well-formed pennant is the number of its elements.
    pub fn len(&self) -> (r: usize)
        ensures
            r == self.spec_len(),
            self.wf() ==> r == self@.len(),
    {
        proof {
            if self.wf() {
                self.lemma_wf();
            }
        }
        self.count
    }

    pub fn degree(&self) -> (r: i32)
        ensures
            r == self.spec_degree(),
    {
        self.k
    }

    pub fn left(&self) -> (r: Option<&Pennant<T>>)
        ensures
            r is None <==> self.spec_left() is None,
            r is Some ==> *r.unwrap() == *self.spec_left().unwrap(),
    {
        match &self.left {
            None => None,
            Some(b) => Some(&**b),
        }
    }

    pub fn middle(&self) -> (r: Option<&Pennant<T>>)
        ensures
            r is None <==> self.spec_middle() is None,
            r is Some ==> *r.unwrap() == *self.spec_middle().unwrap(),
    {
        match &self.middle {
            None => None,
            Some(b) => Some(&**b),
        }
    }

    pub fn right(&self) -> (r: Option<&Pennant<T>>)
        ensures
            r is None <==> self.spec_right() is None,
            r is Some ==> *r.unwrap() == *self.spec_right().unwrap(),
    {
        match &self.right {
            None => None,
            Some(b) => Some(&**b),
        }
    }

    /// Takes in a pennant of the same degree, which gives a pennant of the
    /// next degree with the elements of both: the root of `pennant`
    /// becomes the one child of this root, above the tree that stood there
    /// and the tree that stood below `pennant`.
    pub fn combine(&mut self, pennant: Box<Pennant<T>>)
        requires
            old(self).wf(),
            pennant.wf(),
            old(self).spec_degree() == pennant.spec_degree(),
            2 * old(self).spec_len() <= usize::MAX,
        ensures
            final(self).wf(),
            final(self).spec_degree() == old(self).spec_degree() + 1,
            final(self).spec_len() == 2 * old(self).spec_len(),
            final(self)@ == old(self)@ + pennant@,
            final(self).spec_element() == old(self).spec_element(),
            final(self).spec_left() is None,
            final(self).spec_right() is None,
            final(self).spec_middle() is Some,
            final(self).spec_middle().unwrap().spec_element() == pennant.spec_element(),
            final(self).spec_middle().unwrap().spec_middle() is None,
            final(self).spec_middle().unwrap().spec_left() == old(self).spec_middle(),
            final(self).spec_middle().unwrap().spec_right() == pennant.spec_middle(),
    {
        let mut pennant = pennant;
        let ghost given = *pennant;
        proof {
            old(self).lemma_wf();
            given.lemma_wf();
            lemma2_to64();
            lemma_pow2_unfold((self.k + 1) as nat);
            assert(Self::flat_of(given.left) =~= Seq::<T>::empty());
            assert(Self::flat_of(given.right) =~= Seq::<T>::empty());
            assert(Self::flat_of(self.left) =~= Seq::<T>::empty());
            assert(Self::flat_of(self.right) =~= Seq::<T>::empty());
        }
        match self.middle.take() {
            None => {
                self.middle = Some(pennant);
                self.count += 1;
                self.k = 1;
                proof {
                    assert(Self::flat_of(given.middle) =~= Seq::<T>::empty());
                    assert(Self::flat_of(old(self).middle) =~= Seq::<T>::empty());
                    assert(Self::complete(given.left, 0));
                    assert(Self::complete(given.right, 0));
                    assert(Self::complete(self.middle, 1));
                    assert(self@ =~= old(self)@ + given@);
                }
            },
            Some(middle) => {
                pennant.left = Some(middle);
                pennant.right = pennant.middle.take();
                self.count += pennant.len();
                self.k = log2(self.count);
                self.middle = Some(pennant);
                proof {
                    lemma_log2_unique(self.k as nat, (old(self).k + 1) as nat, self.count as int);
                    assert(Self::complete(self.middle, (old(self).k + 1) as nat));
                    let node = *self.middle.unwrap();
                    assert(Self::flat_of(node.middle) =~= Seq::<T>::empty());
                    assert(node.flat() =~= Self::flat_of(old(self).middle).push(given.element)
                        + Self::flat_of(given.middle));
                    assert(self@ =~= old(self)@ + given@);
                }
            },
        }
    }

    /// Undoes `combine`: where the pennant has a degree above 0, the second
    /// half of its elements leaves it as a pennant of its own, and both have
    /// the degree below. A pennant of degree 0 stays as it is.
    pub fn split(&mut self) -> (r: Option<Box<Pennant<T>>>)
        requires
            old(self).wf(),
        ensures
            final(self).wf(),
            old(self).spec_degree() == 0 ==> r is None && final(self)@ == old(self)@ && final(self).spec_degree() == 0,
            old(self).spec_degree() > 0 ==> {
                &&& r is Some
                &&& r.unwrap().wf()
                &&& r.unwrap().spec_degree() == old(self).spec_degree() - 1
                &&& final(self).spec_degree() == old(self).spec_degree() - 1
                &&& final(self)@ + r.unwrap()@ == old(self)@
                &&& final(self)@.len() == r.unwrap()@.len()
                &&& final(self).spec_middle() == old(self).spec_middle().unwrap().spec_left()
                &&& r.unwrap().spec_middle() == old(self).spec_middle().unwrap().spec_right()
                &&& r.unwrap().spec_element() == old(self).spec_middle().unwrap().spec_element()
            },
            final(self).spec_element() == old(self).spec_element(),
            final(self).spec_len() == old(self).spec_len() / 2 || old(self).spec_degree() == 0,
    {
        proof {
            old(self).lemma_wf();
            lemma2_to64();
            assert(Self::flat_of(self.left) =~= Seq::<T>::empty());
            assert(Self::flat_of(self.right) =~= Seq::<T>::empty());
        }
        match self.middle.take() {
            None => {
                assert(self.middle == old(self).middle);
                assert(*self == *old(self));
                None
            },
            Some(middle) => {
                let mut new_pennant = middle;
                let ghost node = *new_pennant;
                proof {
                    lemma_pow2_unfold(old(self).k as nat);
                    assert(Self::flat_of(node.middle) =~= Seq::<T>::empty());
                    assert(node.flat() =~= Self::flat_of(node.left).push(node.element)
                        + Self::flat_of(node.right));
                    assert(old(self)@ =~= seq![self.element] + node.flat());
                }
                self.middle = new_pennant.left.take();
                new_pennant.middle = new_pennant.right.take();
                self.count = self.count / 2;
                self.k = log2(self.count);
                new_pennant.count = self.len();
                new_pennant.k = self.degree();
                proof {
                    lemma_log2_unique(self.k as nat, (old(self).k - 1) as nat, self.count as int);
                    assert(Self::flat_of(new_pennant.left) =~= Seq::<T>::empty());
                    assert(Self::flat_of(new_pennant.right) =~= Seq::<T>::empty());
                    assert(new_pennant@ =~= seq![node.element] + Self::flat_of(node.right));
                    assert(self@ =~= seq![self.element] + Self::flat_of(node.left));
                    assert(self@ + new_pennant@ =~= old(self)@);
                    self.lemma_wf();
                    new_pennant.lemma_wf();
                }
                Some(new_pennant)
            },
        }
    }
}

} // verus!
