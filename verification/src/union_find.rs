use vstd::prelude::*;

verus! {

/// A forest over the elements `0..n` kept in one vector: each element notes
/// its parent, a root being its own parent, and a size for its group.
///
/// The view of the structure is the sequence of these entries, the parent
/// first and the size second.
pub struct UnionFind {
    mappings: Vec<(usize, usize)>,
    /// A height for each element, which grows from an element to its parent,
    /// and a bound on these heights: they show that the parents lead to a
    /// root.
    rank: Ghost<(Seq<nat>, nat)>,
}

impl View for UnionFind {
    type V = Seq<(usize, usize)>;

    closed spec fn view(&self) -> Seq<(usize, usize)> {
        self.mappings@
    }
}

/// The heights `rank`, none above `top`, grow from each element of `m` to its
/// parent, which is an element of `m`.
pub open spec fn ranked(m: Seq<(usize, usize)>, rank: Seq<nat>, top: nat) -> bool {
    &&& rank.len() == m.len()
    &&& forall|i: int|
        0 <= i < m.len() ==> {
            &&& (#[trigger] m[i]).0 < m.len()
            &&& rank[i] <= top
            &&& rank[m[i].0 as int] <= top
            &&& m[i].0 != i ==> rank[m[i].0 as int] > rank[i]
        }
}

/// The root above `i`: the element reached from `i` by going from parent to
/// parent.
pub open spec fn root_in(m: Seq<(usize, usize)>, rank: Seq<nat>, top: nat, i: int) -> int
    decreases top - rank[i],
    when ranked(m, rank, top) && 0 <= i < m.len()
{
    if m[i].0 == i {
        i
    } else {
        root_in(m, rank, top, m[i].0 as int)
    }
}

/// `i` stands on the way from `x` to its root, both ends included.
pub open spec fn on_path_in(
    m: Seq<(usize, usize)>,
    rank: Seq<nat>,
    top: nat,
    x: int,
    i: int,
) -> bool
    decreases top - rank[x],
    when ranked(m, rank, top) && 0 <= x < m.len()
{
    x == i || (m[x].0 != x && on_path_in(m, rank, top, m[x].0 as int, i))
}

/// The root above `i` is a root and stands on the way from `i`; no element on
/// that way stands higher than it, and the root above each of them is the
/// same.
pub proof fn lemma_root(m: Seq<(usize, usize)>, rank: Seq<nat>, top: nat, x: int)
    requires
        ranked(m, rank, top),
        0 <= x < m.len(),
    ensures
        0 <= root_in(m, rank, top, x) < m.len(),
        m[root_in(m, rank, top, x)].0 == root_in(m, rank, top, x),
        on_path_in(m, rank, top, x, root_in(m, rank, top, x)),
        rank[root_in(m, rank, top, x)] >= rank[x],
        m[x].0 != x ==> rank[root_in(m, rank, top, x)] > rank[x],
        forall|i: int|
            #[trigger] on_path_in(m, rank, top, x, i) ==> {
                &&& 0 <= i < m.len()
                &&& rank[i] >= rank[x]
                &&& root_in(m, rank, top, i) == root_in(m, rank, top, x)
            },
    decreases top - rank[x],
{
    if m[x].0 != x {
        let p = m[x].0 as int;
        lemma_root(m, rank, top, p);
        assert forall|i: int| #[trigger] on_path_in(m, rank, top, x, i) implies {
            &&& 0 <= i < m.len()
            &&& rank[i] >= rank[x]
            &&& root_in(m, rank, top, i) == root_in(m, rank, top, x)
        } by {
            if i != x {
                assert(on_path_in(m, rank, top, p, i));
            }
        }
    }
}

/// The entries after the way from `x` to its root was shortened: every
/// element on the way has the entry of the root, and so the root for its
/// parent.
pub open spec fn compressed_in(
    m: Seq<(usize, usize)>,
    rank: Seq<nat>,
    top: nat,
    x: int,
) -> Seq<(usize, usize)> {
    Seq::new(
        m.len(),
        |i: int|
            if on_path_in(m, rank, top, x, i) {
                m[root_in(m, rank, top, x)]
            } else {
                m[i]
            },
    )
}

/// Shortening a way leaves the heights in order, and every element below
/// the root that it stood below.
pub proof fn lemma_compressed(m: Seq<(usize, usize)>, rank: Seq<nat>, top: nat, x: int, i: int)
    requires
        ranked(m, rank, top),
        0 <= x < m.len(),
        0 <= i < m.len(),
    ensures
        ranked(compressed_in(m, rank, top, x), rank, top),
        root_in(compressed_in(m, rank, top, x), rank, top, i) == root_in(m, rank, top, i),
    decreases top - rank[i],
{
    let c = compressed_in(m, rank, top, x);
    lemma_root(m, rank, top, x);
    assert forall|j: int| 0 <= j < c.len() implies {
        &&& (#[trigger] c[j]).0 < c.len()
        &&& rank[j] <= top
        &&& rank[c[j].0 as int] <= top
        &&& c[j].0 != j ==> rank[c[j].0 as int] > rank[j]
    } by {
        assert(m[j].0 < m.len());
        assert(m[root_in(m, rank, top, x)].0 < m.len());
        if on_path_in(m, rank, top, x, j) {
            lemma_root(m, rank, top, j);
        }
    }
    lemma_root(m, rank, top, i);
    if on_path_in(m, rank, top, x, i) {
        let root = root_in(m, rank, top, x);
        if i != root {
            assert(c[i].0 == root);
            lemma_root(m, rank, top, root);
            assert(on_path_in(m, rank, top, x, root));
            assert(c[root] == m[root]);
            assert(root_in(c, rank, top, root) == root);
        }
    } else if m[i].0 != i {
        lemma_compressed(m, rank, top, x, m[i].0 as int);
    }
}

impl UnionFind {
    /// The parent that element `i` notes.
    pub open spec fn parent(self, i: int) -> int {
        self@[i].0 as int
    }

    /// The size that element `i` notes.
    pub open spec fn size(self, i: int) -> int {
        self@[i].1 as int
    }

    /// A height for each element, which grows from an element to its parent.
    pub closed spec fn heights(self) -> Seq<nat> {
        self.rank@.0
    }

    /// A bound on the heights.
    pub closed spec fn top(self) -> nat {
        self.rank@.1
    }

    /// Every parent is an element, and the parents lead to a root.
    pub open spec fn wf(self) -> bool {
        ranked(self@, self.heights(), self.top())
    }

    /// The root above `i`.
    pub open spec fn root(self, i: int) -> int {
        root_in(self@, self.heights(), self.top(), i)
    }

    /// `i` stands on the way from `x` to its root, both ends included.
    pub open spec fn on_path(self, x: int, i: int) -> bool {
        on_path_in(self@, self.heights(), self.top(), x, i)
    }

    /// The entries after `find` of `x`.
    pub open spec fn compressed(self, x: int) -> Seq<(usize, usize)> {
        compressed_in(self@, self.heights(), self.top(), x)
    }

    /// The entries `m` after two elements were joined whose ways were
    /// shortened already and which had `ra` and `rb` for their parents: where
    /// these differ, the one with the smaller size becomes a child of the
    /// other, or `rb` a child of `ra` where the sizes are the same; the other
    /// becomes a root, and both note the sum of the sizes.
    pub open spec fn joined(m: Seq<(usize, usize)>, ra: int, rb: int) -> Seq<(usize, usize)> {
        if ra == rb {
            m
        } else {
            let total = (m[ra].1 + m[rb].1) as usize;
            let winner = if m[ra].1 < m[rb].1 {
                rb as usize
            } else {
                ra as usize
            };
            m.update(ra, (winner, total)).update(rb, (winner, total))
        }
    }

    /// The parent that `b` has after `find` of `a`.
    pub open spec fn parent_after(self, a: int, b: int) -> int {
        self.compressed(a)[b].0 as int
    }

    /// The entries after `find` of `a` and then of `b`.
    pub open spec fn compressed_twice(self, a: int, b: int) -> Seq<(usize, usize)> {
        compressed_in(self.compressed(a), self.heights(), self.top(), b)
    }

    /// The sizes that `union` of `a` and `b` adds fit the machine's word.
    pub open spec fn fits(self, a: int, b: int) -> bool {
        let m = self.compressed_twice(a, b);
        self.parent(a) != self.parent_after(a, b) ==> m[self.parent(a)].1 + m[self.parent_after(
            a,
            b,
        )].1 <= usize::MAX
    }

    /// `size` elements, each a root with a group of size 1.
    pub fn new(size: usize) -> (r: Self)
        ensures
            r.wf(),
            r@.len() == size,
            forall|i: int| 0 <= i < size ==> r@[i] == (i as usize, 1usize),
    {
        let mut mappings: Vec<(usize, usize)> = Vec::new();
        let mut i: usize = 0;
        while i < size
            invariant
                i <= size,
                mappings@.len() == i,
                forall|j: int| 0 <= j < i ==> mappings@[j] == (j as usize, 1usize),
            decreases size - i,
        {
            mappings.push((i, 1));
            i += 1;
        }
        UnionFind { mappings, rank: Ghost((Seq::new(size as nat, |i: int| 0nat), 0nat)) }
    }

    /// Shortens the way from `idx` to its root, and returns the parent that
    /// `idx` had before: the root itself where `idx` was a root or the child
    /// of one.
    pub fn find(&mut self, idx: usize) -> (r: usize)
        requires
            old(self).wf(),
            idx < old(self)@.len(),
        ensures
            final(self).wf(),
            r == old(self).parent(idx as int),
            final(self)@ == old(self).compressed(idx as int),
            final(self).heights() == old(self).heights(),
            final(self).top() == old(self).top(),
        decreases old(self).top() - old(self).heights()[idx as int],
    {
        let ghost m = self.mappings@;
        let ghost rank = self.rank@.0;
        let ghost top = self.rank@.1;
        let (parent, _) = self.mappings[idx];
        proof {
            lemma_root(m, rank, top, idx as int);
            lemma_compressed(m, rank, top, idx as int, idx as int);
        }
        if parent != idx {
            proof {
                lemma_root(m, rank, top, parent as int);
            }
            let ancestor = self.find(parent);
            let entry = self.mappings[ancestor];
            self.mappings[idx] = entry;
            proof {
                let root = root_in(m, rank, top, idx as int);
                assert(on_path_in(m, rank, top, parent as int, ancestor as int)) by {
                    if m[parent as int].0 != parent {
                        assert(on_path_in(m, rank, top, ancestor as int, ancestor as int));
                    }
                }
                assert(entry == m[root]);
                assert(self.mappings@ =~= compressed_in(m, rank, top, idx as int));
            }
        } else {
            proof {
                assert(self.mappings@ =~= compressed_in(m, rank, top, idx as int));
            }
        }
        parent
    }

    /// Joins two elements: calls `find` on `a` and then on `b`, and makes one
    /// of the parents that they had a child of the other; see `joined`.
    pub fn union(&mut self, a: usize, b: usize)
        requires
            old(self).wf(),
            a < old(self)@.len(),
            b < old(self)@.len(),
            old(self).fits(a as int, b as int),
        ensures
            final(self).wf(),
            final(self)@ == Self::joined(
                old(self).compressed_twice(a as int, b as int),
                old(self).parent(a as int),
                old(self).parent_after(a as int, b as int),
            ),
    {
        let a_root = self.find(a);
        let b_root = self.find(b);

        if a_root == b_root {
            return ;
        }
        let a_size = self.mappings[a_root].1;
        let b_size = self.mappings[b_root].1;
        let total_size = a_size + b_size;
        let ghost m = self.mappings@;
        let ghost rank = self.rank@.0;
        let ghost top = self.rank@.1;

        // merge the smaller group into the larger group
        if a_size < b_size {
            self.mappings[a_root] = (b_root, total_size);
            self.mappings[b_root] = (b_root, total_size);
            self.rank = Ghost((rank.update(b_root as int, top + 1), top + 1));
        } else {
            self.mappings[a_root] = (a_root, total_size);
            self.mappings[b_root] = (a_root, total_size);
            self.rank = Ghost((rank.update(a_root as int, top + 1), top + 1));
        }
        proof {
            assert forall|i: int| 0 <= i < self.mappings@.len() implies {
                &&& (#[trigger] self.mappings@[i]).0 < self.mappings@.len()
                &&& self.rank@.0[i] <= self.rank@.1
                &&& self.rank@.0[self.mappings@[i].0 as int] <= self.rank@.1
                &&& self.mappings@[i].0 != i ==> self.rank@.0[self.mappings@[i].0 as int]
                    > self.rank@.0[i]
            } by {
                assert(m[a_root as int].0 < m.len());
                assert(m[b_root as int].0 < m.len());
                assert(m[i].0 < m.len());
            }
        }
    }
}

} // verus!
