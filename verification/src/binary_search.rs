use crate::order::{lt, rank, total_order, Rank};
use vstd::prelude::*;

verus! {

/// No element of `s` comes before one that stands before it.
pub open spec fn non_descending<T: Ord>(s: Seq<T>) -> bool {
    forall|i: int, j: int| 0 <= i < j < s.len() ==> !lt(#[trigger] s[j], #[trigger] s[i])
}

/// A sequence in which no element comes before its left neighbour is
/// non-descending.
pub proof fn lemma_neighbours<T: Ord>(s: Seq<T>)
    requires
        total_order::<T>(),
        forall|i: int| 0 <= i < s.len() - 1 ==> !lt(#[trigger] s[i + 1], s[i]),
    ensures
        non_descending(s),
{
    assert forall|i: int, j: int| 0 <= i < j < s.len() implies !lt(
        #[trigger] s[j],
        #[trigger] s[i],
    ) by {
        lemma_run(s, i, j);
    }
}

proof fn lemma_run<T: Ord>(s: Seq<T>, i: int, j: int)
    requires
        total_order::<T>(),
        0 <= i < j < s.len(),
        forall|i: int| 0 <= i < s.len() - 1 ==> !lt(#[trigger] s[i + 1], s[i]),
    ensures
        !lt(s[j], s[i]),
    decreases j - i,
{
    assert(!lt(s[j - 1 + 1], s[j - 1]));
    if i < j - 1 {
        lemma_run(s, i, j - 1);
    }
    // s[i] <= s[j - 1] <= s[j]
    if lt(s[j], s[i]) {
        if s[j - 1] == s[j] {
        } else {
            assert(lt(s[j - 1], s[j]));
            assert(lt(s[j - 1], s[i]));
        }
    }
}

/// A container of sorted elements in which an element can be looked for in
/// logarithmic time.
pub trait BinarySearch<'a, T: Ord> {
    /// The elements of the container, in its order.
    spec fn items(&self) -> Seq<T>;

    /// A reference to an element equal to `target`, if the container is
    /// sorted and holds one; `None` otherwise.
    fn binary_search(&'a self, target: T) -> (r: Option<&'a T>)
        requires
            total_order::<T>(),
        ensures
            r.is_some() <==> non_descending(self.items()) && self.items().contains(target),
            r.is_some() ==> *r.unwrap() == target,
    ;

    /// Whether the elements are in non-descending order. This takes time
    /// linear in their number.
    fn is_sorted(&self) -> (r: bool)
        requires
            total_order::<T>(),
        ensures
            r == non_descending(self.items()),
    ;
}

impl<'a, T: Ord> BinarySearch<'a, T> for Vec<T> {
    open spec fn items(&self) -> Seq<T> {
        self@
    }

    fn is_sorted(&self) -> (r: bool) {
        let mut i: usize = 1;
        while i < self.len()
            invariant
                total_order::<T>(),
                1 <= i,
                forall|k: int| 0 <= k < i - 1 && k < self@.len() - 1 ==> !lt(#[trigger] self@[k + 1], self@[k]),
            decreases self@.len() - i,
        {
            match rank(&self[i - 1], &self[i]) {
                Rank::Greater => {
                    assert(lt(self@[i as int], self@[i - 1]));
                    return false;
                },
                _ => {},
            }
            i += 1;
        }
        proof {
            lemma_neighbours(self@);
        }
        true
    }

    fn binary_search(&'a self, target: T) -> (r: Option<&'a T>) {
        if !self.is_sorted() || self.len() == 0 {
            return None;
        }
        let mut left: usize = 0;
        let mut right: usize = self.len() - 1;
        while left <= right
            invariant
                total_order::<T>(),
                non_descending(self@),
                right < self@.len(),
                left <= right + 1,
                forall|k: int| 0 <= k < left ==> lt(#[trigger] self@[k], target),
                forall|k: int| right < k < self@.len() ==> lt(target, #[trigger] self@[k]),
            decreases right + 1 - left,
        {
            let mid = left + (right - left) / 2;
            assert(mid < self.len());
            match rank(&self[mid], &target) {
                Rank::Equal => {
                    return Some(&self[mid]);
                },
                Rank::Less => {
                    assert forall|k: int| 0 <= k < mid + 1 implies lt(#[trigger] self@[k], target) by {
                        if k < mid {
                            assert(!lt(self@[mid as int], self@[k]));
                        }
                    }
                    left = mid + 1;
                },
                Rank::Greater => {
                    assert forall|k: int| mid <= k < self@.len() implies lt(
                        target,
                        #[trigger] self@[k],
                    ) by {
                        if k > mid {
                            assert(!lt(self@[k], self@[mid as int]));
                        }
                    }
                    if mid == 0 {
                        return None;
                    }
                    right = mid - 1;
                },
            }
        }
        None
    }
}

} // verus!
