use core::cmp::Ordering;
use vstd::prelude::*;
use vstd::std_specs::cmp::OrdSpec;

verus! {

/// `a` comes strictly before `b` in the order that `Ord` gives `T`.
pub open spec fn lt<T: Ord>(a: T, b: T) -> bool {
    a.cmp_spec(&b) == Ordering::Less
}

/// The comparison of `T` is a strict total order: two values compare equal
/// exactly when they are the same value, every other pair is ordered one way
/// round, and the order is transitive.
pub open spec fn total_order<T: Ord>() -> bool {
    &&& T::obeys_cmp_spec()
    &&& forall|a: T, b: T|
        #![trigger a.cmp_spec(&b)]
        (a.cmp_spec(&b) == Ordering::Equal <==> a == b)
    &&& forall|a: T, b: T|
        #![trigger a.cmp_spec(&b)]
        (a.cmp_spec(&b) == Ordering::Greater <==> lt(b, a))
    &&& forall|a: T, b: T, c: T| #![trigger lt(a, b), lt(b, c)] lt(a, b) && lt(b, c) ==> lt(a, c)
}

/// Every element of `s` comes strictly before the elements after it.
pub open spec fn ascending<T: Ord>(s: Seq<T>) -> bool {
    forall|i: int, j: int| 0 <= i < j < s.len() ==> lt(#[trigger] s[i], #[trigger] s[j])
}

/// The outcome of a three-way comparison.
#[derive(Clone, Copy, PartialEq, Eq, Structural, Debug)]
pub enum Rank {
    Less,
    Equal,
    Greater,
}

/// Compares `a` with `b`.
pub fn rank<T: Ord>(a: &T, b: &T) -> (r: Rank)
    requires
        total_order::<T>(),
    ensures
        r == Rank::Less <==> lt(*a, *b),
        r == Rank::Equal <==> *a == *b,
        r == Rank::Greater <==> lt(*b, *a),
{
    match a.cmp(b) {
        Ordering::Less => Rank::Less,
        Ordering::Equal => Rank::Equal,
        Ordering::Greater => Rank::Greater,
    }
}

/// Two ascending sequences of which every element of the first comes before
/// every element of the second make one ascending sequence.
pub proof fn lemma_ascending_concat<T: Ord>(a: Seq<T>, b: Seq<T>)
    requires
        ascending(a),
        ascending(b),
        forall|i: int, j: int| 0 <= i < a.len() && 0 <= j < b.len() ==> lt(a[i], b[j]),
    ensures
        ascending(a + b),
{
    let c = a + b;
    assert forall|i: int, j: int| 0 <= i < j < c.len() implies lt(
        #[trigger] c[i],
        #[trigger] c[j],
    ) by {
        if j < a.len() {
            assert(lt(a[i], a[j]));
        } else if i >= a.len() {
            assert(lt(b[i - a.len()], b[j - a.len()]));
        } else {
            assert(lt(a[i], b[j - a.len()]));
        }
    }
}

/// An ascending sequence holds no value twice.
pub proof fn lemma_ascending_distinct<T: Ord>(a: Seq<T>)
    requires
        total_order::<T>(),
        ascending(a),
    ensures
        a.no_duplicates(),
{
    assert forall|i: int, j: int| 0 <= i < a.len() && 0 <= j < a.len() && i != j implies a[i]
        != a[j] by {
        if i < j {
            assert(lt(a[i], a[j]));
        } else {
            assert(lt(a[j], a[i]));
        }
    }
}

/// An ascending sequence is determined by the values it holds.
pub proof fn lemma_ascending_unique<T: Ord>(a: Seq<T>, b: Seq<T>)
    requires
        total_order::<T>(),
        ascending(a),
        ascending(b),
        forall|k: T| a.contains(k) <==> b.contains(k),
    ensures
        a == b,
    decreases a.len(),
{
    if a.len() == 0 {
        if b.len() > 0 {
            assert(b.contains(b[0]));
        }
        assert(a =~= b);
    } else {
        let x = a.last();
        assert(a.contains(x));
        assert(b.contains(x));
        let y = b.last();
        assert(b.contains(y));
        assert(a.contains(y));
        let i = choose|i: int| 0 <= i < a.len() && a[i] == y;
        let j = choose|j: int| 0 <= j < b.len() && b[j] == x;
        if i < a.len() - 1 {
            assert(lt(a[i], a[a.len() - 1]));
        }
        if j < b.len() - 1 {
            assert(lt(b[j], b[b.len() - 1]));
        }
        assert(x == y);
        let a1 = a.drop_last();
        let b1 = b.drop_last();
        assert forall|k: T| a1.contains(k) <==> b1.contains(k) by {
            if a1.contains(k) {
                let u = choose|u: int| 0 <= u < a1.len() && a1[u] == k;
                assert(lt(a[u], a[a.len() - 1]));
                assert(a.contains(k));
                let w = choose|w: int| 0 <= w < b.len() && b[w] == k;
                assert(b1[w] == k);
            }
            if b1.contains(k) {
                let u = choose|u: int| 0 <= u < b1.len() && b1[u] == k;
                assert(lt(b[u], b[b.len() - 1]));
                assert(b.contains(k));
                let w = choose|w: int| 0 <= w < a.len() && a[w] == k;
                assert(a1[w] == k);
            }
        }
        assert(ascending(a1)) by {
            assert forall|u: int, w: int| 0 <= u < w < a1.len() implies lt(
                #[trigger] a1[u],
                #[trigger] a1[w],
            ) by {
                assert(lt(a[u], a[w]));
            }
        }
        assert(ascending(b1)) by {
            assert forall|u: int, w: int| 0 <= u < w < b1.len() implies lt(
                #[trigger] b1[u],
                #[trigger] b1[w],
            ) by {
                assert(lt(b[u], b[w]));
            }
        }
        lemma_ascending_unique(a1, b1);
        assert(a =~= a1.push(x));
        assert(b =~= b1.push(y));
    }
}

/// Where an ascending sequence gains one value that it did not hold, it
/// grows by one element.
pub proof fn lemma_ascending_gained<T: Ord>(a: Seq<T>, b: Seq<T>, v: T)
    requires
        total_order::<T>(),
        ascending(a),
        ascending(b),
        !a.contains(v),
        forall|k: T| b.contains(k) <==> a.contains(k) || k == v,
    ensures
        b.len() == a.len() + 1,
        b.to_set() == a.to_set().insert(v),
{
    lemma_ascending_distinct(a);
    lemma_ascending_distinct(b);
    a.unique_seq_to_set();
    b.unique_seq_to_set();
    vstd::seq_lib::seq_to_set_is_finite(a);
    assert(b.to_set() =~= a.to_set().insert(v));
}

/// Where an ascending sequence loses one value that it held, it shrinks by
/// one element.
pub proof fn lemma_ascending_lost<T: Ord>(a: Seq<T>, b: Seq<T>, v: T)
    requires
        total_order::<T>(),
        ascending(a),
        ascending(b),
        a.contains(v),
        forall|k: T| b.contains(k) <==> a.contains(k) && k != v,
    ensures
        b.len() + 1 == a.len(),
        b.to_set() == a.to_set().remove(v),
{
    lemma_ascending_distinct(a);
    lemma_ascending_distinct(b);
    a.unique_seq_to_set();
    b.unique_seq_to_set();
    vstd::seq_lib::seq_to_set_is_finite(a);
    assert(b.to_set() =~= a.to_set().remove(v));
}

/// The order of `u8` is a total order.
pub proof fn lemma_total_order_u8()
    ensures
        total_order::<u8>(),
{
}

/// The order of `u16` is a total order.
pub proof fn lemma_total_order_u16()
    ensures
        total_order::<u16>(),
{
}

/// The order of `u32` is a total order.
pub proof fn lemma_total_order_u32()
    ensures
        total_order::<u32>(),
{
}

/// The order of `u64` is a total order.
pub proof fn lemma_total_order_u64()
    ensures
        total_order::<u64>(),
{
}

/// The order of `usize` is a total order.
pub proof fn lemma_total_order_usize()
    ensures
        total_order::<usize>(),
{
}

/// The order of `i8` is a total order.
pub proof fn lemma_total_order_i8()
    ensures
        total_order::<i8>(),
{
}

/// The order of `i16` is a total order.
pub proof fn lemma_total_order_i16()
    ensures
        total_order::<i16>(),
{
}

/// The order of `i32` is a total order.
pub proof fn lemma_total_order_i32()
    ensures
        total_order::<i32>(),
{
}

/// The order of `i64` is a total order.
pub proof fn lemma_total_order_i64()
    ensures
        total_order::<i64>(),
{
}

/// The order of `isize` is a total order.
pub proof fn lemma_total_order_isize()
    ensures
        total_order::<isize>(),
{
}

} // verus!
