use vstd::prelude::*;

verus! {

/// `r` holds, place by place, a clone of what `s` holds.
pub open spec fn clones_of<T: Clone>(s: Seq<T>, r: Seq<T>) -> bool {
    &&& r.len() == s.len()
    &&& forall|i: int| 0 <= i < s.len() ==> cloned(#[trigger] s[i], r[i])
}

/// A clone of a value of `T` is that value.
pub open spec fn faithful<T: Clone>() -> bool {
    forall|a: T, b: T| #[trigger] cloned(a, b) ==> a == b
}

} // verus!
