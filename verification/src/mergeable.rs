use vstd::prelude::*;

verus! {

/// A trait for merging two values.
pub trait Mergeable: Sized {
    /// Merge `other` into `self` and return the result.
    fn merge_with(self, other: Self) -> Self;
}

/// Combine two optional values: two present values are merged, a single
/// present value is kept as is, and nothing results from nothing.
pub fn merge_optional<T: Mergeable>(first: Option<T>, second: Option<T>) -> (r: Option<T>)
    ensures
        r is Some <==> (first is Some || second is Some),
        first is None ==> r == second,
        second is None ==> r == first,
        (first, second) matches (Some(a), Some(b)) ==> r matches Some(x) && call_ensures(
            T::merge_with,
            (a, b),
            x,
        ),
{
    match (first, second) {
        (Some(e1), Some(e2)) => Some(e1.merge_with(e2)),
        (Some(e), None) => Some(e),
        (None, Some(e)) => Some(e),
        (None, None) => None,
    }
}

} // verus!
