//! Arrays of fixed length made element by element.

use vstd::prelude::*;

verus! {

/// Calls `array_init::array_init`. Taken on trust, not proved: the initializer is
/// called with every index below `N` and with nothing else, and the element of
/// the result at an index is what the call with that index returned.
#[verifier::external_body]
pub(crate) fn init_array<T, F: Fn(usize) -> T, const N: usize>(initializer: F) -> (r: [T; N])
    requires
        forall|i: usize| i < N ==> call_requires(initializer, (i,)),
    ensures
        forall|i: usize| i < N ==> call_ensures(initializer, (i,), #[trigger] r@[i as int]),
{
    array_init::array_init(initializer)
}

} // verus!
