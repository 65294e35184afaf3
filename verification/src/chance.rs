use rand::Rng;
use vstd::prelude::*;

verus! {

/// A number below `n`, drawn by `rand::Rng::random_range` on the thread's
/// generator from the range `0..n`. The range must not be empty. Nothing
/// is claimed of the number but that it lies in the range.
#[verifier::external_body]
pub(crate) fn random_index(n: usize) -> (i: usize)
    requires
        n > 0,
    ensures
        i < n,
{
    rand::rng().random_range(0..n)
}

/// A byte drawn by `rand::random` on the thread's generator. Nothing is
/// claimed of it.
#[verifier::external_body]
pub(crate) fn random_byte() -> u8 {
    rand::random::<u8>()
}

} // verus!
