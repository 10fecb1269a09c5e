//! The draws that the library takes from `rand`'s thread-local generator.

use rand::Rng;
use vstd::prelude::*;

verus! {

/// Relies on `rand::Rng::gen_range` on `rand::thread_rng()`: a value of the
/// half-open range `low..high`. It panics on an empty range, which the
/// precondition rules out.
#[verifier::external_body]
pub(crate) fn random_index(low: usize, high: usize) -> (r: usize)
    requires
        low < high,
    ensures
        low <= r < high,
{
    rand::thread_rng().gen_range(low..high)
}

/// Relies on `rand::random::<bool>()`: a fair coin; either value may come.
#[verifier::external_body]
pub(crate) fn random_bool() -> (r: bool) {
    rand::random::<bool>()
}

} // verus!
