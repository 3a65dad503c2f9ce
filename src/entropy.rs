//! The randomness source: uniform draws from the thread-local generator of `rand`.
use rand::Rng;
use vstd::prelude::*;

verus! {

/// Relies on `rand::random::<bool>`: a uniformly random boolean. Nothing is
/// known of which value comes back.
#[verifier::external_body]
pub(crate) fn random_bit() -> (r: bool) {
    rand::random::<bool>()
}

/// Relies on `rand::Rng::gen_range` over `0..bound` on the thread-local
/// generator: a uniformly random integer below `bound`. It panics on an empty
/// range, which `bound > 0` excludes.
#[verifier::external_body]
pub(crate) fn random_below(bound: u64) -> (r: u64)
    requires
        bound > 0,
    ensures
        r < bound,
{
    rand::thread_rng().gen_range(0..bound)
}

} // verus!
