//! Thin trusted access to the process random number generator.
use vstd::prelude::*;

verus! {

/// Relies on rand::Rng::gen through rand::thread_rng: an arbitrary machine
/// word; nothing can be promised about which value comes back.
#[verifier::external_body]
pub(crate) fn random_usize() -> usize {
    rand::Rng::gen::<usize>(&mut rand::thread_rng())
}

/// Relies on rand::Rng::gen_range through rand::thread_rng: the result is
/// drawn from the half-open range below `n`, which must not be empty.
#[verifier::external_body]
pub(crate) fn random_below(n: usize) -> (r: usize)
    requires
        n > 0,
    ensures
        r < n,
{
    rand::Rng::gen_range(&mut rand::thread_rng(), 0..n)
}

} // verus!
