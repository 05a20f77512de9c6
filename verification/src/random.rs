//! Random numbers, from the thread's generator of the `rand` crate. Nothing
//! that is proved in this crate rests on which numbers are drawn.

use vstd::prelude::*;

verus! {

/// The handle to the thread's random number generator.
#[verifier::external_type_specification]
#[verifier::external_body]
pub struct ExThreadRng(rand::rngs::ThreadRng);

/// The function `thread_rng` of `rand`, which hands out the handle to the
/// generator of the thread. Nothing is claimed of the handle. The function
/// panics where the operating system gives the generator no seed.
pub assume_specification[ rand::thread_rng ]() -> (generator: rand::rngs::ThreadRng)
;

/// The method `Rng::gen` of `rand`, for a `u64`. Nothing is claimed of the
/// number: any `u64` may come back, one that was drawn before included.
#[verifier::external_body]
pub(crate) fn next_u64(generator: &mut rand::rngs::ThreadRng) -> (number: u64) {
    rand::Rng::gen(generator)
}

/// The method `Rng::gen_range` of `rand`, for a `usize` and the bounds 0 and
/// `bound`. The method panics on an empty range, which `requires` excludes;
/// what it returns lies in the range, that is below `bound`.
#[verifier::external_body]
pub(crate) fn next_below(generator: &mut rand::rngs::ThreadRng, bound: usize) -> (number: usize)
    requires
        bound > 0,
    ensures
        number < bound,
{
    rand::Rng::gen_range(generator, 0, bound)
}

} // verus!
