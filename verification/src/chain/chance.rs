//! The random numbers that a chain draws.
use rand::distributions::{Distribution, Uniform};
use rand::rngs::ThreadRng;
use vstd::prelude::*;

verus! {

/// `rand::rngs::ThreadRng`, the random number generator of a thread.
#[verifier::external_type_specification]
#[verifier::external_body]
pub struct ExThreadRng(ThreadRng);

/// `rand::thread_rng` hands out the generator of the current thread.
/// Nothing is claimed of the numbers that it will give.
pub assume_specification[ rand::thread_rng ]() -> ThreadRng;

/// Draws a number below `bound` with `Uniform::new(0, bound)`, which
/// samples from the half-open range from 0 to `bound` and panics where
/// that range is empty. Which number comes is left open.
#[verifier::external_body]
pub(crate) fn draw_below(rng: &mut ThreadRng, bound: u128) -> (draw: u128)
    requires
        bound > 0,
    ensures
        draw < bound,
{
    Uniform::new(0u128, bound).sample(rng)
}

} // verus!
