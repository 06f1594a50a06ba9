//! The random source that agents draw from.
use rand::Rng;
use vstd::prelude::*;

verus! {

/// The generator an agent draws from (rand's thread-local generator).
#[verifier::external_type_specification]
#[verifier::external_body]
pub struct ExThreadRng(rand::rngs::ThreadRng);

/// Relies on rand's `thread_rng`: a handle to the thread-local generator.
pub assume_specification[ rand::thread_rng ]() -> rand::rngs::ThreadRng;

/// Relies on rand's derived `Clone` for `ThreadRng`: another handle to the
/// same thread-local generator.
pub assume_specification[ <rand::rngs::ThreadRng as core::clone::Clone>::clone ](
    rng: &rand::rngs::ThreadRng,
) -> rand::rngs::ThreadRng;

/// Relies on rand's `Rng::gen_range` on `i64`: a value in `[low, high)`;
/// it panics when `low >= high`, which `requires` rules out.
#[verifier::external_body]
pub(crate) fn gen_range(rng: &mut rand::rngs::ThreadRng, low: i64, high: i64) -> (r: i64)
    requires
        low < high,
    ensures
        low <= r < high,
{
    rng.gen_range(low, high)
}

} // verus!
