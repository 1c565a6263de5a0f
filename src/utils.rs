//! Random integers and build information.
use vstd::prelude::*;

verus! {

/// Relies on rand's `Rng::gen_range` on `min..=max` with the thread-local
/// generator: the value drawn lies in the closed range. It panics only on an
/// empty range, which `requires` leaves out.
#[verifier::external_body]
fn gen_range_inclusive(min: i32, max: i32) -> (r: i32)
    requires
        min <= max,
    ensures
        min <= r <= max,
{
    rand::Rng::gen_range(&mut rand::thread_rng(), min..=max)
}

/// A random integer between `min` and `max`, both included.
pub fn random_i32_range(min: i32, max: i32) -> (r: i32)
    requires
        min <= max,
    ensures
        min <= r <= max,
{
    gen_range_inclusive(min, max)
}

} // verus!
