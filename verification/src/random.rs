use vstd::prelude::*;

verus! {

/// Relies on `rand::random_range` (rand's thread-local generator): it
/// returns a uniformly distributed value inside the given range and
/// panics only when the range is empty, which the precondition rules out.
/// Nothing more can be promised of a random draw than its bounds.
#[verifier::external_body]
pub fn random_range(min: usize, max: usize) -> (r: usize)
    requires
        min < max,
    ensures
        min <= r < max,
{
    rand::random_range(min..max)
}

} // verus!
