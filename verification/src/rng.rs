//! The boundary to the random number generator: the one place where the
//! library calls into the `rand` crate.

use vstd::prelude::*;

use rand::RngExt;

verus! {

#[verifier::external_type_specification]
#[verifier::external_body]
pub struct ExThreadRng(rand::rngs::ThreadRng);

/// Relies on rand's `RngExt::random_range` over the closed range `1..=face`:
/// it returns a value of that range and panics only when the range is empty,
/// which `1 <= face` rules out. Nothing is assumed beyond membership in the
/// range; two calls on equal arguments may differ.
#[verifier::external_body]
pub fn roll_die(r: &mut rand::rngs::ThreadRng, face: i64) -> (res: i64)
    requires
        1 <= face,
    ensures
        1 <= res <= face,
{
    r.random_range(1..=face)
}

} // verus!
