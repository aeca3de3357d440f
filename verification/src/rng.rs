//! The source of randomness: a seedable generator of the `rand` crate.

use rand::rngs::StdRng;
use rand::Rng;
use vstd::prelude::*;

verus! {

/// Declares `rand::rngs::StdRng`, the seedable generator, as an opaque type:
/// nothing is claimed of its state.
#[verifier::external_type_specification]
#[verifier::external_body]
pub struct ExStdRng(rand::rngs::StdRng);

/// Calls `rand::Rng::gen_range` with the inclusive range `low..=high`.
///
/// Trusted: the sample lies in the range. Which value is drawn depends on the
/// generator's state, so nothing more is claimed. `gen_range` panics on an
/// empty range, which the precondition excludes.
#[verifier::external_body]
pub(crate) fn random_in(rng: &mut StdRng, low: i128, high: i128) -> (r: i128)
    requires
        low <= high,
    ensures
        low <= r <= high,
{
    rng.gen_range(low..=high)
}

} // verus!
