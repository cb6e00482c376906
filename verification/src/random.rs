//! The random source. What it draws is the one thing the library takes on
//! trust: the contract of `random_below` is believed, not proved.

use vstd::prelude::*;

verus! {

/// The seedable random source of the `rand` crate; the library draws from
/// it and never looks inside.
#[verifier::external_type_specification]
#[verifier::external_body]
pub struct ExStdRng(rand::rngs::StdRng);

/// Draws a number below `bound` with `rand::Rng::gen_range` on the range
/// from zero up to, not including, `bound`. Trusted: the number drawn lies
/// in the range, whatever the state of the source; an empty range, on
/// which `gen_range` panics, is excluded.
#[verifier::external_body]
pub(crate) fn random_below(rng: &mut rand::rngs::StdRng, bound: u64) -> (r: u64)
    requires
        bound > 0,
    ensures
        r < bound,
{
    rand::Rng::gen_range(rng, 0..bound)
}

} // verus!
