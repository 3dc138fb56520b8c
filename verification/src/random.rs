//! The random draws the simulation consumes, taken from a caller-owned
//! `StdRng` so that one seed fixes a whole run.

use rand::rngs::StdRng;
use rand::Rng;
use vstd::prelude::*;

verus! {

/// `rand::rngs::StdRng`, carried through as a value of which nothing is
/// known.
#[verifier::external_type_specification]
#[verifier::external_body]
pub struct ExStdRng(StdRng);

/// `Rng::gen_range` over `0..bound`. Nothing is known of the draw except
/// that it lies in that half-open range. The range must not be empty, as
/// the generator panics on an empty one.
#[verifier::external_body]
pub(crate) fn draw_below(rng: &mut StdRng, bound: usize) -> (draw: usize)
    requires
        bound > 0,
    ensures
        draw < bound,
{
    rng.gen_range(0..bound)
}

/// `Rng::gen_ratio`: a Bernoulli trial that succeeds with probability
/// `numerator / denominator`. The outcome is only known at the two ends:
/// a zero numerator never succeeds and a numerator equal to the
/// denominator always does. The ratio must be a probability, as the
/// generator panics on a zero denominator or a numerator above it.
#[verifier::external_body]
pub(crate) fn draw_bernoulli(rng: &mut StdRng, numerator: u32, denominator: u32) -> (success: bool)
    requires
        denominator > 0,
        numerator <= denominator,
    ensures
        numerator == 0 ==> !success,
        numerator == denominator ==> success,
{
    rng.gen_ratio(numerator, denominator)
}

} // verus!
