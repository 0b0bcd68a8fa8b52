//! The random source that decides when and where passengers appear.
//!
//! The generator is `rand`'s `StdRng`, which the caller seeds and hands in.
//! Nothing here is proved: the two functions below state what `rand` documents
//! of the calls they make, and the rest of the library relies on that.
use rand::rngs::StdRng;
use rand::Rng;
use vstd::prelude::*;

verus! {

#[verifier::external_type_specification]
#[verifier::external_body]
pub struct ExStdRng(rand::rngs::StdRng);

/// Draws a floor below `bound` with `Rng::gen_range(0..bound)`.
///
/// `gen_range` panics on an empty range, so the bound must be positive. It
/// returns a value of the range: at least zero and less than `bound`.
#[verifier::external_body]
pub(crate) fn draw_below(rng: &mut StdRng, bound: i32) -> (r: i32)
    requires
        bound > 0,
    ensures
        0 <= r < bound,
{
    rng.gen_range(0..bound)
}

/// Decides with `Rng::gen_ratio(numerator, denominator)`.
///
/// `gen_ratio` panics if the denominator is zero or less than the numerator.
/// Its result is random, except at the two ends: with a numerator of zero it
/// is always `false`, and with numerator and denominator equal always `true`.
#[verifier::external_body]
pub(crate) fn draw_chance(rng: &mut StdRng, numerator: u32, denominator: u32) -> (hit: bool)
    requires
        0 < denominator,
        numerator <= denominator,
    ensures
        numerator == 0 ==> !hit,
        numerator == denominator ==> hit,
{
    rng.gen_ratio(numerator, denominator)
}

} // verus!
