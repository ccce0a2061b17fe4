use vstd::prelude::*;

verus! {

#[verifier::external_type_specification]
#[verifier::external_body]
pub struct ExRandomNumberGenerator(bracket_lib::random::RandomNumberGenerator);

/// Relies on bracket_lib's `RandomNumberGenerator::new`: a generator seeded
/// from the environment. Nothing is promised of the values it will draw.
#[verifier::external_body]
pub fn rng_new() -> bracket_lib::random::RandomNumberGenerator {
    bracket_lib::random::RandomNumberGenerator::new()
}

/// Relies on bracket_lib's `RandomNumberGenerator::range`: a draw that is
/// at least `lo` and strictly below `hi`. The call panics on an empty
/// range, so `lo < hi` is required.
#[verifier::external_body]
pub(crate) fn rng_range(
    rng: &mut bracket_lib::random::RandomNumberGenerator,
    lo: i32,
    hi: i32,
) -> (r: i32)
    requires
        lo < hi,
    ensures
        lo <= r < hi,
{
    rng.range(lo, hi)
}

} // verus!
