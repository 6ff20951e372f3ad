//! The random number generator of the `rand` crate, as the library uses it.

use rand::rngs::StdRng;
use rand::{Rng, SeedableRng};
use vstd::prelude::*;

verus! {

/// rand's standard generator, carried through the library as an opaque value.
#[verifier::external_type_specification]
#[verifier::external_body]
pub struct ExStdRng(StdRng);

/// rand's `SeedableRng::seed_from_u64` for `StdRng`: a generator seeded with `seed`.
/// Nothing is claimed of the generator's state.
#[verifier::external_body]
pub(crate) fn rng_from_seed(seed: u64) -> StdRng {
    StdRng::seed_from_u64(seed)
}

/// rand's `Rng::random_range` on the inclusive range `lo..=hi`: documented to return a
/// value of that range and to panic only when the range is empty, which `requires` rules
/// out. Which value comes back depends on the generator's state, so nothing more is claimed.
#[verifier::external_body]
pub(crate) fn random_i64_inclusive(rng: &mut StdRng, lo: i64, hi: i64) -> (r: i64)
    requires
        lo <= hi,
    ensures
        lo <= r <= hi,
{
    rng.random_range(lo..=hi)
}

/// rand's `Rng::random_range` on the half-open range `0..len`: a value below `len`;
/// the range must not be empty.
#[verifier::external_body]
pub(crate) fn random_index(rng: &mut StdRng, len: usize) -> (r: usize)
    requires
        len > 0,
    ensures
        r < len,
{
    rng.random_range(0..len)
}

} // verus!
