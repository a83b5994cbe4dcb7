//! Where chance comes from: a seeded random number generator.

use rand::rngs::StdRng;
use rand::Rng;
use rand::SeedableRng;
use vstd::prelude::*;

verus! {

/// `rand::rngs::StdRng`, the generator behind a `RandomSource`. Nothing is
/// known of its state.
#[verifier::external_type_specification]
#[verifier::external_body]
pub struct ExStdRng(StdRng);

/// A source of random picks. In one build of the program, two sources made
/// from the same seed give the same picks in the same order.
pub struct RandomSource {
    rng: StdRng,
}

/// `SeedableRng::seed_from_u64` of `rand`, for `StdRng`: a generator whose
/// state is set from `seed`. Nothing is claimed of the generator.
#[verifier::external_body]
fn seeded_rng(seed: u64) -> StdRng {
    StdRng::seed_from_u64(seed)
}

/// `Rng::gen_range` of `rand`, on the range from 0 up to `bound`, which may
/// not be empty: the number drawn lies in that range. Which number it is, is
/// left open.
#[verifier::external_body]
fn index_below(rng: &mut StdRng, bound: usize) -> (pick: usize)
    requires
        bound > 0,
    ensures
        pick < bound,
{
    rng.gen_range(0..bound)
}

impl RandomSource {
    /// A source that is set up from `seed`.
    pub fn seeded(seed: u64) -> RandomSource {
        RandomSource { rng: seeded_rng(seed) }
    }

    /// Draws a number below `bound`, each with the same chance.
    pub fn below(&mut self, bound: usize) -> (pick: usize)
        requires
            bound > 0,
        ensures
            pick < bound,
    {
        index_below(&mut self.rng, bound)
    }
}

} // verus!
