use vstd::prelude::*;
use rand::rngs::Xoshiro256PlusPlus;
use rand::{RngExt, SeedableRng};

verus! {

/// The random number generator that drives the solver's choices. Verus sees nothing
/// inside it: it only carries the generator's state from one draw to the next.
#[verifier::external_type_specification]
#[verifier::external_body]
pub struct ExXoshiro256PlusPlus(Xoshiro256PlusPlus);

/// The generator of a solver attempt, with the seed it was made from and the rolls
/// [`roll_below`] has drawn from it so far. Only [`seeded_rng`] makes one, and drawing
/// from it keeps the seed.
pub struct SeededRng {
    generator: Xoshiro256PlusPlus,
    seed: Ghost<u64>,
    draws: Ghost<Seq<u32>>,
}

impl SeededRng {
    /// The seed the generator was made from.
    pub closed spec fn seed(&self) -> u64 {
        self.seed@
    }

    /// The rolls drawn through [`roll_below`] since the generator was made, in order.
    pub closed spec fn draws(&self) -> Seq<u32> {
        self.draws@
    }

    /// The generator itself, lent out for draws of which the library claims nothing;
    /// it stays the one made from the seed.
    pub fn generator_mut(&mut self) -> (r: &mut Xoshiro256PlusPlus)
        ensures
            final(self).seed() == old(self).seed(),
            final(self).draws() == old(self).draws(),
    {
        &mut self.generator
    }
}

/// Draws a number from `0..bound` with `rand::RngExt::random_range`, which panics on an
/// empty range and otherwise returns a value of the range. Which value comes out depends
/// on the generator's state, and nothing more is claimed of it; the generator stays the
/// one made from its seed, and the roll is added to its record of draws.
#[verifier::external_body]
pub(crate) fn roll_below(rng: &mut SeededRng, bound: u32) -> (r: u32)
    requires
        bound > 0,
    ensures
        r < bound,
        final(rng).seed() == old(rng).seed(),
        final(rng).draws() == old(rng).draws().push(r),
{
    let r = rng.generator.random_range(0..bound);
    rng.draws = Ghost(rng.draws@.push(r));
    r
}

/// A generator seeded with `seed` through `rand::SeedableRng::seed_from_u64`, labelled
/// with that seed. The generator's state is opaque here: the contract states which seed
/// it was made from, and nothing of the numbers it will give.
#[verifier::external_body]
pub(crate) fn seeded_rng(seed: u64) -> (r: SeededRng)
    ensures
        r.seed() == seed,
        r.draws() == Seq::<u32>::empty(),
{
    SeededRng { generator: Xoshiro256PlusPlus::seed_from_u64(seed), seed: Ghost(seed), draws: Ghost(Seq::empty()) }
}

} // verus!
