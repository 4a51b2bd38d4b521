//! The source of randomness: a seedable generator from the `rand` crate.

use rand::rngs::StdRng;
use rand::{Rng, SeedableRng};
use vstd::prelude::*;

verus! {

#[verifier::external_type_specification]
#[verifier::external_body]
pub struct ExStdRng(StdRng);

/// Calls `rand::SeedableRng::seed_from_u64` for `rand::rngs::StdRng`. Nothing
/// is claimed of the generator that comes back.
#[verifier::external_body]
fn seeded_generator(seed: u64) -> StdRng {
    StdRng::seed_from_u64(seed)
}

/// Calls `rand::Rng::gen_range` on the inclusive range from `low` to `high`.
/// The range must not be empty, or the call panics. Claimed: the number drawn
/// lies in the range. Which number it is, is not said.
#[verifier::external_body]
fn uniform_inclusive(generator: &mut StdRng, low: u64, high: u64) -> (drawn: u64)
    requires
        low <= high,
    ensures
        low <= drawn <= high,
{
    generator.gen_range(low..=high)
}

/// One draw: the range that was asked for, and the number that came.
pub struct Draw {
    pub low: u64,
    pub high: u64,
    pub value: u64,
}

/// The numbers that came in the given draws, in order.
pub open spec fn values(made: Seq<Draw>) -> Seq<u64> {
    Seq::new(made.len(), |i: int| made[i].value)
}

/// A stream of random numbers that is fixed by its seed. The source keeps
/// the record of the draws made from it.
pub struct RandomSource {
    generator: StdRng,
    drawn: Ghost<Seq<Draw>>,
}

impl RandomSource {
    /// The draws made from the source so far, oldest first.
    pub closed spec fn history(&self) -> Seq<Draw> {
        self.drawn@
    }

    /// The source that `seed` determines, with no draw made yet.
    pub fn seeded(seed: u64) -> (source: Self)
        ensures
            source.history() == Seq::<Draw>::empty(),
    {
        RandomSource { generator: seeded_generator(seed), drawn: Ghost(Seq::empty()) }
    }

    /// Draws a number between zero and `bound`, both included, each with the
    /// same chance.
    pub fn draw_up_to(&mut self, bound: u64) -> (drawn: u64)
        ensures
            drawn <= bound,
            final(self).history() == old(self).history().push(
                Draw { low: 0, high: bound, value: drawn },
            ),
    {
        let drawn: u64 = uniform_inclusive(&mut self.generator, 0, bound);
        self.drawn = Ghost(self.drawn@.push(Draw { low: 0, high: bound, value: drawn }));
        drawn
    }

    /// Draws a number between `low` and `high`, both included, each with the
    /// same chance.
    pub fn draw_between(&mut self, low: u64, high: u64) -> (drawn: u64)
        requires
            low <= high,
        ensures
            low <= drawn <= high,
            final(self).history() == old(self).history().push(Draw { low, high, value: drawn }),
    {
        let drawn: u64 = uniform_inclusive(&mut self.generator, low, high);
        self.drawn = Ghost(self.drawn@.push(Draw { low, high, value: drawn }));
        drawn
    }
}

} // verus!
