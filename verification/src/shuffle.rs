//! Seeded chance, taken on trust from `rand`: the order in which nodes enter
//! the contraction queue, and the choice of landmarks.

use rand::Rng;
use rand::SeedableRng;
use rand::rngs::StdRng;
use rand::seq::SliceRandom;
use vstd::prelude::*;

verus! {

/// `rand::rngs::StdRng`, the generator behind the shuffle. Verus sees nothing
/// inside.
#[verifier::external_type_specification]
#[verifier::external_body]
pub struct ExStdRng(StdRng);

/// `SeedableRng::seed_from_u64` for `StdRng`: a generator made from `seed`.
/// Nothing is claimed of what it will hand out.
#[verifier::external_body]
pub(crate) fn seeded_generator(seed: u64) -> (generator: StdRng) {
    StdRng::seed_from_u64(seed)
}

/// `SliceRandom::shuffle`: swaps entries of `order` among each other, so
/// that it holds the same entries as before, each as often as before.
/// Nothing is claimed of where they end up.
#[verifier::external_body]
pub(crate) fn shuffle(order: &mut Vec<u32>, generator: &mut StdRng)
    ensures
        final(order)@.to_multiset() == old(order)@.to_multiset(),
{
    order.shuffle(generator);
}

/// `Rng::gen_range` over `0..bound`: some number below `bound`. Nothing is
/// claimed of which.
#[verifier::external_body]
pub(crate) fn draw_below(generator: &mut StdRng, bound: u32) -> (drawn: u32)
    requires
        bound > 0,
    ensures
        drawn < bound,
{
    generator.gen_range(0..bound)
}

} // verus!
