//! The source of randomness that list-item selection, shuffles and the
//! position of the right answer draw from. A source made from a seed
//! repeats its draws; one made from the operating system does not.

use rand::rngs::StdRng;
use vstd::prelude::*;

verus! {

/// `rand::rngs::StdRng`, the generator behind a source. The proofs see
/// nothing inside it.
#[verifier::external_type_specification]
#[verifier::external_body]
pub struct ExStdRng(rand::rngs::StdRng);

/// `rand::SeedableRng::seed_from_u64` for `StdRng`: a generator whose
/// stream is fixed by the seed. Nothing is claimed of the stream.
#[verifier::external_body]
fn seeded_generator(seed: u64) -> StdRng {
    rand::SeedableRng::seed_from_u64(seed)
}

/// `rand::SeedableRng::from_rng` for `StdRng`, fed by `rand::rngs::OsRng`:
/// a generator seeded by the operating system, or nothing where the
/// system gives no entropy.
#[verifier::external_body]
fn system_generator() -> Option<StdRng> {
    let made: Result<StdRng, rand::Error> = rand::SeedableRng::from_rng(rand::rngs::OsRng);
    made.ok()
}

/// `rand::Rng::gen_range` on `0..bound`: some number below the bound. The
/// call panics on an empty range, which `requires` leaves out.
#[verifier::external_body]
fn draw_below(generator: &mut StdRng, bound: usize) -> (r: usize)
    requires
        bound > 0,
    ensures
        r < bound,
{
    rand::Rng::gen_range(generator, 0..bound)
}

/// `rand::seq::SliceRandom::shuffle`: the items are swapped among
/// themselves, so the same items are there afterwards, each as often as
/// before.
#[verifier::external_body]
fn shuffle_slice<T>(items: &mut Vec<T>, generator: &mut StdRng)
    ensures
        final(items)@.to_multiset() == old(items)@.to_multiset(),
{
    rand::seq::SliceRandom::shuffle(items.as_mut_slice(), generator)
}

/// A source of random draws.
pub struct RandomSource {
    generator: StdRng,
}

impl RandomSource {
    /// A source that repeats the same draws whenever it is made from the
    /// same seed.
    pub fn from_seed(seed: u64) -> RandomSource {
        RandomSource { generator: seeded_generator(seed) }
    }

    /// A source seeded by the operating system, or `None` where the system
    /// has no entropy to give.
    pub fn from_system() -> Option<RandomSource> {
        match system_generator() {
            Some(generator) => Some(RandomSource { generator }),
            None => None,
        }
    }

    /// A number below `bound`.
    pub fn below(&mut self, bound: usize) -> (r: usize)
        requires
            bound > 0,
        ensures
            r < bound,
    {
        draw_below(&mut self.generator, bound)
    }

    /// Puts the items in a random order.
    pub fn shuffle<T>(&mut self, items: &mut Vec<T>)
        ensures
            final(items)@.to_multiset() == old(items)@.to_multiset(),
            final(items)@.len() == old(items)@.len(),
    {
        let ghost before = items@;
        shuffle_slice(items, &mut self.generator);
        proof {
            before.to_multiset_ensures();
            items@.to_multiset_ensures();
        }
    }
}

} // verus!
