use vstd::prelude::*;
use rand::Rng;
use rand::seq::SliceRandom;
use rand::SeedableRng;
use rand::rngs::StdRng;
use crate::tetris::BlockType;

verus! {

/// Shuffles the slice in place with `rand::seq::SliceRandom::shuffle` on the
/// thread-local generator. Claimed: the result is a permutation of the input
/// (the same multiset of pieces). Which permutation comes out is left open.
#[verifier::external_body]
pub(crate) fn shuffle_blocks(v: &mut Vec<BlockType>)
    ensures
        final(v)@.to_multiset() == old(v)@.to_multiset(),
{
    v.as_mut_slice().shuffle(&mut rand::thread_rng());
}

/// `rand::Rng::gen_ratio(numerator, denominator)` on the thread-local
/// generator: a coin that comes up `true` `numerator` times in
/// `denominator`. `gen_ratio` panics unless `0 < denominator` and
/// `numerator <= denominator`, which `requires` asks. Nothing is claimed of
/// the outcome.
#[verifier::external_body]
pub(crate) fn random_ratio(numerator: u32, denominator: u32) -> (hit: bool)
    requires
        0 < denominator,
        numerator <= denominator,
{
    rand::thread_rng().gen_ratio(numerator, denominator)
}

/// `rand::Rng::gen_range(lo..hi)` on the thread-local generator. Claimed: the
/// value lies in the half-open range; `gen_range` panics on an empty range,
/// which `requires` rules out. Which value comes out is left open.
#[verifier::external_body]
pub(crate) fn random_range(lo: usize, hi: usize) -> (r: usize)
    requires
        lo < hi,
    ensures
        lo <= r < hi,
{
    rand::thread_rng().gen_range(lo..hi)
}

/// The seedable generator of `rand`, carried through opaque.
#[verifier::external_type_specification]
#[verifier::external_body]
pub struct ExStdRng(rand::rngs::StdRng);

/// A generator seeded from a `u64`, with what its draws depend on: the seed
/// and how many bags of seven it has shuffled so far.
pub struct SeededRng {
    rng: StdRng,
    seed: Ghost<u64>,
    shuffles: Ghost<nat>,
}

impl SeededRng {
    /// The seed the generator was made from.
    pub closed spec fn seed_of(&self) -> u64 {
        self.seed@
    }

    /// How many bags of seven the generator has shuffled.
    pub closed spec fn shuffles_done(&self) -> nat {
        self.shuffles@
    }
}

/// Names the order in which `rand::seq::SliceRandom::shuffle` leaves the
/// seven entries `bag` when it draws from a `StdRng` seeded from `seed` that
/// has already shuffled `k` bags of seven. `StdRng` is a deterministic
/// generator, and shuffling seven entries draws the same numbers whatever the
/// entries are, so the result depends on these three values alone.
pub uninterp spec fn seeded_bag_shuffle(seed: u64, k: nat, bag: Seq<BlockType>) -> Seq<BlockType>;

/// `rand::SeedableRng::seed_from_u64` for `StdRng`: a generator seeded from
/// `seed`, which has shuffled nothing yet.
#[verifier::external_body]
pub(crate) fn seeded_rng(seed: u64) -> (rng: SeededRng)
    ensures
        rng.seed_of() == seed,
        rng.shuffles_done() == 0,
{
    SeededRng { rng: StdRng::seed_from_u64(seed), seed: Ghost(seed), shuffles: Ghost(0) }
}

/// Shuffles a bag of seven pieces in place with
/// `rand::seq::SliceRandom::shuffle` on the seeded generator. Claimed: the
/// result is a permutation of the input (the shuffle only swaps entries),
/// it is the one named by `seeded_bag_shuffle` for the generator's seed and
/// the bags it shuffled before, and the generator has shuffled one bag more.
#[verifier::external_body]
pub(crate) fn shuffle_blocks_with(v: &mut Vec<BlockType>, rng: &mut SeededRng)
    requires
        old(v)@.len() == 7,
    ensures
        final(v)@.to_multiset() == old(v)@.to_multiset(),
        final(v)@ == seeded_bag_shuffle(old(rng).seed_of(), old(rng).shuffles_done(), old(v)@),
        final(rng).seed_of() == old(rng).seed_of(),
        final(rng).shuffles_done() == old(rng).shuffles_done() + 1,
{
    v.as_mut_slice().shuffle(&mut rng.rng);
}

} // verus!
