use vstd::prelude::*;

verus! {

#[verifier::external_type_specification]
#[verifier::external_body]
pub struct ExSmallRng(rand::rngs::SmallRng);

/// Relies on rand's SeedableRng::seed_from_u64 for SmallRng: a generator
/// whose stream is a function of the seed alone within any one build, for
/// reproducible runs. rand chooses SmallRng's algorithm per platform, so
/// the draws get no named model here; reproducibility under a fixed seed
/// is exercised by a test instead.
#[verifier::external_body]
pub fn rng_from_seed(seed: u64) -> rand::rngs::SmallRng {
    rand::SeedableRng::seed_from_u64(seed)
}

/// Relies on rand's SeedableRng::from_entropy for SmallRng: a generator
/// seeded from the operating system, for non-reproducible runs.
#[verifier::external_body]
pub fn rng_from_entropy() -> rand::rngs::SmallRng {
    rand::SeedableRng::from_entropy()
}

/// Relies on rand's Rng::gen_range over an inclusive i64 range, which
/// panics only when the range is empty and returns a value inside it.
#[verifier::external_body]
pub fn rng_between(rng: &mut rand::rngs::SmallRng, lo: i64, hi: i64) -> (r: i64)
    requires
        lo <= hi,
    ensures
        lo <= r <= hi,
{
    rand::Rng::gen_range(rng, lo..=hi)
}

/// Relies on rand's Rng::gen for bool: a draw about which nothing is
/// promised.
#[verifier::external_body]
pub fn rng_flip(rng: &mut rand::rngs::SmallRng) -> bool {
    rand::Rng::gen::<bool>(rng)
}

/// Relies on rand's SliceRandom::shuffle: it permutes the slice in place,
/// keeping exactly the same elements.
#[verifier::external_body]
pub fn shuffle_angles(rng: &mut rand::rngs::SmallRng, v: &mut Vec<u32>)
    ensures
        final(v)@.to_multiset() == old(v)@.to_multiset(),
        final(v)@.len() == old(v)@.len(),
{
    rand::seq::SliceRandom::shuffle(v.as_mut_slice(), rng)
}

} // verus!
