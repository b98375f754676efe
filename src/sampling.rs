//! Query indices drawn from a seed with a ChaCha20 generator.

use rand_chacha::ChaCha20Rng;
use vstd::prelude::*;

verus! {

#[verifier::external_type_specification]
#[verifier::external_body]
pub struct ExChaCha20Rng(ChaCha20Rng);

/// The `k`-th value (counting from 0) that `Uniform::new(0, max)` draws from a
/// ChaCha20 generator seeded with `seed`, when every earlier draw from it used
/// the same range.
pub uninterp spec fn uniform_draw(seed: Seq<u8>, max: nat, k: nat) -> nat;

/// The 32-byte seed made of the first bytes of `bytes`, padded with zeros.
pub open spec fn seed_of(bytes: Seq<u8>) -> Seq<u8> {
    Seq::new(32, |i: int| if i < bytes.len() { bytes[i] } else { 0u8 })
}

/// The `count` indices below `max` drawn from the seed made of `seed_bytes`.
pub open spec fn samples_spec(seed_bytes: Seq<u8>, count: nat, max: nat) -> Seq<usize> {
    Seq::new(count, |k: int| uniform_draw(seed_of(seed_bytes), max, k as nat) as usize)
}

/// A generator that draws indices below `max`, with the number drawn so far.
struct QuerySampler {
    rng: ChaCha20Rng,
    max: usize,
    seed: Ghost<Seq<u8>>,
    drawn: Ghost<nat>,
}

/// Relies on `rand_chacha::ChaCha20Rng::from_seed` (`rand_core::SeedableRng`):
/// a generator seeded with `seed`, from which nothing was drawn yet.
#[verifier::external_body]
fn sampler_from_seed(seed: [u8; 32], max: usize) -> (s: QuerySampler)
    ensures
        s.seed@ == seed@,
        s.max == max,
        s.drawn@ == 0,
{
    QuerySampler {
        rng: <ChaCha20Rng as rand_chacha::rand_core::SeedableRng>::from_seed(seed),
        max,
        seed: Ghost(seed@),
        drawn: Ghost(0),
    }
}

/// Relies on `rand::Rng::sample` with `rand::distr::Uniform::new(0, max)`:
/// the value lies in `[0, max)` and depends only on the seed, the range and the
/// number of earlier draws, and the draw advances the generator by one;
/// `Uniform::new` fails only when `max == 0`.
#[verifier::external_body]
fn uniform_sample(s: &mut QuerySampler) -> (r: usize)
    requires
        old(s).max > 0,
    ensures
        r as nat == uniform_draw(old(s).seed@, old(s).max as nat, old(s).drawn@),
        r < old(s).max,
        final(s).max == old(s).max,
        final(s).seed == old(s).seed,
        final(s).drawn@ == old(s).drawn@ + 1,
{
    let range = rand::distr::Uniform::new(0usize, s.max).unwrap();
    let r = rand::Rng::sample(&mut s.rng, range);
    s.drawn = Ghost(s.drawn@ + 1);
    r
}

/// Relies on `rand::random::<u32>()`, drawn from the thread-local generator:
/// nothing is known of the value.
#[verifier::external_body]
fn random_u32() -> u32 {
    rand::random::<u32>()
}

/// `size` field elements drawn at random (each a random `u32` reduced mod `p`).
pub fn generate_random_vector(size: usize) -> (r: Vec<crate::field::BabyBear>)
    ensures
        r@.len() == size,
{
    let mut r: Vec<crate::field::BabyBear> = Vec::new();
    for i in 0..size
        invariant
            r@.len() == i,
    {
        r.push(crate::field::BabyBear::from_u32(random_u32()));
    }
    r
}

/// Seeds a generator with the first 32 bytes of `seed_bytes` (zero-padded) and
/// draws `size` indices uniformly from `[0, max)`.
pub fn generate_samples_in_range(seed_bytes: Vec<u8>, size: usize, max: usize) -> (r: Vec<usize>)
    requires
        max > 0,
    ensures
        r@ == samples_spec(seed_bytes@, size as nat, max as nat),
        forall|k: int| 0 <= k < size ==> #[trigger] r@[k] < max,
{
    let mut seed = [0u8; 32];
    let len = if seed_bytes.len() < 32 {
        seed_bytes.len()
    } else {
        32
    };
    for i in 0..len
        invariant
            len <= 32,
            len <= seed_bytes@.len(),
            len == 32 || len == seed_bytes@.len(),
            forall|j: int| 0 <= j < i ==> seed@[j] == seed_bytes@[j],
            forall|j: int| i <= j < 32 ==> seed@[j] == 0u8,
    {
        seed[i] = seed_bytes[i];
    }
    assert(seed@ =~= seed_of(seed_bytes@));
    let mut sampler = sampler_from_seed(seed, max);
    let mut r: Vec<usize> = Vec::new();
    for k in 0..size
        invariant
            sampler.max == max,
            max > 0,
            sampler.seed@ == seed_of(seed_bytes@),
            sampler.drawn@ == k,
            r@.len() == k,
            forall|j: int|
                0 <= j < k ==> #[trigger] r@[j] as nat == uniform_draw(
                    seed_of(seed_bytes@),
                    max as nat,
                    j as nat,
                ),
            forall|j: int| 0 <= j < k ==> #[trigger] r@[j] < max,
    {
        let x = uniform_sample(&mut sampler);
        r.push(x);
    }
    assert(r@ =~= samples_spec(seed_bytes@, size as nat, max as nat));
    r
}

} // verus!
