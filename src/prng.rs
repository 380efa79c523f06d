//! The per-round seeds of the matcher, drawn from a PCG-32 generator.

use vstd::prelude::*;

verus! {

/// The generator state `(state, increment)` that `oorandom::Rand32::new`
/// builds from a seed.
pub uninterp spec fn pcg32_seeded(seed: u64) -> (u64, u64);

/// The state after one draw of `oorandom::Rand32::rand_u32` from a given
/// state, together with the number drawn.
pub uninterp spec fn pcg32_draw(state: (u64, u64)) -> ((u64, u64), u32);

/// Relies on `oorandom::Rand32::new`: the generator it builds depends on the
/// seed alone. `Rand32::state` only reads that generator back out.
#[verifier::external_body]
fn pcg32_new_state(seed: u64) -> (r: (u64, u64))
    ensures
        r == pcg32_seeded(seed),
{
    oorandom::Rand32::new(seed).state()
}

/// Relies on `oorandom::Rand32::rand_u32`: the number drawn and the next state
/// depend on the current state alone. `Rand32::from_state` and
/// `Rand32::state` only move the state in and out.
#[verifier::external_body]
fn pcg32_next(state: (u64, u64)) -> (r: ((u64, u64), u32))
    ensures
        r == pcg32_draw(state),
{
    let mut rng = oorandom::Rand32::from_state(state);
    let x = rng.rand_u32();
    (rng.state(), x)
}

/// The generator state after `k` draws from the generator seeded with `seed`.
pub open spec fn pcg32_state_after(seed: u64, k: nat) -> (u64, u64)
    decreases k,
{
    if k == 0 {
        pcg32_seeded(seed)
    } else {
        pcg32_draw(pcg32_state_after(seed, (k - 1) as nat)).0
    }
}

/// The first `count` numbers drawn from the generator seeded with `seed`.
pub open spec fn pcg32_stream(seed: u64, count: nat) -> Seq<u32> {
    Seq::new(count, |k: int| pcg32_draw(pcg32_state_after(seed, k as nat)).1)
}

/// Draws one seed per matching round from a PCG-32 generator seeded with
/// `prng_seed`.
pub fn round_seeds(prng_seed: u32, rounds: usize) -> (r: Vec<u32>)
    ensures
        r@ == pcg32_stream(prng_seed as u64, rounds as nat),
{
    let mut state = pcg32_new_state(prng_seed as u64);
    let mut seeds: Vec<u32> = Vec::new();
    let mut i: usize = 0;
    while i < rounds
        invariant
            i <= rounds,
            state == pcg32_state_after(prng_seed as u64, i as nat),
            seeds@ == pcg32_stream(prng_seed as u64, i as nat),
        decreases rounds - i,
    {
        let (next, x) = pcg32_next(state);
        seeds.push(x);
        proof {
            assert(seeds@ =~= pcg32_stream(prng_seed as u64, (i + 1) as nat));
        }
        state = next;
        i = i + 1;
    }
    seeds
}

} // verus!
