//! The source of random numbers.

use rand::rngs::SmallRng;
use rand::{RngCore, SeedableRng};
use vstd::prelude::*;

verus! {

/// The generator `SmallRng` of the crate `rand`.
#[verifier::external_type_specification]
#[verifier::external_body]
pub struct ExSmallRng(SmallRng);

/// The numbers that a generator has yet to draw: under `i` the one that
/// `next_u64` returns after `i` calls of it.
pub uninterp spec fn draws(rng: SmallRng) -> Map<nat, u64>;

/// The numbers that a generator seeded with `seed` draws. `SmallRng` is one
/// algorithm where addresses have 64 bits and another elsewhere, so the width
/// of addresses, `word` bits, is an argument.
pub uninterp spec fn seeded_draws(seed: u64, word: nat) -> Map<nat, u64>;

/// `SmallRng::from_entropy`: a generator seeded by the operating system. Nothing
/// is claimed of what it draws. It panics where the system has no entropy.
#[verifier::external_body]
pub(crate) fn from_entropy() -> (rng: SmallRng)
{
    SmallRng::from_entropy()
}

/// `SmallRng::seed_from_u64`: what the generator draws depends on the seed
/// alone, on machines whose addresses have the same width.
#[verifier::external_body]
pub(crate) fn from_seed(seed: u64) -> (rng: SmallRng)
    ensures
        draws(rng) == seeded_draws(seed, usize::BITS as nat),
{
    SmallRng::seed_from_u64(seed)
}

/// `SmallRng::next_u64`: hands out the next number, and goes on to the one after
/// it.
#[verifier::external_body]
pub(crate) fn next_u64(rng: &mut SmallRng) -> (r: u64)
    ensures
        r == draws(*old(rng))[0],
        forall|i: nat| #[trigger] draws(*final(rng))[i] == draws(*old(rng))[i + 1],
{
    rng.next_u64()
}

/// `SmallRng::clone`: the copy draws the same numbers.
#[verifier::external_body]
pub(crate) fn copy(rng: &SmallRng) -> (r: SmallRng)
    ensures
        draws(r) == draws(*rng),
{
    rng.clone()
}

} // verus!
