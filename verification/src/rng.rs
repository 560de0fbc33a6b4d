//! The random number generator of the search (`rand_chacha::ChaCha8Rng`
//! driven through `rand`). What it draws depends on its seed, so nothing is
//! promised of a draw beyond the range it lies in.
use rand::Rng;
use rand::SeedableRng;
use rand::seq::IteratorRandom;
use rand_chacha::ChaCha8Rng;
use vstd::prelude::*;
use crate::board::Coord;

verus! {

#[verifier::external_type_specification]
#[verifier::external_body]
pub struct ExChaCha8Rng(ChaCha8Rng);

/// `ChaCha8Rng::seed_from_u64`.
#[verifier::external_body]
pub(crate) fn seeded_rng(seed: u64) -> ChaCha8Rng {
    ChaCha8Rng::seed_from_u64(seed)
}

/// `ChaCha8Rng::from_os_rng`, seeded from the operating system's entropy
/// (the crate panics if the operating system cannot provide any).
#[verifier::external_body]
pub(crate) fn os_seeded_rng() -> ChaCha8Rng {
    ChaCha8Rng::from_os_rng()
}

/// `Rng::random::<u32>`: any `u32`.
#[verifier::external_body]
pub(crate) fn random_u32(rng: &mut ChaCha8Rng) -> u32 {
    rng.random::<u32>()
}

/// `Rng::random_range(0..n)`: an index below `n` (the crate panics on an
/// empty range, which `requires` rules out).
#[verifier::external_body]
pub(crate) fn random_below(rng: &mut ChaCha8Rng, n: usize) -> (r: usize)
    requires
        n > 0,
    ensures
        r < n,
{
    rng.random_range(0..n)
}

/// `IteratorRandom::choose` over the items of `v`: nothing when `v` is
/// empty, otherwise one of its items.
#[verifier::external_body]
pub(crate) fn choose_coord(rng: &mut ChaCha8Rng, v: Vec<Coord>) -> (r: Option<Coord>)
    ensures
        r is None <==> v@.len() == 0,
        r matches Some(c) ==> v@.contains(c),
{
    v.into_iter().choose(rng)
}

} // verus!
