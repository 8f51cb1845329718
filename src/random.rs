use vstd::prelude::*;
use rand::Rng;
use rand_chacha::ChaCha20Rng;

verus! {

/// The seedable random source that one run threads through every document.
#[verifier::external_type_specification]
#[verifier::external_body]
pub struct ExChaCha20Rng(ChaCha20Rng);

/// Relies on `Rng::gen_range` over `0..n` of `usize`: an index below `n`. It
/// panics on an empty range, which `n > 0` rules out.
#[verifier::external_body]
pub(crate) fn draw_index(rng: &mut ChaCha20Rng, n: usize) -> (r: usize)
    requires
        n > 0,
    ensures
        r < n,
{
    rng.gen_range(0..n)
}

/// Relies on `Rng::gen_range` over `0..n` of `u32`: an index below `n`. It
/// panics on an empty range, which `n > 0` rules out.
#[verifier::external_body]
pub(crate) fn draw_index_u32(rng: &mut ChaCha20Rng, n: u32) -> (r: u32)
    requires
        n > 0,
    ensures
        r < n,
{
    rng.gen_range(0..n)
}

/// Relies on `Rng::gen_range` over `min..=max`: an integer of that range. It
/// panics on an empty range, which `min <= max` rules out.
#[verifier::external_body]
pub(crate) fn draw_int(rng: &mut ChaCha20Rng, min: i64, max: i64) -> (r: i64)
    requires
        min <= max,
    ensures
        min <= r <= max,
{
    rng.gen_range(min..=max)
}

/// Relies on `Rng::gen_ratio(1, 2)`: a fair coin. Nothing is promised of the
/// outcome.
#[verifier::external_body]
pub(crate) fn flip(rng: &mut ChaCha20Rng) -> (r: bool) {
    rng.gen_ratio(1, 2)
}

} // verus!
