use rand::rngs::SmallRng;
use rand::Rng;
use rand::SeedableRng;
use vstd::prelude::*;

verus! {

#[verifier::external_type_specification]
#[verifier::external_body]
pub struct ExSmallRng(SmallRng);

/// Relies on the derived `Clone` of `SmallRng`: a copy of the generator's
/// state. Nothing is stated of that state.
pub assume_specification[ <SmallRng as Clone>::clone ](rng: &SmallRng) -> SmallRng;

/// The seed a generator falls back to when the operating system has no
/// entropy to give.
pub const FALLBACK_SEED: u64 = 0x5eed_cafe_f00d_d00d;

/// Relies on `SeedableRng::try_from_os_rng` for `SmallRng`: a small generator
/// seeded from the operating system, or `None` where `getrandom` fails.
/// Nothing is promised of its state.
#[verifier::external_body]
fn try_os_rng() -> Option<SmallRng> {
    SmallRng::try_from_os_rng().ok()
}

/// Relies on `SeedableRng::seed_from_u64` for `SmallRng`: a small generator
/// whose state is expanded from `seed`; it does not fail.
#[verifier::external_body]
pub(crate) fn rng_from_u64(seed: u64) -> SmallRng {
    SmallRng::seed_from_u64(seed)
}

/// A small generator seeded from the operating system, or from
/// `FALLBACK_SEED` where the operating system gives no entropy.
pub(crate) fn seeded_rng() -> SmallRng {
    match try_os_rng() {
        Some(rng) => rng,
        None => rng_from_u64(FALLBACK_SEED),
    }
}

/// Relies on `Rng::random_ratio`: `true` with probability
/// `numerator / denominator`; it never panics when the denominator is positive
/// and not below the numerator, is always `false` for a zero numerator and
/// always `true` when numerator and denominator are equal.
#[verifier::external_body]
pub(crate) fn flip(rng: &mut SmallRng, numerator: u32, denominator: u32) -> (r: bool)
    requires
        0 < denominator,
        numerator <= denominator,
    ensures
        numerator == 0 ==> !r,
        numerator == denominator ==> r,
{
    rng.random_ratio(numerator, denominator)
}

/// Flips coins that succeed with probability `numerator / denominator`
/// until one fails or `limit` have succeeded; returns the outcomes in order.
pub(crate) fn draw_flips(rng: &mut SmallRng, numerator: u32, denominator: u32, limit: usize) -> (flips: Vec<bool>)
    requires
        0 < denominator,
        numerator <= denominator,
    ensures
        flips@.len() <= limit,
        forall|i: int| 0 <= i < flips@.len() - 1 ==> #[trigger] flips@[i],
        numerator == denominator ==> flips@.len() == limit && forall|i: int| 0 <= i < flips@.len() ==> #[trigger] flips@[i],
        numerator == 0 ==> flips@.len() == 0 || !flips@[0],
{
    let mut flips: Vec<bool> = Vec::new();
    let mut going = true;
    while going && flips.len() < limit
        invariant
            0 < denominator,
            numerator <= denominator,
            flips@.len() <= limit,
            going ==> forall|i: int| 0 <= i < flips@.len() ==> #[trigger] flips@[i],
            forall|i: int| 0 <= i < flips@.len() - 1 ==> #[trigger] flips@[i],
            numerator == denominator ==> going,
            numerator == 0 ==> flips@.len() == 0 || !flips@[0],
        decreases limit - flips@.len(),
    {
        let f = flip(rng, numerator, denominator);
        flips.push(f);
        going = f;
    }
    flips
}

} // verus!
