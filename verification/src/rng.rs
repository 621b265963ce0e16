use vstd::prelude::*;
use rand::Rng;
use rand::SeedableRng;

verus! {

#[verifier::external_type_specification]
#[verifier::external_body]
pub struct ExStdRng(rand::rngs::StdRng);

/// Relies on rand's `Rng::gen_range` over `0..n`: it returns a value drawn
/// from that range, so the result is below `n`; it panics only when the
/// range is empty, which the precondition rules out.
#[verifier::external_body]
pub(crate) fn gen_below(rng: &mut rand::rngs::StdRng, n: usize) -> (r: usize)
    requires
        n > 0,
    ensures
        r < n,
{
    rng.gen_range(0..n)
}

/// Relies on rand's `Rng::gen_range` over `0..n` for `u64` values: it
/// returns a value drawn from that range, so the result is below `n`; it
/// panics only when the range is empty, which the precondition rules out.
#[verifier::external_body]
pub(crate) fn gen_below_u64(rng: &mut rand::rngs::StdRng, n: u64) -> (r: u64)
    requires
        n > 0,
    ensures
        r < n,
{
    rng.gen_range(0..n)
}

/// Relies on rand's `SeedableRng::from_entropy` to build a fresh generator;
/// nothing is promised of the values it will produce.
#[verifier::external_body]
pub(crate) fn fresh_rng() -> rand::rngs::StdRng {
    rand::rngs::StdRng::from_entropy()
}

} // verus!
