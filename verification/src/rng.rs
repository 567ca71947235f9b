use vstd::prelude::*;
use rand::Rng;
use rand::SeedableRng;

verus! {

#[verifier::external_type_specification]
#[verifier::external_body]
pub struct ExStdRng(rand::rngs::StdRng);

/// Relies on rand::rngs::StdRng::from_entropy: a generator freshly seeded
/// from the system's entropy source. Nothing is assumed about the values it
/// will yield.
#[verifier::external_body]
pub(crate) fn entropy_rng() -> rand::rngs::StdRng {
    rand::rngs::StdRng::from_entropy()
}

/// Relies on rand::Rng::gen_range on a nonempty inclusive range: the result
/// lies within the requested bounds. Nothing is assumed about which value in
/// the range comes back.
#[verifier::external_body]
pub(crate) fn gen_in_range(rng: &mut rand::rngs::StdRng, lo: u32, hi: u32) -> (r: u32)
    requires
        lo <= hi,
    ensures
        lo <= r <= hi,
{
    rng.gen_range(lo..=hi)
}

} // verus!
