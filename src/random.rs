//! The random source: a seedable generator of the `rand` crate.
use rand::Rng;
use vstd::prelude::*;

verus! {

/// The standard seedable generator of `rand`, carried through the library unopened.
#[verifier::external_type_specification]
#[verifier::external_body]
pub struct ExStdRng(rand::rngs::StdRng);

/// Relies on `rand::Rng::gen_range` over the half-open range `0..n`: the value
/// drawn lies in that range. The call panics on an empty range, which
/// `requires` leaves out.
#[verifier::external_body]
pub(crate) fn uniform_below(rng: &mut rand::rngs::StdRng, n: u64) -> (r: u64)
    requires
        n > 0,
    ensures
        r < n,
{
    rng.gen_range(0..n)
}

} // verus!
