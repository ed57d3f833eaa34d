use vstd::prelude::*;

use rand::Rng;

verus! {

/// Relies on `rand::thread_rng` and `Rng::gen_range`: a uniformly drawn number
/// in `0..n`, which panics on an empty range.
#[verifier::external_body]
pub fn random_below(n: u128) -> (r: u128)
    requires
        n > 0,
    ensures
        r < n,
{
    rand::thread_rng().gen_range(0..n)
}

} // verus!
