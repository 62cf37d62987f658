use rand::Rng;
use vstd::prelude::*;

verus! {

/// Relies on `rand::Rng::gen_range(0, n)` on the generator of `rand::thread_rng`:
/// a value drawn from `[0, n)`. It panics when `n == 0`, which `requires` rules out.
#[verifier::external_body]
pub(crate) fn random_below(n: usize) -> (r: usize)
    requires
        0 < n,
    ensures
        r < n,
{
    rand::thread_rng().gen_range(0, n)
}

} // verus!
