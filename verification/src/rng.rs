//! The library's one source of randomness, kept behind a single trusted
//! boundary so the merge algorithm itself stays deterministic and verified.

use rand::Rng;
use vstd::prelude::*;

verus! {

/// Relies on `rand::Rng::gen_range` over `0..n` on the thread-local
/// generator: the result lies in the sampled half-open range, and the call
/// panics only on an empty range, which the precondition rules out.
#[verifier::external_body]
pub(crate) fn random_below(n: usize) -> (r: usize)
    requires
        0 < n,
    ensures
        r < n,
{
    rand::thread_rng().gen_range(0..n)
}

} // verus!
