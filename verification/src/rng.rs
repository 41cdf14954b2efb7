//! The one source of randomness of the placement engine, behind a trusted
//! boundary: everything proved about placement holds whatever number comes
//! back from here.

use rand::Rng;
use vstd::prelude::*;

verus! {

/// Draw a uniformly random index below `n`.
///
/// Relies on `rand::thread_rng` for a generator and on `rand::Rng::gen_range`
/// over the range `0..n`: for a non-empty range it returns a value of that
/// range (and panics only on an empty one, which the precondition rules out).
/// Nothing is assumed about which value comes back.
#[verifier::external_body]
pub(crate) fn random_below(n: usize) -> (r: usize)
    requires
        0 < n,
    ensures
        r < n,
{
    rand::thread_rng().gen_range(0..n)
}

} // verus!
