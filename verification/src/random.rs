//! The source of chance.

use vstd::prelude::*;

verus! {

/// Calls `rand::random_range` on the range from 0 up to, not including, `n`,
/// which draws from the thread's generator. Trusted: the value lies in that
/// range. The call panics on an empty range, which `n > 0` leaves out.
#[verifier::external_body]
pub(crate) fn random_below(n: usize) -> (k: usize)
    requires
        n > 0,
    ensures
        k < n,
{
    rand::random_range(0..n)
}

} // verus!
