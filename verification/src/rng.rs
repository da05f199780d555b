//! The library's single source of randomness.

use vstd::prelude::*;

verus! {

/// Relies on rand::random_range over `0..n`: a uniform draw below `n`,
/// from the thread-local generator.  It panics only on an empty range,
/// which the precondition rules out; nothing further is assumed about
/// which value comes back.
#[verifier::external_body]
pub(crate) fn rand_below(n: usize) -> (r: usize)
    requires
        1 <= n,
    ensures
        r < n,
{
    rand::random_range(0..n)
}

/// A draw in thousandths, for probability checks: `r < p` models an
/// event of probability `p/1000`.
pub(crate) fn rand_millis() -> (r: i64)
    ensures
        0 <= r < 1000,
{
    let d = rand_below(1000);
    d as i64
}

} // verus!
