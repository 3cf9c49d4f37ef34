//! The crate's only outside call: drawing a uniformly distributed integer.

use vstd::prelude::*;

verus! {

/// Relies on `rand::Rng::gen_range` over the inclusive range `lo..=hi` on
/// `i64`: the sample always lies between the bounds. The call panics only on
/// an empty range, which the precondition rules out. Nothing more is claimed:
/// the value depends on the thread-local generator's state.
#[verifier::external_body]
pub(crate) fn rand_in_range(lo: i64, hi: i64) -> (r: i64)
    requires
        lo <= hi,
    ensures
        lo <= r <= hi,
{
    rand::Rng::gen_range(&mut rand::thread_rng(), lo..=hi)
}

} // verus!
