//! The one trusted boundary: uniform random scalars from the `rand` crate.

use vstd::prelude::*;

verus! {

/// Relies on `rand::Rng::gen_range` over `lo..hi`: a uniform value in
/// `[lo, hi)`; it panics only on an empty range, which the precondition
/// rules out.  Nothing more is assumed: the draw is not a function of the
/// arguments.
#[verifier::external_body]
pub(crate) fn rand_range_i128(lo: i128, hi: i128) -> (r: i128)
    requires
        lo < hi,
    ensures
        lo <= r < hi,
{
    rand::Rng::gen_range(&mut rand::thread_rng(), lo..hi)
}

} // verus!
