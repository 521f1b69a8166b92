//! The source of uniform draws.
use rand::Rng;
use vstd::prelude::*;

verus! {

/// Relies on `rand::thread_rng` and `Rng::gen_range` on a half-open range of
/// `i32`: a value `lo <= r < hi`; the call panics on an empty range, which
/// `requires` leaves out.
#[verifier::external_body]
pub(crate) fn uniform_in(lo: i32, hi: i32) -> (r: i32)
    requires
        lo < hi,
    ensures
        lo <= r < hi,
{
    rand::thread_rng().gen_range(lo..hi)
}

} // verus!
