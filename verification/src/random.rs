//! The one source of chance: the thread's generator of the `rand` crate.

use vstd::prelude::*;

verus! {

/// A whole number drawn uniformly from `lo..hi`, by `rand::Rng::gen_range`
/// on the generator that `rand::thread_rng` hands out.
///
/// Not proved: that the number drawn lies in the range asked for, `lo`
/// included and `hi` excluded. Nothing is claimed of which number comes,
/// and two calls may differ.
///
/// `gen_range` panics on an empty range, which the precondition rules out.
/// The generator takes its seed from the operating system, at first use
/// and again from time to time, and panics where the system has none to
/// give; no precondition can rule that out.
#[verifier::external_body]
pub(crate) fn uniform(lo: i64, hi: i64) -> (r: i64)
    requires
        lo < hi,
    ensures
        lo <= r < hi,
{
    rand::Rng::gen_range(&mut rand::thread_rng(), lo..hi)
}

} // verus!
