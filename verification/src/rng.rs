//! The one point where the library draws randomness.

use vstd::prelude::*;

verus! {

/// A uniformly-random index below `bound`.
///
/// Relies on `rand::thread_rng` and `rand::Rng::gen_range`: sampling from the
/// range `0..bound` panics when the range is empty and otherwise returns a
/// value inside it. Nothing more is assumed of the result: every call may
/// return a different value.
#[verifier::external_body]
pub(crate) fn random_below(bound: usize) -> (r: usize)
    requires
        bound > 0,
    ensures
        r < bound,
{
    rand::Rng::gen_range(&mut rand::thread_rng(), 0..bound)
}

} // verus!
