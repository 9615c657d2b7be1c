//! The one source of chance: every random draw of the library is made here.

use rand::Rng;
use vstd::prelude::*;

verus! {

/// A number drawn from `0..bound` by `Rng::random_range` on the generator of
/// the calling thread, which `rand::rng` hands out.
///
/// Trusted, not proved: the number is below `bound`. Which number it is
/// depends on the generator and is not stated, so that two draws with one
/// bound may differ. An empty range is left out because `random_range`
/// panics on it. On a machine that cannot seed the generator `rand::rng`
/// panics at its first use in a thread; nothing is stated of that.
#[verifier::external_body]
pub(crate) fn random_below(bound: u64) -> (draw: u64)
    requires
        bound > 0,
    ensures
        draw < bound,
{
    rand::rng().random_range(0..bound)
}

/// A position drawn from `0..len`.
pub(crate) fn random_index(len: usize) -> (index: usize)
    requires
        len > 0,
    ensures
        index < len,
{
    random_below(len as u64) as usize
}

} // verus!
