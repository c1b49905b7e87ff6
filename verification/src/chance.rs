//! Random choice.

use vstd::prelude::*;
use rand::seq::SliceRandom;

verus! {

/// Picks one of `candidates` with `rand::seq::SliceRandom::choose`, which
/// draws from the generator that `rand::thread_rng` hands out.
///
/// Trusted: `choose` gives nothing for an empty slice and else one of the
/// slice's elements. Which one is not known. The call fails only where the
/// operating system cannot seed the generator.
#[verifier::external_body]
pub(crate) fn pick_one(candidates: &Vec<u128>) -> (picked: Option<u128>)
    ensures
        candidates@.len() == 0 ==> picked is None,
        candidates@.len() > 0 ==> picked is Some && candidates@.contains(picked->0),
{
    candidates.choose(&mut rand::thread_rng()).copied()
}

} // verus!
