//! The one source of randomness of the heuristics.

use crate::lists::occurs_in;
use rand::seq::SliceRandom;
use vstd::prelude::*;

verus! {

/// One entry of `candidates`, drawn uniformly at random.
///
/// The draw is made by `rand::seq::SliceRandom::choose` on the slice, with the
/// thread-local generator that `rand::thread_rng` hands out. The contract is
/// taken on trust from that method: it gives `None` for an empty slice and an
/// entry of the slice otherwise. Which entry is drawn is left open, so two
/// draws from one list may differ. The generator seeds itself from the
/// operating system when a thread first uses it, and `rand` aborts the
/// thread if that fails; nothing here can rule that out.
#[verifier::external_body]
pub(crate) fn pick_at_random(candidates: &Vec<usize>) -> (picked: Option<usize>)
    ensures
        candidates@.len() == 0 ==> picked.is_none(),
        candidates@.len() > 0 ==> picked.is_some() && occurs_in(
            candidates@,
            picked.unwrap() as int,
        ),
{
    candidates.choose(&mut rand::thread_rng()).copied()
}

} // verus!
