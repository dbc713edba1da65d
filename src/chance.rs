//! Random draws, from the thread-local generator of `rand`.

use vstd::prelude::*;

verus! {

/// Relies on rand's `SliceRandom::choose`: `None` only for an empty slice,
/// otherwise a reference to one of its elements.
#[verifier::external_body]
pub(crate) fn pick_one<T>(v: &Vec<T>) -> (r: Option<&T>)
    ensures
        (v@.len() == 0) == r.is_none(),
        r.is_some() ==> v@.contains(*r.unwrap()),
{
    rand::seq::SliceRandom::choose(v.as_slice(), &mut rand::thread_rng())
}

/// Relies on rand's `SliceRandom::shuffle`: the elements are permuted in
/// place.
#[verifier::external_body]
pub(crate) fn shuffle<T>(v: &mut Vec<T>)
    ensures
        final(v)@.len() == old(v)@.len(),
        final(v)@.to_multiset() == old(v)@.to_multiset(),
{
    rand::seq::SliceRandom::shuffle(v.as_mut_slice(), &mut rand::thread_rng())
}

} // verus!
