//! Random choices, drawn from `rand`'s generator of the current thread.
//!
//! Everything in this file is believed, not proved. Nothing is promised of
//! a drawn value: the callers are verified for every value.

use vstd::prelude::*;
use rand::seq::SliceRandom;
use crate::layout::Index;

verus! {

/// `rand::random` for `bool`: some side.
#[verifier::external_body]
pub(crate) fn random_bool() -> (side: bool) {
    rand::random::<bool>()
}

/// `rand::random` for a 32-bit index: some number.
#[verifier::external_body]
pub(crate) fn random_index() -> (number: Index) {
    rand::random::<Index>()
}

/// `SliceRandom::shuffle` on the thread's generator: the entries change
/// places among themselves, by swaps, so that afterwards the vector holds
/// what it held, each entry as often as before.
#[verifier::external_body]
pub(crate) fn shuffle(items: &mut Vec<Index>)
    ensures
        final(items)@.to_multiset() == old(items)@.to_multiset(),
{
    items.shuffle(&mut rand::thread_rng());
}

} // verus!
