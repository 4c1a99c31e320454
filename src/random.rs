//! Random choices, made by the `rand` crate with the thread-local generator.

use vstd::prelude::*;
use rand::seq::{IteratorRandom, SliceRandom};
use crate::tilemap::Position;

verus! {

/// Relies on `rand::seq::SliceRandom::shuffle`: it only swaps entries, so the
/// result is a permutation of the input.
#[verifier::external_body]
pub(crate) fn shuffle_positions(v: &mut Vec<Position>)
    ensures
        final(v)@.to_multiset() == old(v)@.to_multiset(),
{
    v.shuffle(&mut rand::thread_rng());
}

/// Relies on `rand::seq::IteratorRandom::choose`: `None` exactly when the
/// iterator is empty, otherwise one of its items.
#[verifier::external_body]
pub(crate) fn choose_position(candidates: Vec<Position>) -> (r: Option<Position>)
    ensures
        r is None <==> candidates@.len() == 0,
        r matches Some(p) ==> candidates@.contains(p),
{
    candidates.into_iter().choose(&mut rand::thread_rng())
}

} // verus!
