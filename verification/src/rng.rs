//! Random draws for filling factory displays, behind trusted wrappers.
use vstd::prelude::*;

verus! {

use crate::tiles::Tile;

/// Relies on `rand::Rng::gen_range` over `0..n`: the draw is uniform over
/// that range, so the result is below `n`.  Nothing more is assumed of a
/// random value.
#[verifier::external_body]
pub(crate) fn rand_below(n: usize) -> (r: usize)
    requires
        n > 0,
    ensures
        r < n,
{
    rand::Rng::gen_range(&mut rand::thread_rng(), 0..n)
}

/// Relies on `rand::seq::SliceRandom::shuffle`: the slice is permuted in
/// place, so the tiles afterwards are the same multiset as before.
#[verifier::external_body]
pub(crate) fn shuffle_tiles(v: &mut Vec<Tile>)
    ensures
        final(v)@.to_multiset() == old(v)@.to_multiset(),
        final(v)@.len() == old(v)@.len(),
{
    rand::seq::SliceRandom::shuffle(v.as_mut_slice(), &mut rand::thread_rng());
}

} // verus!
