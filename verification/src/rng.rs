use vstd::prelude::*;

use crate::game::Tile;
use rand::seq::SliceRandom;
use rand::Rng;

verus! {

/// Relies on rand::Rng::gen_range over the range 0..n: it returns a uniform
/// draw from that range, which is non-empty because n > 0. Nothing beyond
/// membership in the range is promised of the draw.
#[verifier::external_body]
pub(crate) fn random_below(n: u32) -> (r: u32)
    requires
        n > 0,
    ensures
        r < n,
{
    rand::thread_rng().gen_range(0..n)
}

/// Relies on rand::seq::SliceRandom::shuffle: it reorders the slice in place
/// by swapping elements, so the multiset of elements (and hence the length)
/// is unchanged. The resulting order is random and nothing is promised of it.
#[verifier::external_body]
pub(crate) fn shuffle_tiles(v: &mut Vec<Tile>)
    ensures
        final(v)@.to_multiset() == old(v)@.to_multiset(),
        final(v)@.len() == old(v)@.len(),
{
    v.shuffle(&mut rand::thread_rng());
}

} // verus!
