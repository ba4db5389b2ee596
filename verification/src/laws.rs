//! Laws of the move operations, stated over the specification functions
//! that the public contracts use.

use vstd::prelude::*;

use crate::model::{all_valid, count_tiles, sum_cells};
use crate::pass::{
    axis, lemma_move, lemma_move_rec, lemma_pass, perp, spawn_count, spec_move, spec_move_rec,
    spec_pass, step_count, Dir,
};

verus! {

/// Idempotence at a fixed point: when one pass (spawn included) leaves the
/// grid unchanged, the whole move leaves it unchanged, and so does calling
/// the same move again — in particular no tile spawns on either call.
pub proof fn lemma_move_fixed_point(s: Seq<u32>, d: Dir, w: int, h: int, first: bool)
    requires
        1 <= w,
        1 <= h,
        spec_pass(s, d, w, h, first) == s,
    ensures
        spec_move(s, d, w, h, first) == s,
        spec_move(spec_move(s, d, w, h, first), d, w, h, first) == s,
{
    assert(axis(d, w, h) >= 1);
}

/// Tile count never grows past the spawns: a move without spawning never
/// increases the number of occupied cells, and an externally triggered
/// move adds at most one tile per cell of the trailing boundary.
pub proof fn lemma_move_tile_count(s: Seq<u32>, d: Dir, w: int, h: int, first: bool)
    requires
        1 <= w,
        1 <= h,
        s.len() == w * h,
        all_valid(s),
        sum_cells(s) + 2 * perp(d, w, h) <= u32::MAX,
    ensures
        count_tiles(spec_move(s, d, w, h, first)) <= count_tiles(s) + if first {
            perp(d, w, h)
        } else {
            0int
        },
{
    lemma_move(s, d, w, h, first);
}

/// Conservation of mass: sliding and merging preserve the sum of all cell
/// values exactly — two tiles of value v merge into one of value 2v — so a
/// move changes the sum by exactly 2 per tile spawned on its first pass:
/// not at all when nothing spawns, and by at most 2 per trailing cell.
pub proof fn lemma_move_mass(s: Seq<u32>, d: Dir, w: int, h: int, first: bool)
    requires
        1 <= w,
        1 <= h,
        s.len() == w * h,
        all_valid(s),
        sum_cells(s) + 2 * perp(d, w, h) <= u32::MAX,
    ensures
        spec_pass(s, d, w, h, first) == s ==> sum_cells(spec_move(s, d, w, h, first))
            == sum_cells(s),
        spec_pass(s, d, w, h, first) != s ==> sum_cells(spec_move(s, d, w, h, first))
            == sum_cells(s) + 2 * spawn_count(s, d, w, h, first, step_count(d, w, h)),
        !first ==> sum_cells(spec_move(s, d, w, h, first)) == sum_cells(s),
        sum_cells(s) <= sum_cells(spec_move(s, d, w, h, first)) <= sum_cells(s) + 2 * perp(
            d,
            w,
            h,
        ),
{
    lemma_move(s, d, w, h, first);
    lemma_pass(s, d, w, h, first);
    let ax = axis(d, w, h) as nat;
    assert(ax >= 1);
    let t = spec_pass(s, d, w, h, first);
    if t != s {
        assert(spec_move(s, d, w, h, first) == spec_move_rec(t, d, w, h, false, (ax - 1) as nat));
        lemma_move_rec(t, d, w, h, false, (ax - 1) as nat);
    }
}

} // verus!
