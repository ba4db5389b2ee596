//! One compaction pass along a direction, and its fixed-point iteration.
//!
//! A pass walks the grid from the boundary farthest from the target edge
//! toward that edge. At each step it looks at a current cell and its
//! neighbour toward the target: it slides the current value into an empty
//! neighbour, merges two equal values into their double, and, on the very
//! first sweep of an externally triggered move, seeds empty cells of the
//! trailing boundary with a fresh tile of value 2. A move repeats the pass
//! until the grid stops changing, capped by the extent of the move axis.

use vstd::prelude::*;

use crate::model::{
    all_valid, count_tiles, is_pow2, lemma_count_update, lemma_pair_le_sum, lemma_pow2_double,
    lemma_sum_update, sum_cells, valid_cell,
};

verus! {

/// The four move directions.
#[derive(Clone, Copy)]
pub enum Dir {
    Up,
    Down,
    Left,
    Right,
}

/// Cells visited at each step along one lane (extent of the move axis minus one).
pub open spec fn lane_steps(d: Dir, w: int, h: int) -> int {
    match d {
        Dir::Up => h - 1,
        Dir::Down => h - 1,
        Dir::Left => w - 1,
        Dir::Right => w - 1,
    }
}

/// Number of independent lanes (extent of the perpendicular axis).
pub open spec fn perp(d: Dir, w: int, h: int) -> int {
    match d {
        Dir::Up => w,
        Dir::Down => w,
        Dir::Left => h,
        Dir::Right => h,
    }
}

/// Extent of the move axis: the cap on committed passes per move.
pub open spec fn axis(d: Dir, w: int, h: int) -> int {
    match d {
        Dir::Up => h,
        Dir::Down => h,
        Dir::Left => w,
        Dir::Right => w,
    }
}

/// Total number of cell-pair steps in one pass.
pub open spec fn step_count(d: Dir, w: int, h: int) -> int {
    lane_steps(d, w, h) * perp(d, w, h)
}

/// Index of the current cell at step `k` (row-major, stride `w`).
pub open spec fn idx_cur(d: Dir, w: int, h: int, k: int) -> int {
    let j = k / perp(d, w, h);
    let off = k % perp(d, w, h);
    match d {
        Dir::Up => (h - 1 - j) * w + off,
        Dir::Down => j * w + off,
        Dir::Left => off * w + (w - 1 - j),
        Dir::Right => off * w + j,
    }
}

/// Index of the neighbour toward the target edge at step `k`.
pub open spec fn idx_to(d: Dir, w: int, h: int, k: int) -> int {
    match d {
        Dir::Up => idx_cur(d, w, h, k) - w,
        Dir::Down => idx_cur(d, w, h, k) + w,
        Dir::Left => idx_cur(d, w, h, k) - 1,
        Dir::Right => idx_cur(d, w, h, k) + 1,
    }
}

/// Step `k` touches the trailing boundary, where a fresh tile may spawn.
pub open spec fn is_spawn_step(d: Dir, w: int, h: int, k: int) -> bool {
    k < perp(d, w, h)
}

/// One compare-and-move step on the pair (current `b`, neighbour `a`):
/// slide into an empty neighbour, then merge equal values, then spawn a
/// 2 into an empty trailing-boundary cell when `sp` holds.
pub open spec fn apply_step(s: Seq<u32>, b: int, a: int, sp: bool) -> Seq<u32> {
    let s1 = if s[a] == 0 {
        s.update(a, s[b]).update(b, 0u32)
    } else {
        s
    };
    let s2 = if s1[b] == s1[a] {
        s1.update(a, (2 * s1[a]) as u32).update(b, 0u32)
    } else {
        s1
    };
    if s2[b] == 0 && sp {
        s2.update(b, 2u32)
    } else {
        s2
    }
}

/// Whether one step spawns a tile: the current cell is empty after the
/// slide and the merge, and the step may spawn.
pub open spec fn step_spawns(s: Seq<u32>, b: int, a: int, sp: bool) -> bool {
    let s1 = if s[a] == 0 {
        s.update(a, s[b]).update(b, 0u32)
    } else {
        s
    };
    let s2 = if s1[b] == s1[a] {
        s1.update(a, (2 * s1[a]) as u32).update(b, 0u32)
    } else {
        s1
    };
    s2[b] == 0 && sp
}

/// The buffer after the first `k` steps of one pass.
pub open spec fn pass_steps(s: Seq<u32>, d: Dir, w: int, h: int, sp: bool, k: int) -> Seq<u32>
    decreases k,
{
    if k <= 0 {
        s
    } else {
        let t = pass_steps(s, d, w, h, sp, k - 1);
        apply_step(t, idx_cur(d, w, h, k - 1), idx_to(d, w, h, k - 1), sp && is_spawn_step(
            d,
            w,
            h,
            k - 1,
        ))
    }
}

/// One full pass over the grid.
pub open spec fn spec_pass(s: Seq<u32>, d: Dir, w: int, h: int, sp: bool) -> Seq<u32> {
    pass_steps(s, d, w, h, sp, step_count(d, w, h))
}

/// Repeated passes until the grid stops changing, with at most `fuel`
/// committed passes; only the first pass may spawn.
pub open spec fn spec_move_rec(s: Seq<u32>, d: Dir, w: int, h: int, sp: bool, fuel: nat) -> Seq<
    u32,
>
    decreases fuel,
{
    if fuel == 0 {
        s
    } else {
        let t = spec_pass(s, d, w, h, sp);
        if t == s {
            s
        } else {
            spec_move_rec(t, d, w, h, false, (fuel - 1) as nat)
        }
    }
}

/// The grid after a whole move: passes repeat to a fixed point, capped by
/// the extent of the move axis; `first` marks an externally triggered move.
pub open spec fn spec_move(s: Seq<u32>, d: Dir, w: int, h: int, first: bool) -> Seq<u32> {
    spec_move_rec(s, d, w, h, first, axis(d, w, h) as nat)
}

/// Number of tiles spawned during the first `k` steps of a pass.
pub open spec fn spawn_count(s: Seq<u32>, d: Dir, w: int, h: int, sp: bool, k: int) -> int
    decreases k,
{
    if k <= 0 {
        0
    } else {
        spawn_count(s, d, w, h, sp, k - 1) + if step_spawns(
            pass_steps(s, d, w, h, sp, k - 1),
            idx_cur(d, w, h, k - 1),
            idx_to(d, w, h, k - 1),
            sp && is_spawn_step(d, w, h, k - 1),
        ) {
            1int
        } else {
            0int
        }
    }
}

/// Number of spawn-capable steps among the first `k` of a pass.
pub open spec fn spawn_budget(d: Dir, w: int, h: int, sp: bool, k: int) -> int {
    if !sp {
        0
    } else if k <= perp(d, w, h) {
        k
    } else {
        perp(d, w, h)
    }
}

/// Both indices of step `k` lie inside the grid and are distinct.
pub proof fn lemma_step_indices(d: Dir, w: int, h: int, k: int)
    requires
        1 <= w,
        1 <= h,
        0 <= k < step_count(d, w, h),
    ensures
        0 <= idx_cur(d, w, h, k) < w * h,
        0 <= idx_to(d, w, h, k) < w * h,
        idx_cur(d, w, h, k) != idx_to(d, w, h, k),
        0 <= k / perp(d, w, h) < lane_steps(d, w, h),
        0 <= k % perp(d, w, h) < perp(d, w, h),
{
    let p = perp(d, w, h);
    let l = lane_steps(d, w, h);
    let j = k / p;
    let off = k % p;
    assert(0 <= off < p) by (nonlinear_arith)
        requires 1 <= p, 0 <= k, off == k % p;
    assert(0 <= j < l) by (nonlinear_arith)
        requires 1 <= p, 0 <= k, k < l * p, j == k / p;
    match d {
        Dir::Up => {
            assert(1 <= h - 1 - j <= h - 1);
            assert(0 <= (h - 1 - j) * w + off < w * h) by (nonlinear_arith)
                requires 1 <= h - 1 - j <= h - 1, 0 <= off < w;
            assert(0 <= (h - 2 - j) * w + off < w * h) by (nonlinear_arith)
                requires 1 <= h - 1 - j <= h - 1, 0 <= off < w;
            assert((h - 1 - j) * w - w == (h - 2 - j) * w) by (nonlinear_arith);
        },
        Dir::Down => {
            assert(0 <= j <= h - 2);
            assert(0 <= j * w + off < w * h) by (nonlinear_arith)
                requires 0 <= j <= h - 2, 0 <= off < w, 1 <= h;
            assert(0 <= (j + 1) * w + off < w * h) by (nonlinear_arith)
                requires 0 <= j <= h - 2, 0 <= off < w;
            assert(j * w + w == (j + 1) * w) by (nonlinear_arith);
        },
        Dir::Left => {
            assert(1 <= w - 1 - j <= w - 1);
            assert(0 <= off * w + (w - 1 - j) < w * h) by (nonlinear_arith)
                requires 0 <= off < h, 1 <= w - 1 - j <= w - 1;
        },
        Dir::Right => {
            assert(0 <= j <= w - 2);
            assert(0 <= off * w + j + 1 < w * h) by (nonlinear_arith)
                requires 0 <= off < h, 0 <= j <= w - 2;
        },
    }
}

/// What one step does to validity, mass and tile count: values stay powers
/// of two, mass grows only by a spawned 2, the count only by a spawned tile.
pub proof fn lemma_apply_step(s: Seq<u32>, b: int, a: int, sp: bool)
    requires
        0 <= a < s.len(),
        0 <= b < s.len(),
        a != b,
        all_valid(s),
        sum_cells(s) <= u32::MAX,
    ensures
        apply_step(s, b, a, sp).len() == s.len(),
        all_valid(apply_step(s, b, a, sp)),
        sum_cells(apply_step(s, b, a, sp)) == sum_cells(s) + if step_spawns(s, b, a, sp) {
            2int
        } else {
            0int
        },
        count_tiles(apply_step(s, b, a, sp)) <= count_tiles(s) + if sp {
            1int
        } else {
            0int
        },
{
    let s1 = if s[a] == 0 {
        s.update(a, s[b]).update(b, 0u32)
    } else {
        s
    };
    if s[a] == 0 {
        lemma_sum_update(s, a, s[b]);
        lemma_sum_update(s.update(a, s[b]), b, 0);
        lemma_count_update(s, a, s[b]);
        lemma_count_update(s.update(a, s[b]), b, 0);
    }
    assert(sum_cells(s1) == sum_cells(s));
    assert(count_tiles(s1) <= count_tiles(s));
    assert(all_valid(s1));
    let v = s1[a];
    let s2 = if s1[b] == s1[a] {
        s1.update(a, (2 * v) as u32).update(b, 0u32)
    } else {
        s1
    };
    if s1[b] == s1[a] {
        lemma_pair_le_sum(s1, a, b);
        assert(2 * v <= sum_cells(s1));
        assert((2 * v) as u32 == 2 * v);
        if v != 0 {
            lemma_pow2_double(v as nat);
        }
        lemma_sum_update(s1, a, (2 * v) as u32);
        lemma_sum_update(s1.update(a, (2 * v) as u32), b, 0);
        lemma_count_update(s1, a, (2 * v) as u32);
        lemma_count_update(s1.update(a, (2 * v) as u32), b, 0);
    }
    assert(sum_cells(s2) == sum_cells(s));
    assert(count_tiles(s2) <= count_tiles(s));
    assert(all_valid(s2));
    if s2[b] == 0 && sp {
        assert(is_pow2(2)) by {
            assert(is_pow2(1));
        }
        lemma_sum_update(s2, b, 2);
        lemma_count_update(s2, b, 2);
    }
}

/// The step facts, lifted over the first `k` steps of a pass.
pub proof fn lemma_pass_steps(s: Seq<u32>, d: Dir, w: int, h: int, sp: bool, k: int)
    requires
        1 <= w,
        1 <= h,
        s.len() == w * h,
        all_valid(s),
        sum_cells(s) + 2 * spawn_budget(d, w, h, sp, step_count(d, w, h)) <= u32::MAX,
        0 <= k <= step_count(d, w, h),
    ensures
        pass_steps(s, d, w, h, sp, k).len() == s.len(),
        all_valid(pass_steps(s, d, w, h, sp, k)),
        0 <= spawn_count(s, d, w, h, sp, k) <= spawn_budget(d, w, h, sp, k),
        sum_cells(pass_steps(s, d, w, h, sp, k)) == sum_cells(s) + 2 * spawn_count(
            s,
            d,
            w,
            h,
            sp,
            k,
        ),
        count_tiles(pass_steps(s, d, w, h, sp, k)) <= count_tiles(s) + spawn_budget(
            d,
            w,
            h,
            sp,
            k,
        ),
    decreases k,
{
    if k > 0 {
        lemma_pass_steps(s, d, w, h, sp, k - 1);
        let t = pass_steps(s, d, w, h, sp, k - 1);
        lemma_step_indices(d, w, h, k - 1);
        lemma_apply_step(t, idx_cur(d, w, h, k - 1), idx_to(d, w, h, k - 1), sp && is_spawn_step(
            d,
            w,
            h,
            k - 1,
        ));
    }
}

/// The step facts, lifted over a whole pass.
pub proof fn lemma_pass(s: Seq<u32>, d: Dir, w: int, h: int, sp: bool)
    requires
        1 <= w,
        1 <= h,
        s.len() == w * h,
        all_valid(s),
        sum_cells(s) + (if sp {
            2 * perp(d, w, h)
        } else {
            0int
        }) <= u32::MAX,
    ensures
        spec_pass(s, d, w, h, sp).len() == s.len(),
        all_valid(spec_pass(s, d, w, h, sp)),
        0 <= spawn_count(s, d, w, h, sp, step_count(d, w, h)) <= if sp {
            perp(d, w, h)
        } else {
            0int
        },
        sum_cells(spec_pass(s, d, w, h, sp)) == sum_cells(s) + 2 * spawn_count(
            s,
            d,
            w,
            h,
            sp,
            step_count(d, w, h),
        ),
        sum_cells(s) <= sum_cells(spec_pass(s, d, w, h, sp)) <= sum_cells(s) + if sp {
            2 * perp(d, w, h)
        } else {
            0int
        },
        count_tiles(spec_pass(s, d, w, h, sp)) <= count_tiles(s) + if sp {
            perp(d, w, h)
        } else {
            0int
        },
{
    let kk = step_count(d, w, h);
    assert(0 <= kk) by (nonlinear_arith)
        requires kk == lane_steps(d, w, h) * perp(d, w, h), 0 <= lane_steps(d, w, h), 0 <= perp(
            d,
            w,
            h,
        );
    assert(spawn_budget(d, w, h, sp, kk) <= if sp {
        perp(d, w, h)
    } else {
        0int
    });
    lemma_pass_steps(s, d, w, h, sp, kk);
}

/// The pass facts, lifted over the fixed-point iteration of a whole move.
pub proof fn lemma_move_rec(s: Seq<u32>, d: Dir, w: int, h: int, sp: bool, fuel: nat)
    requires
        1 <= w,
        1 <= h,
        s.len() == w * h,
        all_valid(s),
        sum_cells(s) + (if sp {
            2 * perp(d, w, h)
        } else {
            0int
        }) <= u32::MAX,
    ensures
        spec_move_rec(s, d, w, h, sp, fuel).len() == s.len(),
        all_valid(spec_move_rec(s, d, w, h, sp, fuel)),
        sum_cells(s) <= sum_cells(spec_move_rec(s, d, w, h, sp, fuel)) <= sum_cells(s) + if sp {
            2 * perp(d, w, h)
        } else {
            0int
        },
        count_tiles(spec_move_rec(s, d, w, h, sp, fuel)) <= count_tiles(s) + if sp {
            perp(d, w, h)
        } else {
            0int
        },
    decreases fuel,
{
    if fuel > 0 {
        lemma_pass(s, d, w, h, sp);
        let t = spec_pass(s, d, w, h, sp);
        if t != s {
            lemma_move_rec(t, d, w, h, false, (fuel - 1) as nat);
        }
    }
}

/// One executable compare-and-move step on the pair (current `b`,
/// neighbour `a`), exactly as `apply_step` describes it.
fn step_exec(r: &mut Vec<u32>, b: usize, a: usize, sp: bool)
    requires
        a < old(r).len(),
        b < old(r).len(),
        a != b,
        sum_cells(old(r)@) + (if sp {
            2int
        } else {
            0int
        }) <= u32::MAX,
    ensures
        final(r)@ == apply_step(old(r)@, b as int, a as int, sp),
{
    let ghost s0 = r@;
    if r[a] == 0 {
        let moved = r[b];
        r.set(a, moved);
        r.set(b, 0u32);
    }
    let ghost s1 = r@;
    proof {
        if s0[a as int] == 0 {
            lemma_sum_update(s0, a as int, s0[b as int]);
            lemma_sum_update(s0.update(a as int, s0[b as int]), b as int, 0);
        }
        assert(sum_cells(s1) == sum_cells(s0));
    }
    let to_val = r[a];
    let cur_val = r[b];
    if cur_val == to_val {
        proof {
            lemma_pair_le_sum(s1, a as int, b as int);
        }
        r.set(a, 2 * to_val);
        r.set(b, 0u32);
    }
    if r[b] == 0 && sp {
        r.set(b, 2u32);
    }
    assert(r@ == apply_step(s0, b as int, a as int, sp));
}

/// One executable pass over the grid, exactly as `spec_pass` describes it.
pub(crate) fn pass_exec(cells: &Vec<u32>, d: Dir, w: u32, h: u32, sp: bool) -> (r: Vec<u32>)
    requires
        1 <= w,
        1 <= h,
        (w as int) * (h as int) <= u32::MAX,
        cells@.len() == (w as int) * (h as int),
        all_valid(cells@),
        sum_cells(cells@) + (if sp {
            2 * perp(d, w as int, h as int)
        } else {
            0int
        }) <= u32::MAX,
    ensures
        r@ == spec_pass(cells@, d, w as int, h as int, sp),
{
    let ghost s0 = cells@;
    let ghost wi = w as int;
    let ghost hi = h as int;
    let mut r: Vec<u32> = Vec::new();
    let n: usize = cells.len();
    let mut i: usize = 0;
    while i < n
        invariant
            i <= n,
            n == s0.len(),
            cells@ == s0,
            r@ == s0.subrange(0, i as int),
        decreases n - i,
    {
        r.push(cells[i]);
        proof {
            assert(s0.subrange(0, i + 1) =~= s0.subrange(0, i as int).push(s0[i as int]));
        }
        i = i + 1;
    }
    proof {
        assert(r@ =~= s0);
    }
    let p: u32 = match d {
        Dir::Up | Dir::Down => w,
        Dir::Left | Dir::Right => h,
    };
    let lanes: u32 = match d {
        Dir::Up | Dir::Down => h - 1,
        Dir::Left | Dir::Right => w - 1,
    };
    proof {
        assert(p as int == perp(d, wi, hi));
        assert(lanes as int == lane_steps(d, wi, hi));
        assert((hi - 1) * wi <= wi * hi) by (nonlinear_arith)
            requires 1 <= wi, 1 <= hi;
        assert((wi - 1) * hi <= wi * hi) by (nonlinear_arith)
            requires 1 <= wi, 1 <= hi;
        assert(lanes as int * p as int <= wi * hi);
    }
    let total: u32 = lanes * p;
    let mut k: u32 = 0;
    while k < total
        invariant
            k <= total,
            1 <= w,
            1 <= h,
            wi == w as int,
            hi == h as int,
            wi * hi <= u32::MAX,
            s0.len() == wi * hi,
            all_valid(s0),
            sum_cells(s0) + (if sp {
                2 * perp(d, wi, hi)
            } else {
                0int
            }) <= u32::MAX,
            p as int == perp(d, wi, hi),
            total as int == step_count(d, wi, hi),
            r@ == pass_steps(s0, d, wi, hi, sp, k as int),
        decreases total - k,
    {
        proof {
            lemma_pass_steps(s0, d, wi, hi, sp, k as int);
            lemma_step_indices(d, wi, hi, k as int);
        }
        let j: u32 = k / p;
        let off: u32 = k % p;
        let b: u32 = match d {
            Dir::Up => (h - 1 - j) * w + off,
            Dir::Down => j * w + off,
            Dir::Left => off * w + (w - 1 - j),
            Dir::Right => off * w + j,
        };
        let a: u32 = match d {
            Dir::Up => b - w,
            Dir::Down => b + w,
            Dir::Left => b - 1,
            Dir::Right => b + 1,
        };
        proof {
            assert(b as int == idx_cur(d, wi, hi, k as int));
            assert(a as int == idx_to(d, wi, hi, k as int));
        }
        let sp_here: bool = sp && k < p;
        proof {
            assert(sp_here == (sp && is_spawn_step(d, wi, hi, k as int)));
            assert(spawn_budget(d, wi, hi, sp, k as int) <= if sp {
                perp(d, wi, hi)
            } else {
                0int
            });
            if sp_here {
                assert(spawn_budget(d, wi, hi, sp, k as int) == k as int);
                assert(k as int + 1 <= perp(d, wi, hi));
            }
        }
        step_exec(&mut r, b as usize, a as usize, sp_here);
        proof {
            assert(r@ == pass_steps(s0, d, wi, hi, sp, k as int + 1));
        }
        k = k + 1;
    }
    r
}

/// The pass facts, at the public entry of a move.
pub proof fn lemma_move(s: Seq<u32>, d: Dir, w: int, h: int, first: bool)
    requires
        1 <= w,
        1 <= h,
        s.len() == w * h,
        all_valid(s),
        sum_cells(s) + 2 * perp(d, w, h) <= u32::MAX,
    ensures
        spec_move(s, d, w, h, first).len() == s.len(),
        all_valid(spec_move(s, d, w, h, first)),
        sum_cells(s) <= sum_cells(spec_move(s, d, w, h, first)) <= sum_cells(s) + if first {
            2 * perp(d, w, h)
        } else {
            0int
        },
        count_tiles(spec_move(s, d, w, h, first)) <= count_tiles(s) + if first {
            perp(d, w, h)
        } else {
            0int
        },
{
    lemma_move_rec(s, d, w, h, first, axis(d, w, h) as nat);
}

} // verus!
