//! The grid engine: a fixed-size buffer of tiles with four directional
//! moves, a deterministic seed pattern, and a no-moves-left test.

use vstd::prelude::*;

use crate::model::{all_valid, is_pow2, lemma_sum_bounded, sum_cells, valid_cell};
use crate::pass::{axis, pass_exec, perp, spec_move, spec_move_rec, spec_pass, Dir};

verus! {

/// Value of cell `i` in a freshly constructed grid: every third cell in
/// row-major order starts as a 2, the rest start empty.
pub open spec fn seed_cell(i: int) -> u32 {
    if i % 3 == 0 {
        2u32
    } else {
        0u32
    }
}

/// Cells `(r, c)` and `(r, c + 1)` hold equal values.
pub open spec fn h_pair_eq(s: Seq<u32>, w: int, r: int, c: int) -> bool {
    s[r * w + c] == s[r * w + c + 1]
}

/// Cells `(r, c)` and `(r + 1, c)` hold equal values.
pub open spec fn v_pair_eq(s: Seq<u32>, w: int, r: int, c: int) -> bool {
    s[r * w + c] == s[(r + 1) * w + c]
}

/// Some horizontally adjacent pair of cells holds equal values.
pub open spec fn has_h_pair(s: Seq<u32>, w: int, h: int) -> bool {
    exists|r: int, c: int| 0 <= r < h && 0 <= c < w - 1 && h_pair_eq(s, w, r, c)
}

/// Some vertically adjacent pair of cells holds equal values.
pub open spec fn has_v_pair(s: Seq<u32>, w: int, h: int) -> bool {
    exists|r: int, c: int| 0 <= r < h - 1 && 0 <= c < w && v_pair_eq(s, w, r, c)
}

/// Some cell is empty.
pub open spec fn has_empty(s: Seq<u32>) -> bool {
    exists|i: int| 0 <= i < s.len() && s[i] == 0
}

/// No empty cell and no axis-adjacent pair of equal values.
pub open spec fn spec_game_over(s: Seq<u32>, w: int, h: int) -> bool {
    !has_empty(s) && !has_h_pair(s, w, h) && !has_v_pair(s, w, h)
}

/// A fixed-size grid of tiles, stored row-major.
pub struct GameState {
    /// The tile values, row-major; 0 is an empty cell.
    pub cells: Vec<u32>,
    /// Number of columns, fixed at construction.
    pub width: u32,
    /// Number of rows, fixed at construction.
    pub height: u32,
}

impl GameState {
    /// The grid's invariant: positive extents, a buffer of exactly
    /// `width * height` cells, every cell empty or a positive power of two.
    pub open spec fn wf(self) -> bool {
        &&& 1 <= self.width
        &&& 1 <= self.height
        &&& (self.width as int) * (self.height as int) <= u32::MAX
        &&& self.cells@.len() == (self.width as int) * (self.height as int)
        &&& all_valid(self.cells@)
    }

    /// Constructs a grid with the deterministic seed pattern.
    pub fn new(width: u32, height: u32) -> (g: GameState)
        requires
            1 <= width,
            1 <= height,
            (width as int) * (height as int) <= u32::MAX,
        ensures
            g.wf(),
            g.width == width,
            g.height == height,
            forall|i: int| 0 <= i < g.cells@.len() ==> g.cells@[i] == seed_cell(i),
            sum_cells(g.cells@) <= 2 * (width as int) * (height as int),
    {
        let total: u32 = width * height;
        let mut cells: Vec<u32> = Vec::new();
        let mut i: u32 = 0;
        while i < total
            invariant
                i <= total,
                cells@.len() == i as int,
                forall|j: int| 0 <= j < i as int ==> cells@[j] == seed_cell(j),
            decreases total - i,
        {
            if i % 3 == 0 {
                cells.push(2u32);
            } else {
                cells.push(0u32);
            }
            i = i + 1;
        }
        proof {
            assert(is_pow2(2)) by {
                assert(is_pow2(1));
            }
            assert forall|j: int| 0 <= j < cells@.len() implies valid_cell(#[trigger] cells@[j]) by {
                assert(cells@[j] == seed_cell(j));
            }
            assert forall|j: int| 0 <= j < cells@.len() implies #[trigger] cells@[j] <= 2 by {
                assert(cells@[j] == seed_cell(j));
            }
            lemma_sum_bounded(cells@, 2);
            assert(2 * (cells@.len() as int) == 2 * (width as int) * (height as int))
                by (nonlinear_arith)
                requires
                    cells@.len() == (width as int) * (height as int);
        }
        GameState { cells, width, height }
    }

    /// Slides, merges and possibly spawns along `d`, repeating the pass to
    /// a fixed point; `first` marks an externally triggered move.
    fn apply_move(&mut self, d: Dir, first: bool)
        requires
            old(self).wf(),
            sum_cells(old(self).cells@) + 2 * perp(
                d,
                old(self).width as int,
                old(self).height as int,
            ) <= u32::MAX,
        ensures
            final(self).wf(),
            final(self).width == old(self).width,
            final(self).height == old(self).height,
            final(self).cells@ == spec_move(
                old(self).cells@,
                d,
                old(self).width as int,
                old(self).height as int,
                first,
            ),
    {
        let ghost orig = self.cells@;
        let ghost wi = self.width as int;
        let ghost hi = self.height as int;
        let ghost ax = axis(d, wi, hi);
        let mut sp: bool = first;
        let mut fuel: u32 = match d {
            Dir::Up | Dir::Down => self.height,
            Dir::Left | Dir::Right => self.width,
        };
        proof {
            assert(fuel as int == ax);
        }
        let mut done: bool = false;
        while !done && fuel > 0
            invariant
                self.width as int == wi,
                self.height as int == hi,
                1 <= wi,
                1 <= hi,
                wi * hi <= u32::MAX,
                orig.len() == wi * hi,
                self.cells@.len() == wi * hi,
                all_valid(self.cells@),
                sum_cells(orig) + 2 * perp(d, wi, hi) <= u32::MAX,
                sum_cells(self.cells@) <= sum_cells(orig) + 2 * perp(d, wi, hi),
                sp ==> self.cells@ == orig,
                sp ==> sum_cells(self.cells@) == sum_cells(orig),
                spec_move_rec(orig, d, wi, hi, first, ax as nat) == spec_move_rec(
                    self.cells@,
                    d,
                    wi,
                    hi,
                    sp,
                    fuel as nat,
                ),
                done ==> spec_move_rec(self.cells@, d, wi, hi, sp, fuel as nat) == self.cells@,
            decreases (if done {
                0int
            } else {
                1int
            }), fuel,
        {
            let next = pass_exec(&self.cells, d, self.width, self.height, sp);
            if vec_eq(&next, &self.cells) {
                proof {
                    assert(spec_move_rec(self.cells@, d, wi, hi, sp, fuel as nat) == self.cells@);
                }
                done = true;
            } else {
                proof {
                    crate::pass::lemma_pass(self.cells@, d, wi, hi, sp);
                    assert(spec_move_rec(self.cells@, d, wi, hi, sp, fuel as nat)
                        == spec_move_rec(next@, d, wi, hi, false, (fuel - 1) as nat));
                }
                self.cells = next;
                sp = false;
                fuel = fuel - 1;
            }
        }
    }

    /// Moves all tiles toward the top edge; with `first`, empty cells of
    /// the bottom row receive a fresh 2 on the first sweep.
    pub fn up(&mut self, first: bool)
        requires
            old(self).wf(),
            sum_cells(old(self).cells@) + 2 * (old(self).width as int) <= u32::MAX,
        ensures
            final(self).wf(),
            final(self).width == old(self).width,
            final(self).height == old(self).height,
            final(self).cells@ == spec_move(
                old(self).cells@,
                Dir::Up,
                old(self).width as int,
                old(self).height as int,
                first,
            ),
    {
        self.apply_move(Dir::Up, first)
    }

    /// Moves all tiles toward the bottom edge; with `first`, empty cells of
    /// the top row receive a fresh 2 on the first sweep.
    pub fn down(&mut self, first: bool)
        requires
            old(self).wf(),
            sum_cells(old(self).cells@) + 2 * (old(self).width as int) <= u32::MAX,
        ensures
            final(self).wf(),
            final(self).width == old(self).width,
            final(self).height == old(self).height,
            final(self).cells@ == spec_move(
                old(self).cells@,
                Dir::Down,
                old(self).width as int,
                old(self).height as int,
                first,
            ),
    {
        self.apply_move(Dir::Down, first)
    }

    /// Moves all tiles toward the left edge; with `first`, empty cells of
    /// the rightmost column receive a fresh 2 on the first sweep.
    pub fn left(&mut self, first: bool)
        requires
            old(self).wf(),
            sum_cells(old(self).cells@) + 2 * (old(self).height as int) <= u32::MAX,
        ensures
            final(self).wf(),
            final(self).width == old(self).width,
            final(self).height == old(self).height,
            final(self).cells@ == spec_move(
                old(self).cells@,
                Dir::Left,
                old(self).width as int,
                old(self).height as int,
                first,
            ),
    {
        self.apply_move(Dir::Left, first)
    }

    /// Moves all tiles toward the right edge; with `first`, empty cells of
    /// the leftmost column receive a fresh 2 on the first sweep.
    pub fn right(&mut self, first: bool)
        requires
            old(self).wf(),
            sum_cells(old(self).cells@) + 2 * (old(self).height as int) <= u32::MAX,
        ensures
            final(self).wf(),
            final(self).width == old(self).width,
            final(self).height == old(self).height,
            final(self).cells@ == spec_move(
                old(self).cells@,
                Dir::Right,
                old(self).width as int,
                old(self).height as int,
                first,
            ),
    {
        self.apply_move(Dir::Right, first)
    }

    /// True exactly when the grid is full and no two axis-adjacent cells
    /// hold equal values.
    pub fn check_game_over(&mut self) -> (r: bool)
        requires
            old(self).wf(),
        ensures
            *final(self) == *old(self),
            r == spec_game_over(
                old(self).cells@,
                old(self).width as int,
                old(self).height as int,
            ),
    {
        let w: u32 = self.width;
        let h: u32 = self.height;
        let ghost s = self.cells@;
        let ghost wi = w as int;
        let ghost hi = h as int;
        let mut flag: bool = false;
        let mut row: u32 = 0;
        while row < h
            invariant
                row <= h,
                wi == w as int,
                hi == h as int,
                1 <= wi,
                1 <= hi,
                wi * hi <= u32::MAX,
                s.len() == wi * hi,
                self.cells@ == s,
                self.width == w,
                self.height == h,
                flag == exists|r2: int, c2: int|
                    0 <= r2 < row as int && 0 <= c2 < wi - 1 && h_pair_eq(s, wi, r2, c2),
            decreases h - row,
        {
            let mut col: u32 = 0;
            while col + 1 < w
                invariant
                    col < w,
                    row < h,
                    wi == w as int,
                    hi == h as int,
                    1 <= wi,
                    1 <= hi,
                    wi * hi <= u32::MAX,
                    s.len() == wi * hi,
                    self.cells@ == s,
                    self.width == w,
                    self.height == h,
                    flag == ((exists|r2: int, c2: int|
                        0 <= r2 < row as int && 0 <= c2 < wi - 1 && h_pair_eq(s, wi, r2, c2))
                        || (exists|c2: int|
                        0 <= c2 < col as int && h_pair_eq(s, wi, row as int, c2))),
                decreases w - col,
            {
                proof {
                    assert(row as int * wi + col as int + 1 < wi * hi) by (nonlinear_arith)
                        requires
                            0 <= row as int,
                            (row as int) < hi,
                            0 <= col as int,
                            col as int + 1 < wi,
                            1 <= wi;
                }
                let idx: u32 = row * w + col;
                if self.cells[idx as usize] == self.cells[(idx + 1) as usize] {
                    proof {
                        assert(h_pair_eq(s, wi, row as int, col as int));
                    }
                    flag = true;
                }
                col = col + 1;
            }
            row = row + 1;
        }
        proof {
            assert(flag == has_h_pair(s, wi, hi));
        }
        let flag_h: bool = flag;
        let mut flag_v: bool = false;
        let mut vrow: u32 = 0;
        while vrow + 1 < h
            invariant
                vrow < h,
                wi == w as int,
                hi == h as int,
                1 <= wi,
                1 <= hi,
                wi * hi <= u32::MAX,
                s.len() == wi * hi,
                self.cells@ == s,
                self.width == w,
                self.height == h,
                flag_v == exists|r2: int, c2: int|
                    0 <= r2 < vrow as int && 0 <= c2 < wi && v_pair_eq(s, wi, r2, c2),
            decreases h - vrow,
        {
            let mut col: u32 = 0;
            while col < w
                invariant
                    col <= w,
                    vrow as int + 1 < hi,
                    wi == w as int,
                    hi == h as int,
                    1 <= wi,
                    1 <= hi,
                    wi * hi <= u32::MAX,
                    s.len() == wi * hi,
                    self.cells@ == s,
                    self.width == w,
                    self.height == h,
                    flag_v == ((exists|r2: int, c2: int|
                        0 <= r2 < vrow as int && 0 <= c2 < wi && v_pair_eq(s, wi, r2, c2))
                        || (exists|c2: int|
                        0 <= c2 < col as int && v_pair_eq(s, wi, vrow as int, c2))),
                decreases w - col,
            {
                proof {
                    assert((vrow as int + 1) * wi + (col as int) < wi * hi) by (nonlinear_arith)
                        requires
                            0 <= vrow as int,
                            vrow as int + 1 < hi,
                            0 <= col as int,
                            (col as int) < wi,
                            1 <= wi;
                    assert(vrow as int * wi + (col as int) < (vrow as int + 1) * wi + col as int)
                        by (nonlinear_arith)
                        requires
                            1 <= wi,
                            0 <= vrow as int;
                    assert(vrow as int * wi + wi == (vrow as int + 1) * wi) by (nonlinear_arith);
                }
                let idx: u32 = vrow * w + col;
                if self.cells[idx as usize] == self.cells[(idx + w) as usize] {
                    proof {
                        assert(v_pair_eq(s, wi, vrow as int, col as int));
                    }
                    flag_v = true;
                }
                col = col + 1;
            }
            vrow = vrow + 1;
        }
        proof {
            assert(flag_v == has_v_pair(s, wi, hi));
        }
        let mut empty: bool = false;
        let n: usize = self.cells.len();
        let mut i: usize = 0;
        while i < n
            invariant
                i <= n,
                n == s.len(),
                self.cells@ == s,
                self.width == w,
                self.height == h,
                empty == exists|j: int| 0 <= j < i as int && s[j] == 0,
            decreases n - i,
        {
            if self.cells[i] == 0 {
                empty = true;
            }
            i = i + 1;
        }
        proof {
            assert(empty == has_empty(s));
        }
        !(empty || flag_h || flag_v)
    }
}

/// The two buffers hold the same cells.
fn vec_eq(x: &Vec<u32>, y: &Vec<u32>) -> (r: bool)
    ensures
        r == (x@ == y@),
{
    if x.len() != y.len() {
        return false;
    }
    let n: usize = x.len();
    let mut i: usize = 0;
    while i < n
        invariant
            i <= n,
            n == x@.len(),
            x@.len() == y@.len(),
            forall|j: int| 0 <= j < i as int ==> x@[j] == y@[j],
        decreases n - i,
    {
        if x[i] != y[i] {
            return false;
        }
        i = i + 1;
    }
    proof {
        assert(x@ =~= y@);
    }
    true
}

} // verus!
