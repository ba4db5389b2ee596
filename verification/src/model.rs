//! Mathematical model of the cell buffer: which values a cell may hold,
//! the total mass of a grid, and the number of occupied tiles.

use vstd::prelude::*;

verus! {

/// `n` is a positive power of two.
pub open spec fn is_pow2(n: nat) -> bool
    decreases n,
{
    if n == 0 {
        false
    } else if n == 1 {
        true
    } else {
        n % 2 == 0 && is_pow2(n / 2)
    }
}

/// A cell is empty or holds a positive power of two.
pub open spec fn valid_cell(v: u32) -> bool {
    v == 0 || is_pow2(v as nat)
}

/// Every cell of the buffer is valid.
pub open spec fn all_valid(s: Seq<u32>) -> bool {
    forall|i: int| 0 <= i < s.len() ==> valid_cell(#[trigger] s[i])
}

/// Total mass: the sum of all cell values.
pub open spec fn sum_cells(s: Seq<u32>) -> int
    decreases s.len(),
{
    if s.len() == 0 {
        0
    } else {
        sum_cells(s.drop_last()) + s.last()
    }
}

/// Number of occupied (non-zero) cells.
pub open spec fn count_tiles(s: Seq<u32>) -> int
    decreases s.len(),
{
    if s.len() == 0 {
        0
    } else {
        count_tiles(s.drop_last()) + if s.last() == 0 {
            0int
        } else {
            1int
        }
    }
}

/// Doubling keeps a value a positive power of two.
pub proof fn lemma_pow2_double(n: nat)
    requires
        is_pow2(n),
    ensures
        is_pow2(2 * n),
{
    assert((2 * n) % 2 == 0);
    assert((2 * n) / 2 == n);
}

/// The mass of a buffer is never negative.
pub proof fn lemma_sum_nonneg(s: Seq<u32>)
    ensures
        0 <= sum_cells(s),
    decreases s.len(),
{
    if s.len() > 0 {
        lemma_sum_nonneg(s.drop_last());
    }
}

/// A pointwise bound on the cells bounds the mass by `bound` per cell.
pub proof fn lemma_sum_bounded(s: Seq<u32>, bound: int)
    requires
        forall|i: int| 0 <= i < s.len() ==> #[trigger] s[i] <= bound,
    ensures
        sum_cells(s) <= bound * s.len(),
    decreases s.len(),
{
    if s.len() == 0 {
        assert(bound * 0 == 0) by (nonlinear_arith);
    } else {
        lemma_sum_bounded(s.drop_last(), bound);
        assert(bound * (s.len() - 1) + bound == bound * s.len()) by (nonlinear_arith);
    }
}

/// Overwriting one cell changes the mass by the difference of the values.
pub proof fn lemma_sum_update(s: Seq<u32>, i: int, v: u32)
    requires
        0 <= i < s.len(),
    ensures
        sum_cells(s.update(i, v)) == sum_cells(s) - s[i] + v,
    decreases s.len(),
{
    let t = s.update(i, v);
    if i == s.len() - 1 {
        assert(t.drop_last() =~= s.drop_last());
    } else {
        assert(t.drop_last() =~= s.drop_last().update(i, v));
        lemma_sum_update(s.drop_last(), i, v);
    }
}

/// Overwriting one cell changes the tile count by at most one.
pub proof fn lemma_count_update(s: Seq<u32>, i: int, v: u32)
    requires
        0 <= i < s.len(),
    ensures
        count_tiles(s.update(i, v)) == count_tiles(s) - (if s[i] == 0 {
            0int
        } else {
            1int
        }) + (if v == 0 {
            0int
        } else {
            1int
        }),
    decreases s.len(),
{
    let t = s.update(i, v);
    if i == s.len() - 1 {
        assert(t.drop_last() =~= s.drop_last());
    } else {
        assert(t.drop_last() =~= s.drop_last().update(i, v));
        lemma_count_update(s.drop_last(), i, v);
    }
}

/// One cell's value never exceeds the total mass.
pub proof fn lemma_elem_le_sum(s: Seq<u32>, i: int)
    requires
        0 <= i < s.len(),
    ensures
        s[i] <= sum_cells(s),
    decreases s.len(),
{
    if i == s.len() - 1 {
        lemma_sum_nonneg(s.drop_last());
    } else {
        lemma_elem_le_sum(s.drop_last(), i);
    }
}

/// Two distinct cells together never exceed the total mass.
pub proof fn lemma_pair_le_sum(s: Seq<u32>, i: int, j: int)
    requires
        0 <= i < s.len(),
        0 <= j < s.len(),
        i != j,
    ensures
        s[i] + s[j] <= sum_cells(s),
{
    let t = s.update(i, 0u32);
    lemma_sum_update(s, i, 0);
    lemma_elem_le_sum(t, j);
}

} // verus!
