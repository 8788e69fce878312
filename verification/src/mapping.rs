//! Arithmetic that maps a physical position to the index of the cell that
//! holds it, and the facts about that map that the grid relies on.

use vstd::prelude::*;

verus! {

/// The index of the cell that holds position `p`, counted from the low edge
/// of an axis of length `extent` that is cut into `count` equal cells:
/// the floor of `p` divided by the cell size `extent / count`.
///
/// On an axis without extent every cell is empty: the low edge itself stays
/// in cell 0 and every position above it lies beyond all indices.
pub open spec fn cell_index(p: int, extent: int, count: int) -> int {
    if extent > 0 {
        (p * count) / extent
    } else if p > 0 {
        usize::MAX as int
    } else {
        0
    }
}

/// `cell_index` as far as a `usize` can hold it.
pub open spec fn saturated_index(p: int, extent: int, count: int) -> int {
    if cell_index(p, extent, count) > usize::MAX {
        usize::MAX as int
    } else {
        cell_index(p, extent, count)
    }
}

/// `cell_index` forced into the cells that exist, `0..count`: a position
/// below the axis goes to the first cell, one beyond it to the last.
pub open spec fn clamped_index(p: int, extent: int, count: int) -> int {
    if p < 0 {
        0
    } else if cell_index(p, extent, count) > count - 1 {
        count - 1
    } else {
        cell_index(p, extent, count)
    }
}

/// Computes `saturated_index` for a position on or above the low edge.
pub(crate) fn index_of(p: i128, extent: i32, count: usize) -> (r: usize)
    requires
        0 <= p < 0x1_0000_0000_0000_0000,
        0 <= extent,
        0 < count,
    ensures
        r == saturated_index(p as int, extent as int, count as int),
{
    if extent == 0 {
        if p > 0 {
            usize::MAX
        } else {
            0
        }
    } else {
        let wide_p: u128 = p as u128;
        let wide_count: u128 = count as u128;
        assert(wide_p * wide_count <= 0xffff_ffff_ffff_ffff * 0xffff_ffff_ffff_ffff) by (nonlinear_arith)
            requires
                0 <= wide_p <= 0xffff_ffff_ffff_ffff,
                0 <= wide_count <= 0xffff_ffff_ffff_ffff,
        ;
        let q: u128 = (wide_p * wide_count) / (extent as u128);
        if q > usize::MAX as u128 {
            usize::MAX
        } else {
            q as usize
        }
    }
}

/// Computes `clamped_index` for any position.
pub(crate) fn clamped_index_of(p: i128, extent: i32, count: usize) -> (r: usize)
    requires
        p < 0x1_0000_0000_0000_0000,
        0 <= extent,
        0 < count,
    ensures
        r == clamped_index(p as int, extent as int, count as int),
        r < count,
{
    if p < 0 {
        0
    } else {
        let i: usize = index_of(p, extent, count);
        if i > count - 1 {
            count - 1
        } else {
            i
        }
    }
}

/// Where a pivot lies in a new extent when it keeps its place relative to
/// the old one: `offset / old_extent` of `new_extent`, rounded down.
/// Without an old extent there is no such fraction, and the pivot is 0.
pub open spec fn scaled_offset(offset: int, old_extent: int, new_extent: int) -> int {
    if old_extent > 0 {
        (offset * new_extent) / old_extent
    } else {
        0
    }
}

/// The distance from the low edge of the fraction `pivot / PIVOT_FULL` of
/// `extent`, rounded down.
pub open spec fn pivot_offset(extent: int, pivot: int) -> int {
    (extent * pivot) / (crate::PIVOT_FULL as int)
}

/// Computes `scaled_offset`.
pub(crate) fn rescale(offset: i32, old_extent: i32, new_extent: i32) -> (r: i32)
    requires
        0 <= offset <= old_extent,
        0 <= new_extent,
    ensures
        r == scaled_offset(offset as int, old_extent as int, new_extent as int),
        0 <= r <= new_extent,
{
    if old_extent > 0 {
        assert(0 <= offset * new_extent <= old_extent * new_extent <= 0x7fff_ffff * 0x7fff_ffff)
            by (nonlinear_arith)
            requires
                0 <= offset <= old_extent <= 0x7fff_ffff,
                0 <= new_extent <= 0x7fff_ffff,
        ;
        let product: i64 = (offset as i64) * (new_extent as i64);
        let q: i64 = product / (old_extent as i64);
        assert(0 <= q <= new_extent) by (nonlinear_arith)
            requires
                0 <= product <= old_extent * new_extent,
                0 < old_extent,
                q == product as int / old_extent as int,
        ;
        q as i32
    } else {
        0
    }
}

/// Computes `pivot_offset`.
pub(crate) fn fraction_of(extent: i32, pivot: u32) -> (r: i32)
    requires
        0 <= extent,
        pivot <= crate::PIVOT_FULL,
    ensures
        r == pivot_offset(extent as int, pivot as int),
        0 <= r <= extent,
{
    assert(0 <= extent * pivot <= extent * 1_000_000 <= 0x7fff_ffff * 1_000_000) by (nonlinear_arith)
        requires
            0 <= extent <= 0x7fff_ffff,
            0 <= pivot <= 1_000_000,
    ;
    let product: i64 = (extent as i64) * (pivot as i64);
    let q: i64 = product / (crate::PIVOT_FULL as i64);
    assert(0 <= q <= extent) by (nonlinear_arith)
        requires
            0 <= product <= extent * 1_000_000,
            q == product as int / 1_000_000,
    ;
    q as i32
}

/// The size of one of `count` equal cells of an axis of length `extent`,
/// rounded down.
pub(crate) fn quotient(extent: i32, count: usize) -> (r: i32)
    requires
        0 <= extent,
        0 < count,
    ensures
        r == extent as int / count as int,
{
    if count > i32::MAX as usize {
        assert(extent as int / count as int == 0) by (nonlinear_arith)
            requires
                0 <= extent < count,
        ;
        0
    } else {
        extent / (count as i32)
    }
}

/// The cell that `cell_index` gives for a position holds that position:
/// cell `c` of `count` equal cells spans the positions from `c * extent /
/// count` up to, but not including, `(c + 1) * extent / count`.
pub proof fn lemma_cell_holds_point(p: int, extent: int, count: int)
    requires
        0 <= p,
        0 < extent,
        0 < count,
    ensures
        0 <= cell_index(p, extent, count),
        cell_index(p, extent, count) * extent <= p * count < (cell_index(p, extent, count) + 1)
            * extent,
{
    let x = p * count;
    let c = x / extent;
    assert(0 <= x) by (nonlinear_arith)
        requires
            0 <= p,
            0 < count,
            x == p * count,
    ;
    vstd::arithmetic::div_mod::lemma_fundamental_div_mod(x, extent);
    vstd::arithmetic::div_mod::lemma_mod_bound(x, extent);
    vstd::arithmetic::div_mod::lemma_div_pos_is_pos(x, extent);
    assert(c * extent == extent * c && (c + 1) * extent == extent * c + extent)
        by (nonlinear_arith);
}

/// A position has exactly one cell: the only index whose cell holds the
/// position is the one that `cell_index` gives.
pub proof fn lemma_cell_is_unique(p: int, extent: int, count: int, c: int)
    requires
        0 <= p,
        0 < extent,
        0 < count,
        c * extent <= p * count < (c + 1) * extent,
    ensures
        c == cell_index(p, extent, count),
{
    let x = p * count;
    let r = x - c * extent;
    assert((c + 1) * extent == c * extent + extent) by (nonlinear_arith);
    vstd::arithmetic::div_mod::lemma_fundamental_div_mod_converse(x, extent, c, r);
}

/// A position inside the extent lies in one of the cells that exist.
pub proof fn lemma_inside_is_in_bounds(p: int, extent: int, count: int)
    requires
        0 <= p < extent,
        0 < count <= usize::MAX,
    ensures
        0 <= cell_index(p, extent, count) < count,
        saturated_index(p, extent, count) == cell_index(p, extent, count),
        clamped_index(p, extent, count) == cell_index(p, extent, count),
{
    lemma_cell_holds_point(p, extent, count);
    let c = cell_index(p, extent, count);
    assert(c < count) by (nonlinear_arith)
        requires
            c * extent <= p * count,
            0 <= p < extent,
            0 < count,
    ;
}

/// A position further up the axis never lies in a cell further down.
pub proof fn lemma_cell_index_is_ordered(p: int, q: int, extent: int, count: int)
    requires
        p <= q,
        0 <= extent,
        0 < count,
    ensures
        cell_index(p, extent, count) <= cell_index(q, extent, count),
        saturated_index(p, extent, count) <= saturated_index(q, extent, count),
        0 <= clamped_index(p, extent, count) <= clamped_index(q, extent, count) < count,
{
    if extent > 0 {
        assert(p * count <= q * count) by (nonlinear_arith)
            requires
                p <= q,
                0 < count,
        ;
        vstd::arithmetic::div_mod::lemma_div_is_ordered(p * count, q * count, extent);
        if 0 <= p {
            lemma_cell_holds_point(p, extent, count);
        }
        if 0 <= q {
            lemma_cell_holds_point(q, extent, count);
        }
    }
}

/// A position below the axis is forced into the first cell, one at or
/// beyond its upper end into the last.
pub proof fn lemma_outside_is_clamped(p: int, extent: int, count: int)
    requires
        0 < extent,
        0 < count,
    ensures
        p < 0 ==> clamped_index(p, extent, count) == 0,
        p >= extent ==> clamped_index(p, extent, count) == count - 1,
{
    if p >= extent {
        lemma_cell_holds_point(p, extent, count);
        let c = cell_index(p, extent, count);
        assert(c >= count) by (nonlinear_arith)
            requires
                p * count < (c + 1) * extent,
                p >= extent,
                0 < extent,
                0 < count,
        ;
    }
}

/// A pivot that lies at the fraction `num / den` of the old extent lies at
/// the same fraction of the new extent, rounded down.
pub proof fn lemma_scaled_offset_keeps_fraction(
    offset: int,
    old_extent: int,
    new_extent: int,
    num: int,
    den: int,
)
    requires
        0 < old_extent,
        0 <= new_extent,
        0 < den,
        offset * den == old_extent * num,
    ensures
        scaled_offset(offset, old_extent, new_extent) == (new_extent * num) / den,
{
    let x = new_extent * num;
    let q = x / den;
    let r = x % den;
    vstd::arithmetic::div_mod::lemma_fundamental_div_mod(x, den);
    vstd::arithmetic::div_mod::lemma_mod_bound(x, den);
    let y = offset * new_extent;
    // y * den == x * old_extent, so y and x * old_extent / den lie in the same step of old_extent
    assert(y * den == x * old_extent) by (nonlinear_arith)
        requires
            y == offset * new_extent,
            x == new_extent * num,
            offset * den == old_extent * num,
    ;
    assert(y * den == (q * old_extent) * den + r * old_extent) by (nonlinear_arith)
        requires
            y * den == x * old_extent,
            x == den * q + r,
    ;
    assert(q * old_extent <= y < (q + 1) * old_extent) by (nonlinear_arith)
        requires
            y * den == (q * old_extent) * den + r * old_extent,
            0 <= r < den,
            0 < old_extent,
            0 < den,
    ;
    assert((q + 1) * old_extent == q * old_extent + old_extent) by (nonlinear_arith);
    vstd::arithmetic::div_mod::lemma_fundamental_div_mod_converse(
        y,
        old_extent,
        q,
        y - q * old_extent,
    );
}

} // verus!
