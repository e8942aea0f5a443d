//! Where the parts of a tile-component lie.
//!
//! A resolution keeps the samples at multiples of a power of two, and a detail band
//! those that stand between them along its high-pass axes. Code-blocks and precincts cut
//! these grids at multiples of their sizes, whatever the tile, and a precinct owns the
//! blocks whose samples belong to its part of the resolution, row by row.

use super::geometry::{
    band_of, band_span, cells, clip, first_cell, groups_of, precincts_legal, resolution_span,
    resolution_spec,
};
use super::layout::{admitted, band_x, band_y, lemma_band_layout};
use super::partition::{
    axis_deals, block_at, block_holds, columns_of, deals, lemma_blocks_tile_band,
    lemma_entry_position, lemma_grids, rows_of, AxisGrid,
};
use crate::codestream::markers::{CodingView, Rect};
use crate::codestream::positions::lemma_rounded_up;
use crate::math::{lemma_index_injective, min_int};
use vstd::arithmetic::div_mod::{lemma_fundamental_div_mod, lemma_mod_bound};
use vstd::arithmetic::power2::{lemma_pow2_pos, lemma_pow2_unfold, pow2};
use vstd::prelude::*;

verus! {

/// A resolution has the samples of its tile-component whose coordinates are multiples
/// of `2^level`.
pub proof fn lemma_resolution_samples(lo: int, hi: int, level: nat, i: int)
    ensures
        resolution_span(lo, hi, level).lo <= i < resolution_span(lo, hi, level).hi <==> lo <= i
            * pow2(level) < hi,
{
    lemma_pow2_pos(level);
    lemma_rounded_up(lo, pow2(level) as int, i);
    lemma_rounded_up(hi, pow2(level) as int, i);
}

/// A detail band has, along a low-pass axis, the samples at multiples of `2^nb`, and
/// along a high-pass axis those halfway between.
pub proof fn lemma_band_samples(lo: int, hi: int, nb: nat, i: int)
    requires
        nb >= 1,
    ensures
        band_span(lo, hi, nb, false).lo <= i < band_span(lo, hi, nb, false).hi <==> lo <= i * pow2(
            nb,
        ) < hi,
        band_span(lo, hi, nb, true).lo <= i < band_span(lo, hi, nb, true).hi <==> lo <= (2 * i + 1)
            * pow2((nb - 1) as nat) < hi,
{
    let (p, q) = (pow2(nb) as int, pow2((nb - 1) as nat) as int);
    lemma_pow2_pos(nb);
    lemma_pow2_unfold(nb);
    lemma_rounded_up(lo, p, i);
    lemma_rounded_up(hi, p, i);
    lemma_rounded_up(lo - q, p, i);
    lemma_rounded_up(hi - q, p, i);
    assert((2 * i + 1) * q == i * p + q) by (nonlinear_arith)
        requires
            p == 2 * q,
    ;
}

/// A resolution takes its precinct size from its own entry of the list, the lowest
/// resolution from the first: codings that agree in that entry, in the code-block size
/// and in the number of levels lay the resolution out alike, whatever the others say.
pub proof fn lemma_precinct_sizes_by_resolution(tc: Rect, a: CodingView, b: CodingView, r: nat)
    requires
        a.decomposition_levels == b.decomposition_levels,
        a.code_block_width == b.code_block_width,
        a.code_block_height == b.code_block_height,
        r < a.precinct_sizes.len(),
        r < b.precinct_sizes.len(),
        a.precinct_sizes[r as int] == b.precinct_sizes[r as int],
    ensures
        resolution_spec(tc, a, r) == resolution_spec(tc, b, r),
        resolution_spec(tc, a, r).ppx == a.precinct_sizes[r as int].0,
        resolution_spec(tc, a, r).ppy == a.precinct_sizes[r as int].1,
{
    assert(resolution_spec(tc, a, r).bands =~= resolution_spec(tc, b, r).bands);
}

/// Without a list every precinct is as large as one can be.
pub proof fn lemma_precinct_sizes_by_default(tc: Rect, coding: CodingView, r: nat)
    requires
        coding.precinct_sizes.len() == 0,
    ensures
        resolution_spec(tc, coding, r).ppx == 15,
        resolution_spec(tc, coding, r).ppy == 15,
{
}

/// The exponent of a precinct on the grid of its resolution's bands: the precinct's own
/// at the lowest resolution, and one less above it, where a band has every second
/// sample.
pub open spec fn precinct_exponents(coding: CodingView, r: nat) -> (int, int) {
    let (x, y) = coding.precinct(r as int);
    if r == 0 {
        (x as int, y as int)
    } else {
        (x - 1, y - 1)
    }
}

/// The extent of a code-block: `2^(field + 2)`, and no more than its precinct's.
pub open spec fn block_extent(field: u8, precinct: int) -> int {
    pow2(min_int(field + 2, precinct) as nat) as int
}

/// Two samples of a band share a code-block where they lie in the same cell of a grid of
/// blocks that is anchored at the origin of the band's coordinates, whatever the tile.
pub proof fn lemma_samples_share_a_block(
    tc: Rect,
    coding: CodingView,
    r: nat,
    i: int,
    px: int,
    py: int,
    qx: int,
    qy: int,
    k: int,
)
    requires
        admitted(tc),
        precincts_legal(coding),
        r <= coding.decomposition_levels <= 32,
        coding.code_block_width + coding.code_block_height <= 8,
        0 <= px < band_of(tc, coding, r, i).width,
        0 <= py < band_of(tc, coding, r, i).height,
        0 <= qx < band_of(tc, coding, r, i).width,
        0 <= qy < band_of(tc, coding, r, i).height,
        0 <= k < band_of(tc, coding, r, i).blocks.len(),
        block_holds(band_of(tc, coding, r, i).blocks[k], px, py),
    ensures
        ({
            let b = band_of(tc, coding, r, i);
            let (ex, ey) = precinct_exponents(coding, r);
            let w = block_extent(coding.code_block_width, ex);
            let h = block_extent(coding.code_block_height, ey);
            let (x, y) = (b.origin.0 as int, b.origin.1 as int);
            block_holds(b.blocks[k], qx, qy) <==> (x + px) / w == (x + qx) / w && (y + py) / h == (y
                + qy) / h
        }),
{
    let b = band_of(tc, coding, r, i);
    lemma_blocks_tile_band(tc, coding, r, i, px, py);
    lemma_blocks_tile_band(tc, coding, r, i, qx, qy);
    lemma_band_layout(tc, coding, r, i);
    super::geometry::lemma_precinct_legal(coding, r as int);
    super::geometry::lemma_band_spans(tc, coding, r, i);
    let (cs, rs) = (columns_of(tc, coding, r, i), rows_of(tc, coding, r, i));
    lemma_grids(tc, coding, r, i);
    let (x, y) = (band_x(tc, coding, r, i), band_y(tc, coding, r, i));
    let cols = cells(x, cs.cell);
    super::partition::lemma_cell_of_point(x, cs.cell, x.lo + px);
    super::partition::lemma_cell_of_point(x, cs.cell, x.lo + qx);
    let (c1, c2) = ((x.lo + px) / cs.cell - first_cell(x, cs.cell), (x.lo + qx) / cs.cell
        - first_cell(x, cs.cell));
    let (r1, r2) = ((y.lo + py) / rs.cell - first_cell(y, rs.cell), (y.lo + qy) / rs.cell
        - first_cell(y, rs.cell));
    assert(k == block_at(tc, coding, r, i, px, py));
    assert(k == r1 * cols + c1);
    assert(block_at(tc, coding, r, i, qx, qy) == r2 * cols + c2);
    if r1 * cols + c1 == r2 * cols + c2 {
        lemma_index_injective(c1, r1, c2, r2, cols);
    }
}

/// The column or the row of precincts that a band's samples lie in.
proof fn lemma_axis_owner(a: AxisGrid, i: int, j: int, n: int, t: int)
    requires
        a.wf(),
        axis_deals(a, i, j, n),
        clip(a.span, first_cell(a.span, a.cell) + n, a.cell).lo <= t < clip(
            a.span,
            first_cell(a.span, a.cell) + n,
            a.cell,
        ).hi,
    ensures
        t / (a.cell * a.per_group) == a.group + i,
{
    let c = first_cell(a.span, a.cell) + n;
    super::partition::lemma_cell_of_point(a.span, a.cell, t);
    assert(t / a.cell == c);
    vstd::arithmetic::div_mod::lemma_div_denominator(t, a.cell, a.per_group);
    let first = t / a.cell - first_cell(a.span, a.cell);
    assert(first == n);
    super::partition::lemma_group_cells(a.span, a.cell, a.per_group, a.group + i, c);
}

/// A precinct owns the blocks of a band whose samples belong to its part of the
/// resolution. Precinct `q` of a resolution lies in column `q % wide` and row `q / wide`
/// of the precincts, which cut the resolution's grid at multiples of their size; a
/// sample of a band above the lowest resolution stands for every second of its samples.
pub proof fn lemma_precinct_owns_its_part(
    tc: Rect,
    coding: CodingView,
    r: nat,
    i: int,
    q: int,
    j: int,
    k: int,
    px: int,
    py: int,
)
    requires
        admitted(tc),
        precincts_legal(coding),
        r <= coding.decomposition_levels <= 32,
        coding.code_block_width + coding.code_block_height <= 8,
        0 <= px < band_of(tc, coding, r, i).width,
        0 <= py < band_of(tc, coding, r, i).height,
        0 <= k < band_of(tc, coding, r, i).blocks.len(),
        block_holds(band_of(tc, coding, r, i).blocks[k], px, py),
        deals(band_of(tc, coding, r, i), q, j, k),
    ensures
        ({
            let b = band_of(tc, coding, r, i);
            let level = (coding.decomposition_levels - r) as nat;
            let (ex, ey) = precinct_exponents(coding, r);
            let (ppx, ppy) = coding.precinct(r as int);
            let x = resolution_span(tc.x0 as int, tc.x1 as int, level);
            let y = resolution_span(tc.y0 as int, tc.y1 as int, level);
            let wide = cells(x, pow2(ppx) as int);
            &&& wide > 0
            &&& q % wide == (b.origin.0 + px) / (pow2(ex as nat) as int) - x.lo / (pow2(
                ppx,
            ) as int)
            &&& q / wide == (b.origin.1 + py) / (pow2(ey as nat) as int) - y.lo / (pow2(
                ppy,
            ) as int)
        }),
{
    let b = band_of(tc, coding, r, i);
    let g = groups_of(tc, coding, r);
    let (cs, rs) = (columns_of(tc, coding, r, i), rows_of(tc, coding, r, i));
    super::geometry::lemma_precinct_legal(coding, r as int);
    super::geometry::lemma_band_spans(tc, coding, r, i);
    lemma_band_layout(tc, coding, r, i);
    lemma_grids(tc, coding, r, i);
    lemma_entry_position(tc, coding, r, i, q, j);
    lemma_blocks_tile_band(tc, coding, r, i, px, py);
    let (x, y) = (band_x(tc, coding, r, i), band_y(tc, coding, r, i));
    let cols = cells(x, cs.cell);
    super::partition::lemma_cell_of_point(x, cs.cell, x.lo + px);
    super::partition::lemma_cell_of_point(y, rs.cell, y.lo + py);
    let col = (x.lo + px) / cs.cell - first_cell(x, cs.cell);
    let row = (y.lo + py) / rs.cell - first_cell(y, rs.cell);
    assert(k == block_at(tc, coding, r, i, px, py));
    assert(k == row * cols + col);
    crate::tier1::lemma_row_column(col, row, cols);
    let u = clip(x, first_cell(x, cs.cell) + col, cs.cell);
    let v = clip(y, first_cell(y, rs.cell) + row, rs.cell);
    let wide = cells(cs.part(q % cs.groups), cs.cell);
    lemma_axis_owner(cs, q % cs.groups, j % wide, k % cols, x.lo + px);
    lemma_axis_owner(rs, q / cs.groups, j / wide, k / cols, y.lo + py);
    let level = (coding.decomposition_levels - r) as nat;
    let (rx, ry) = (
        resolution_span(tc.x0 as int, tc.x1 as int, level),
        resolution_span(tc.y0 as int, tc.y1 as int, level),
    );
    let (ppx, ppy) = coding.precinct(r as int);
    assert(cells(rx, pow2(ppx) as int) > 0);
    assert(rx.lo < rx.hi);
    super::geometry::lemma_precincts_in(tc, coding, r);
    super::geometry::lemma_grid_position(q, g.wide, g.high);
    assert(cells(ry, pow2(ppy) as int) > 0);
    assert(ry.lo < ry.hi);
}

/// A precinct lists its blocks row by row: along a row each is the next block of the
/// band, and below a block stands the one a row of the band further.
pub proof fn lemma_precinct_lists_its_blocks(
    tc: Rect,
    coding: CodingView,
    r: nat,
    i: int,
    q: int,
    j: int,
)
    requires
        admitted(tc),
        precincts_legal(coding),
        r <= coding.decomposition_levels <= 32,
        coding.code_block_width + coding.code_block_height <= 8,
        0 <= q < band_of(tc, coding, r, i).precincts.len(),
        0 <= j < band_of(tc, coding, r, i).precincts[q].blocks.len(),
    ensures
        ({
            let b = band_of(tc, coding, r, i);
            let p = b.precincts[q];
            &&& p.cols > 0
            &&& p.blocks.len() == p.cols * p.rows
            &&& j + 1 < p.blocks.len() && (j + 1) % (p.cols as int) != 0 ==> p.blocks[j + 1]
                == p.blocks[j] + 1
            &&& j + p.cols < p.blocks.len() ==> p.blocks[j + p.cols] == p.blocks[j] + b.block_cols
        }),
{
    let b = band_of(tc, coding, r, i);
    let g = groups_of(tc, coding, r);
    let p = b.precincts[q];
    let (cs, rs) = (columns_of(tc, coding, r, i), rows_of(tc, coding, r, i));
    lemma_entry_position(tc, coding, r, i, q, j);
    let wide = cells(cs.part(q % cs.groups), cs.cell);
    let cols = cells(cs.span, cs.cell);
    super::partition::lemma_precinct_shape(tc, coding, r, i, q);
    assert(p.cols == wide);
    lemma_fundamental_div_mod(j, wide);
    lemma_mod_bound(j, wide);
    let k = p.blocks[j] as int;
    lemma_fundamental_div_mod(k, cols);
    if j + 1 < p.blocks.len() && (j + 1) % wide != 0 {
        lemma_entry_position(tc, coding, r, i, q, j + 1);
        lemma_fundamental_div_mod(j + 1, wide);
        lemma_mod_bound(j + 1, wide);
        lemma_same_row(j, wide);
        lemma_fundamental_div_mod(p.blocks[j + 1] as int, cols);
    }
    if j + wide < p.blocks.len() {
        lemma_entry_position(tc, coding, r, i, q, j + wide);
        lemma_next_row(j, wide);
        lemma_fundamental_div_mod(p.blocks[j + wide] as int, cols);
        let y = k / cols;
        assert(cols * (y + 1) == cols * y + cols) by (nonlinear_arith);
    }
}

/// The next entry of a row.
proof fn lemma_same_row(j: int, wide: int)
    requires
        wide > 0,
        0 <= j,
        (j + 1) % wide != 0,
    ensures
        (j + 1) / wide == j / wide,
        (j + 1) % wide == j % wide + 1,
{
    lemma_fundamental_div_mod(j, wide);
    lemma_mod_bound(j, wide);
    let (y, x) = (j / wide, j % wide);
    if x + 1 == wide {
        assert(j + 1 == wide * (y + 1)) by (nonlinear_arith)
            requires
                j == wide * y + x,
                x + 1 == wide,
        ;
        vstd::arithmetic::div_mod::lemma_mod_multiples_basic(y + 1, wide);
        assert((y + 1) * wide == wide * (y + 1)) by (nonlinear_arith);
    } else {
        assert(wide * y == y * wide) by (nonlinear_arith);
        crate::tier1::lemma_row_column(x + 1, y, wide);
    }
}

/// The entry a row further.
proof fn lemma_next_row(j: int, wide: int)
    requires
        wide > 0,
    ensures
        (j + wide) / wide == j / wide + 1,
        (j + wide) % wide == j % wide,
{
    lemma_fundamental_div_mod(j, wide);
    lemma_mod_bound(j, wide);
    let (y, x) = (j / wide, j % wide);
    assert(j + wide == (y + 1) * wide + x) by (nonlinear_arith)
        requires
            j == wide * y + x,
    ;
    crate::tier1::lemma_row_column(x, y + 1, wide);
}

} // verus!
