//! What the tile grid promises: every tile covers a part of the image, and the tiles
//! partition every component's samples, at every resolution reduction. A legal grid
//! also stays within the decode guards.

use super::main_header::{geometry_fault, sampling_legal, MAX_IMAGE_SAMPLES};
use super::markers::{reduce, tiles_across, Rect, SizView};
use crate::math::{ceil_div, lemma_ceil_div, lemma_ceil_div_unique, max_int, min_int};
use crate::tier2::layout::{admitted, lemma_coarser_extent, tile_admitted};
use vstd::arithmetic::power2::{lemma_pow2_pos, pow2};
use vstd::prelude::*;

verus! {

/// Where tile `p` of an axis starts, held to the image: the grid's lines in order,
/// from the image's near edge to its far one.
pub open spec fn grid_line(origin: int, tile: int, low: int, high: int, p: int) -> int {
    max_int(low, min_int(high, origin + p * tile))
}

/// One axis of a legal grid: the tiles start at or before the image and the first
/// one reaches it.
pub open spec fn axis_legal(origin: int, tile: int, low: int, high: int) -> bool {
    0 <= origin <= low < high && 0 < tile && origin + tile > low
}

/// The lines of a legal axis: they start at the near edge, end at the far one and
/// rise strictly between.
proof fn lemma_grid_lines(origin: int, tile: int, low: int, high: int, p: int)
    requires
        axis_legal(origin, tile, low, high),
        0 <= p < tiles_across(high, origin, tile),
    ensures
        grid_line(origin, tile, low, high, 0) == low,
        grid_line(origin, tile, low, high, tiles_across(high, origin, tile)) == high,
        grid_line(origin, tile, low, high, p) == max_int(origin + p * tile, low),
        grid_line(origin, tile, low, high, p + 1) == min_int(origin + (p + 1) * tile, high),
        low <= grid_line(origin, tile, low, high, p) < grid_line(origin, tile, low, high, p + 1)
            <= high,
{
    let n = tiles_across(high, origin, tile);
    lemma_ceil_div(high - origin, tile);
    assert(tile * (n - 1) < high - origin <= tile * n);
    assert(p * tile <= tile * (n - 1)) by (nonlinear_arith)
        requires
            p <= n - 1,
            tile > 0,
    ;
    assert((p + 1) * tile == p * tile + tile) by (nonlinear_arith);
    assert(0 <= p * tile) by (nonlinear_arith)
        requires
            p >= 0,
            tile > 0,
    ;
    assert(n * tile == tile * n) by (nonlinear_arith);
    assert(0 * tile == 0) by (nonlinear_arith);
}

/// A legal grid: the geometry is without fault.
pub open spec fn grid_legal(s: SizView) -> bool {
    geometry_fault(s) is None
}

/// A grid that covers the image: both axes are legal, and the tiles can be counted.
pub open spec fn grid_covers(s: SizView) -> bool {
    &&& axis_legal(
        s.tile_x_offset as int,
        s.tile_width as int,
        s.x_offset as int,
        s.x_size as int,
    )
    &&& axis_legal(
        s.tile_y_offset as int,
        s.tile_height as int,
        s.y_offset as int,
        s.y_size as int,
    )
    &&& s.tile_grid().0 * s.tile_grid().1 <= u32::MAX
}

/// A legal grid covers the image.
pub proof fn lemma_legal_grid_covers(s: SizView)
    requires
        grid_legal(s),
    ensures
        grid_covers(s),
{
}

/// The axes of a grid that covers the image.
proof fn lemma_axes(s: SizView)
    requires
        grid_covers(s),
    ensures
        s.tile_grid().0 > 0,
        s.tile_grid().1 > 0,
        s.num_tiles() == s.tile_grid().0 * s.tile_grid().1,
        s.num_tiles() > 0,
{
    lemma_ceil_div(s.x_size - s.tile_x_offset, s.tile_width as int);
    lemma_ceil_div(s.y_size - s.tile_y_offset, s.tile_height as int);
    let (a, d) = s.tile_grid();
    assert(a * d > 0) by (nonlinear_arith)
        requires
            a > 0,
            d > 0,
    ;
}

/// The column and the row of a tile.
proof fn lemma_tile_position(s: SizView, index: int)
    requires
        grid_covers(s),
        0 <= index < s.num_tiles(),
    ensures
        0 <= index % s.tile_grid().0 < s.tile_grid().0,
        0 <= index / s.tile_grid().0 < s.tile_grid().1,
{
    lemma_axes(s);
    crate::tier2::geometry::lemma_grid_position(index, s.tile_grid().0, s.tile_grid().1);
}

/// Every tile of a grid covers a part of the image, bounded by four grid
/// lines.
pub proof fn lemma_tile_rect(s: SizView, index: int)
    requires
        grid_covers(s),
        0 <= index < s.num_tiles(),
    ensures
        ({
            let p = index % s.tile_grid().0;
            let q = index / s.tile_grid().0;
            let (xo, tw) = (s.tile_x_offset as int, s.tile_width as int);
            let (yo, th) = (s.tile_y_offset as int, s.tile_height as int);
            let (xl, xh) = (s.x_offset as int, s.x_size as int);
            let (yl, yh) = (s.y_offset as int, s.y_size as int);
            &&& s.tile_rect(index) matches Some(r)
            &&& r.x0 == grid_line(xo, tw, xl, xh, p)
            &&& r.x1 == grid_line(xo, tw, xl, xh, p + 1)
            &&& r.y0 == grid_line(yo, th, yl, yh, q)
            &&& r.y1 == grid_line(yo, th, yl, yh, q + 1)
            &&& xl <= r.x0 < r.x1 <= xh
            &&& yl <= r.y0 < r.y1 <= yh
        }),
{
    lemma_axes(s);
    lemma_tile_position(s, index);
    let p = index % s.tile_grid().0;
    let q = index / s.tile_grid().0;
    lemma_grid_lines(
        s.tile_x_offset as int,
        s.tile_width as int,
        s.x_offset as int,
        s.x_size as int,
        p,
    );
    lemma_grid_lines(
        s.tile_y_offset as int,
        s.tile_height as int,
        s.y_offset as int,
        s.y_size as int,
        q,
    );
}

/// A coordinate on a component's grid at a reduction.
pub open spec fn project(v: int, sampling: int, reduction: nat) -> int {
    reduce(ceil_div(v, sampling), reduction)
}

/// Projection keeps order and range.
proof fn lemma_project(a: int, b: int, sampling: int, reduction: nat)
    requires
        0 <= a <= b <= u32::MAX,
        sampling > 0,
    ensures
        0 <= ceil_div(a, sampling) <= ceil_div(b, sampling) <= u32::MAX,
        0 <= project(a, sampling, reduction) <= project(b, sampling, reduction) <= u32::MAX,
        project(b, sampling, reduction) - project(a, sampling, reduction) <= b - a,
{
    let p = pow2(min_int(reduction as int, 32) as nat) as int;
    lemma_pow2_pos(min_int(reduction as int, 32) as nat);
    lemma_coarser_extent(0, a, 0, sampling);
    lemma_coarser_extent(0, b, 0, sampling);
    lemma_coarser_extent(a, b, 0, sampling);
    lemma_ceil_div_unique(0, sampling, 0);
    lemma_coarser_extent(0, ceil_div(a, sampling), 0, p);
    lemma_coarser_extent(0, ceil_div(b, sampling), 0, p);
    lemma_coarser_extent(ceil_div(a, sampling), ceil_div(b, sampling), 0, p);
    lemma_ceil_div_unique(0, p, 0);
}

/// A tile's rectangle on a component's grid at a reduction, by its four lines.
pub open spec fn tile_cell(s: SizView, index: int, comp: int, reduction: nat) -> Rect {
    s.tile_component_rect(index, comp).unwrap().reduced_spec(reduction)
}

/// The bounds of a tile's rectangle on a component's grid at a reduction.
proof fn lemma_tile_cell(s: SizView, index: int, comp: int, reduction: nat)
    requires
        grid_covers(s),
        s.has_component(comp),
        0 <= index < s.num_tiles(),
    ensures
        s.tile_component_rect(index, comp) is Some,
        ({
            let r = s.tile_rect(index).unwrap();
            let c = s.components[comp];
            let cell = tile_cell(s, index, comp, reduction);
            let (dx, dy) = (c.x_sampling as int, c.y_sampling as int);
            &&& cell.x0 == project(r.x0 as int, dx, reduction)
            &&& cell.x1 == project(r.x1 as int, dx, reduction)
            &&& cell.y0 == project(r.y0 as int, dy, reduction)
            &&& cell.y1 == project(r.y1 as int, dy, reduction)
        }),
{
    lemma_tile_rect(s, index);
    let r = s.tile_rect(index).unwrap();
    let c = s.components[comp];
    lemma_project(r.x0 as int, r.x1 as int, c.x_sampling as int, reduction);
    lemma_project(r.y0 as int, r.y1 as int, c.y_sampling as int, reduction);
}

/// The bounds of a component's whole grid at a reduction.
proof fn lemma_component_cell(s: SizView, comp: int, reduction: nat)
    requires
        grid_covers(s),
        s.has_component(comp),
    ensures
        s.component_rect(comp) is Some,
        ({
            let cell = s.component_rect(comp).unwrap().reduced_spec(reduction);
            let c = s.components[comp];
            let (dx, dy) = (c.x_sampling as int, c.y_sampling as int);
            &&& cell.x0 == project(s.x_offset as int, dx, reduction)
            &&& cell.x1 == project(s.x_size as int, dx, reduction)
            &&& cell.y0 == project(s.y_offset as int, dy, reduction)
            &&& cell.y1 == project(s.y_size as int, dy, reduction)
        }),
{
    let c = s.components[comp];
    lemma_project(s.x_offset as int, s.x_size as int, c.x_sampling as int, reduction);
    lemma_project(s.y_offset as int, s.y_size as int, c.y_sampling as int, reduction);
}

/// Tile `p` of an axis covers coordinate `v` of a component's grid.
spec fn axis_holds(
    origin: int,
    tile: int,
    low: int,
    high: int,
    d: int,
    reduction: nat,
    p: int,
    v: int,
) -> bool {
    project(grid_line(origin, tile, low, high, p), d, reduction) <= v < project(
        grid_line(origin, tile, low, high, p + 1),
        d,
        reduction,
    )
}

/// One of the first `n` tiles of an axis covers a coordinate below the `n`-th line.
proof fn lemma_axis_covered(
    origin: int,
    tile: int,
    low: int,
    high: int,
    d: int,
    reduction: nat,
    n: int,
    v: int,
) -> (p: int)
    requires
        axis_legal(origin, tile, low, high),
        high <= u32::MAX,
        d > 0,
        0 <= n <= tiles_across(high, origin, tile),
        project(low, d, reduction) <= v < project(
            grid_line(origin, tile, low, high, n),
            d,
            reduction,
        ),
    ensures
        0 <= p < n,
        axis_holds(origin, tile, low, high, d, reduction, p, v),
    decreases n,
{
    if n == 0 {
        lemma_ceil_div(high - origin, tile);
        lemma_grid_lines(origin, tile, low, high, 0);
        0
    } else {
        lemma_grid_lines(origin, tile, low, high, n - 1);
        if v >= project(grid_line(origin, tile, low, high, n - 1), d, reduction) {
            n - 1
        } else {
            lemma_axis_covered(origin, tile, low, high, d, reduction, n - 1, v)
        }
    }
}

/// The lines of an axis rise.
proof fn lemma_lines_rise(origin: int, tile: int, low: int, high: int, p: int, q: int)
    requires
        axis_legal(origin, tile, low, high),
        0 <= p <= q,
    ensures
        low <= grid_line(origin, tile, low, high, p) <= grid_line(origin, tile, low, high, q)
            <= high,
{
    assert(p * tile <= q * tile) by (nonlinear_arith)
        requires
            p <= q,
            tile > 0,
    ;
}

/// No two tiles of an axis cover the same coordinate.
proof fn lemma_axis_once(
    origin: int,
    tile: int,
    low: int,
    high: int,
    d: int,
    reduction: nat,
    p: int,
    q: int,
    v: int,
)
    requires
        axis_legal(origin, tile, low, high),
        high <= u32::MAX,
        d > 0,
        0 <= p,
        0 <= q,
        axis_holds(origin, tile, low, high, d, reduction, p, v),
        axis_holds(origin, tile, low, high, d, reduction, q, v),
    ensures
        p == q,
{
    if p < q {
        lemma_lines_rise(origin, tile, low, high, p + 1, q);
        lemma_project(
            grid_line(origin, tile, low, high, p + 1),
            grid_line(origin, tile, low, high, q),
            d,
            reduction,
        );
    } else if q < p {
        lemma_lines_rise(origin, tile, low, high, q + 1, p);
        lemma_project(
            grid_line(origin, tile, low, high, q + 1),
            grid_line(origin, tile, low, high, p),
            d,
            reduction,
        );
    }
}

/// The tiles partition every component's samples, at every resolution reduction:
/// each sample of the component's grid lies in the rectangle of exactly one tile.
pub proof fn lemma_tiles_partition(s: SizView, comp: int, reduction: nat, x: int, y: int) -> (index:
    int)
    requires
        grid_covers(s),
        s.has_component(comp),
        s.component_rect(comp).unwrap().reduced_spec(reduction).contains(x, y),
    ensures
        0 <= index < s.num_tiles(),
        tile_cell(s, index, comp, reduction).contains(x, y),
        forall|other: int|
            0 <= other < s.num_tiles() && #[trigger] tile_cell(s, other, comp, reduction).contains(
                x,
                y,
            ) ==> other == index,
{
    lemma_axes(s);
    lemma_component_cell(s, comp, reduction);
    let c = s.components[comp];
    let (dx, dy) = (c.x_sampling as int, c.y_sampling as int);
    let (xo, tw) = (s.tile_x_offset as int, s.tile_width as int);
    let (yo, th) = (s.tile_y_offset as int, s.tile_height as int);
    let (xl, xh) = (s.x_offset as int, s.x_size as int);
    let (yl, yh) = (s.y_offset as int, s.y_size as int);
    let (across, down) = s.tile_grid();
    lemma_grid_lines(xo, tw, xl, xh, 0);
    lemma_grid_lines(yo, th, yl, yh, 0);
    let p = lemma_axis_covered(xo, tw, xl, xh, dx, reduction, across, x);
    let q = lemma_axis_covered(yo, th, yl, yh, dy, reduction, down, y);
    let index = q * across + p;
    crate::math::lemma_index_bound(p, q, across, down);
    crate::tier1::lemma_row_column(p, q, across);
    lemma_tile_rect(s, index);
    lemma_tile_cell(s, index, comp, reduction);
    assert forall|other: int|
        0 <= other < s.num_tiles() && #[trigger] tile_cell(s, other, comp, reduction).contains(
            x,
            y,
        ) implies other == index by {
        lemma_tile_rect(s, other);
        lemma_tile_cell(s, other, comp, reduction);
        lemma_tile_position(s, other);
        let (p2, q2) = (other % across, other / across);
        lemma_axis_once(xo, tw, xl, xh, dx, reduction, p, p2, x);
        lemma_axis_once(yo, th, yl, yh, dy, reduction, q, q2, y);
        vstd::arithmetic::div_mod::lemma_fundamental_div_mod(other, across);
        assert(across * q2 == q2 * across) by (nonlinear_arith);
    }
    index
}

/// A tile's rectangle lies in its component's grid.
pub proof fn lemma_tile_inside(s: SizView, index: int, comp: int, reduction: nat)
    requires
        grid_covers(s),
        s.has_component(comp),
        0 <= index < s.num_tiles(),
    ensures
        s.tile_component_rect(index, comp) is Some,
        s.component_rect(comp) is Some,
        crate::image::inside(
            tile_cell(s, index, comp, reduction),
            s.component_rect(comp).unwrap().reduced_spec(reduction),
        ),
        tile_cell(s, index, comp, reduction).x0 <= tile_cell(s, index, comp, reduction).x1,
        tile_cell(s, index, comp, reduction).y0 <= tile_cell(s, index, comp, reduction).y1,
{
    lemma_tile_rect(s, index);
    lemma_tile_cell(s, index, comp, reduction);
    lemma_component_cell(s, comp, reduction);
    let r = s.tile_rect(index).unwrap();
    let c = s.components[comp];
    let (dx, dy) = (c.x_sampling as int, c.y_sampling as int);
    lemma_project(s.x_offset as int, r.x0 as int, dx, reduction);
    lemma_project(r.x0 as int, r.x1 as int, dx, reduction);
    lemma_project(r.x1 as int, s.x_size as int, dx, reduction);
    lemma_project(s.y_offset as int, r.y0 as int, dy, reduction);
    lemma_project(r.y0 as int, r.y1 as int, dy, reduction);
    lemma_project(r.y1 as int, s.y_size as int, dy, reduction);
}

/// Every tile of a legal grid stays within the decode guard.
pub proof fn lemma_tile_admitted(s: SizView, index: int)
    requires
        grid_legal(s),
        sampling_legal(s),
        0 <= index < s.num_tiles(),
    ensures
        tile_admitted(s, index),
{
    lemma_tile_rect(s, index);
    let r = s.tile_rect(index).unwrap();
    lemma_size_bound(s);
    assert forall|c: int| 0 <= c < s.components.len() implies (#[trigger] s.tile_component_rect(
        index,
        c,
    ) matches Some(tc) ==> admitted(tc)) by {
        assert(s.has_component(c));
        let d = s.components[c];
        lemma_project(r.x0 as int, r.x1 as int, d.x_sampling as int, 0);
        lemma_project(r.y0 as int, r.y1 as int, d.y_sampling as int, 0);
        lemma_coarser_extent(r.x0 as int, r.x1 as int, 0, d.x_sampling as int);
        lemma_coarser_extent(r.y0 as int, r.y1 as int, 0, d.y_sampling as int);
        let tc = s.tile_component_rect(index, c).unwrap();
        let (w, h) = (tc.x1 - tc.x0, tc.y1 - tc.y0);
        assert(w * h <= s.x_size * s.y_size) by (nonlinear_arith)
            requires
                0 <= w <= s.x_size,
                0 <= h <= s.y_size,
        ;
    }
}

/// Each side of a legal image is within the decode guard.
proof fn lemma_size_bound(s: SizView)
    requires
        grid_legal(s),
    ensures
        s.x_size <= MAX_IMAGE_SAMPLES,
        s.y_size <= MAX_IMAGE_SAMPLES,
{
    assert(s.x_size <= s.x_size * s.y_size && s.y_size <= s.x_size * s.y_size) by (nonlinear_arith)
        requires
            s.x_size >= 1,
            s.y_size >= 1,
    ;
}

/// Every component's plane stays within the decode guard.
pub proof fn lemma_planes_fit(s: SizView, reduction: nat)
    requires
        grid_legal(s),
        sampling_legal(s),
    ensures
        crate::image::planes_fit(s, reduction),
{
    lemma_size_bound(s);
    assert forall|i: int| 0 <= i < s.components.len() implies (#[trigger] s.component_rect(
        i,
    ) matches Some(r) ==> crate::image::area_of(r.reduced_spec(reduction)) <= usize::MAX) by {
        assert(s.has_component(i));
        let d = s.components[i];
        lemma_component_cell(s, i, reduction);
        lemma_project(s.x_offset as int, s.x_size as int, d.x_sampling as int, reduction);
        lemma_project(s.y_offset as int, s.y_size as int, d.y_sampling as int, reduction);
        let r = s.component_rect(i).unwrap().reduced_spec(reduction);
        let (w, h) = (r.width_spec(), r.height_spec());
        assert(w * h <= s.x_size * s.y_size) by (nonlinear_arith)
            requires
                0 <= w <= s.x_size,
                0 <= h <= s.y_size,
        ;
    }
}

} // verus!
