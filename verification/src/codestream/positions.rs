//! Where samples lie on the reference grid.
//!
//! A component has a sample at every multiple of its sub-sampling factors. A rectangle
//! holds those that lie in it on the reference grid, a reduction keeps every second,
//! fourth, and so on, and tiles are numbered row by row.

use super::grid::{grid_covers, lemma_tile_rect};
use super::markers::{tiles_across, Rect, SizView};
use crate::math::{ceil_div, lemma_ceil_div};
use vstd::arithmetic::div_mod::{lemma_fundamental_div_mod, lemma_mod_bound};
use vstd::arithmetic::power2::{lemma_pow2_pos, pow2};
use vstd::prelude::*;

verus! {

/// A quotient that is rounded up is at most `i` where `i` times the divisor reaches the
/// dividend.
pub proof fn lemma_rounded_up(v: int, s: int, i: int)
    requires
        s > 0,
    ensures
        ceil_div(v, s) <= i <==> v <= i * s,
{
    lemma_ceil_div(v, s);
    let q = ceil_div(v, s);
    if q <= i {
        assert(v <= i * s) by (nonlinear_arith)
            requires
                v <= s * q,
                q <= i,
                s > 0,
        ;
    } else {
        assert(i * s < v) by (nonlinear_arith)
            requires
                s * (q - 1) < v,
                i <= q - 1,
                s > 0,
        ;
    }
}

/// A 32-bit coordinate stays one when it is divided.
proof fn lemma_divided(v: u32, s: int)
    requires
        s > 0,
    ensures
        0 <= ceil_div(v as int, s) <= u32::MAX,
{
    lemma_rounded_up(v as int, s, v as int);
    assert(v <= v * s) by (nonlinear_arith)
        requires
            v >= 0,
            s >= 1,
    ;
    lemma_ceil_div(v as int, s);
}

/// A component's sample `(i, j)` lies in a rectangle where the reference-grid point that
/// it samples does: the point at `i` and `j` times the sub-sampling factors.
pub proof fn lemma_sample_positions(s: SizView, rect: Rect, comp: int, i: int, j: int)
    requires
        s.has_component(comp),
    ensures
        s.sampled(rect, comp).contains(i, j) <==> rect.contains(
            i * s.components[comp].x_sampling,
            j * s.components[comp].y_sampling,
        ),
{
    let c = s.components[comp];
    let (dx, dy) = (c.x_sampling as int, c.y_sampling as int);
    lemma_divided(rect.x0, dx);
    lemma_divided(rect.x1, dx);
    lemma_divided(rect.y0, dy);
    lemma_divided(rect.y1, dy);
    lemma_rounded_up(rect.x0 as int, dx, i);
    lemma_rounded_up(rect.x1 as int, dx, i);
    lemma_rounded_up(rect.y0 as int, dy, j);
    lemma_rounded_up(rect.y1 as int, dy, j);
}

/// A tile holds the samples of a component that it holds on the reference grid, and so
/// does the image.
pub proof fn lemma_tile_and_image_samples(s: SizView, index: int, comp: int, i: int, j: int)
    requires
        s.has_component(comp),
    ensures
        s.tile_component_rect(index, comp) is Some <==> s.tile_rect(index) is Some,
        s.tile_rect(index) matches Some(tile) ==> (s.tile_component_rect(
            index,
            comp,
        ).unwrap().contains(i, j) <==> tile.contains(
            i * s.components[comp].x_sampling,
            j * s.components[comp].y_sampling,
        )),
        s.component_rect(comp) matches Some(whole) && (whole.contains(i, j) <==> (s.x_offset <= i
            * s.components[comp].x_sampling < s.x_size && s.y_offset <= j
            * s.components[comp].y_sampling < s.y_size)),
{
    lemma_sample_positions(s, s.image_rect(), comp, i, j);
    match s.tile_rect(index) {
        Some(tile) => {
            lemma_sample_positions(s, tile, comp, i, j);
        },
        None => {},
    }
}

/// A reduction keeps the samples whose coordinates are multiples of a power of two: the
/// reduced rectangle holds `(i, j)` where the rectangle holds their multiples.
pub proof fn lemma_reduction_keeps(rect: Rect, reduction: nat, i: int, j: int)
    requires
        reduction <= 32,
    ensures
        rect.reduced_spec(reduction).contains(i, j) <==> rect.contains(
            i * pow2(reduction),
            j * pow2(reduction),
        ),
{
    lemma_pow2_pos(reduction);
    let p = pow2(reduction) as int;
    lemma_divided(rect.x0, p);
    lemma_divided(rect.x1, p);
    lemma_divided(rect.y0, p);
    lemma_divided(rect.y1, p);
    lemma_rounded_up(rect.x0 as int, p, i);
    lemma_rounded_up(rect.x1 as int, p, i);
    lemma_rounded_up(rect.y0 as int, p, j);
    lemma_rounded_up(rect.y1 as int, p, j);
}

/// The tile of an axis that a point lies in.
proof fn lemma_point_on_axis(origin: int, tile: int, low: int, high: int, v: int)
    requires
        0 <= origin <= low <= v < high,
        tile > 0,
    ensures
        ({
            let p = (v - origin) / tile;
            &&& 0 <= p < tiles_across(high, origin, tile)
            &&& origin + p * tile <= v < origin + (p + 1) * tile
        }),
{
    let p = (v - origin) / tile;
    lemma_fundamental_div_mod(v - origin, tile);
    lemma_mod_bound(v - origin, tile);
    vstd::arithmetic::div_mod::lemma_div_pos_is_pos(v - origin, tile);
    assert(p * tile == tile * p && (p + 1) * tile == tile * p + tile) by (nonlinear_arith);
    lemma_rounded_up(high - origin, tile, p);
}

/// Tiles are numbered along the rows of their grid, and the rows from the top: the tile
/// that holds a point of the image is the one whose row and column the point's distances
/// from the grid's origin say.
pub proof fn lemma_tile_of_a_point(s: SizView, x: int, y: int)
    requires
        grid_covers(s),
        s.x_offset <= x < s.x_size,
        s.y_offset <= y < s.y_size,
    ensures
        ({
            let across = s.tile_grid().0;
            let column = (x - s.tile_x_offset) / (s.tile_width as int);
            let row = (y - s.tile_y_offset) / (s.tile_height as int);
            let t = row * across + column;
            &&& 0 <= column < across
            &&& 0 <= t < s.num_tiles()
            &&& s.tile_rect(t) matches Some(r) && r.contains(x, y)
        }),
        s.tile_x_offset + (s.tile_grid().0 - 1) * s.tile_width < s.x_size <= s.tile_x_offset
            + s.tile_grid().0 * s.tile_width,
        s.tile_y_offset + (s.tile_grid().1 - 1) * s.tile_height < s.y_size <= s.tile_y_offset
            + s.tile_grid().1 * s.tile_height,
{
    let (across, down) = s.tile_grid();
    let (xo, tw) = (s.tile_x_offset as int, s.tile_width as int);
    let (yo, th) = (s.tile_y_offset as int, s.tile_height as int);
    let (column, row) = ((x - xo) / tw, (y - yo) / th);
    lemma_point_on_axis(xo, tw, s.x_offset as int, s.x_size as int, x);
    lemma_point_on_axis(yo, th, s.y_offset as int, s.y_size as int, y);
    lemma_rounded_up(s.x_size - xo, tw, across);
    lemma_rounded_up(s.x_size - xo, tw, across - 1);
    lemma_rounded_up(s.y_size - yo, th, down);
    lemma_rounded_up(s.y_size - yo, th, down - 1);
    let t = row * across + column;
    crate::math::lemma_index_bound(column, row, across, down);
    crate::tier1::lemma_row_column(column, row, across);
    lemma_tile_rect(s, t);
}

} // verus!
