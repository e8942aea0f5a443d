//! What the geometry promises: a resolution is its two halves on each axis,
//! code-blocks lie inside their bands, and the coded data of a tile is laid out as
//! the later stages need it.

use super::geometry::{
    band_of, band_span, block_exponent, cells, clip, first_cell, geoms_spec, groups_of,
    lemma_band_spans, lemma_cell_meets, lemma_cells_bound, lemma_grid_position,
    lemma_precinct_legal, precincts_legal, resolution_span, resolution_spec, ResolutionView, Span,
    MAX_CODE_BLOCKS, MAX_PRECINCTS,
};
use super::packet::BandStateView;
use super::tile::{all_geoms, coded_spec, packets_spec};
use super::{coded_band, subbands_spec, SubbandView};
use crate::codestream::markers::{CodingView, Rect, SizView};
use crate::codestream::{HeaderView, TileView};
use crate::error::Fault;
use crate::math::{
    ceil_div, lemma_ceil_div, lemma_ceil_div_mono, lemma_ceil_div_twice, lemma_ceil_div_unique,
};
use crate::tier1::{block_inside, coded_wf, component_wf, subband_wf};
use vstd::arithmetic::power2::{
    lemma2_to64, lemma_pow2_adds, lemma_pow2_pos, lemma_pow2_strictly_increases, lemma_pow2_unfold,
    pow2,
};
use vstd::prelude::*;

verus! {

/// One axis of a resolution splits into its low-pass and high-pass halves: the
/// next coarser resolution starts at half the origin rounded up, the detail band
/// at half of it rounded down, and so the two origins add up to the resolution's.
/// The ends do too.
pub proof fn lemma_axis_halves(lo: int, hi: int, level: nat)
    ensures
        ({
            let whole = resolution_span(lo, hi, level);
            let low = resolution_span(lo, hi, level + 1);
            let high = band_span(lo, hi, level + 1, true);
            &&& low.lo == (whole.lo + 1) / 2
            &&& high.lo == whole.lo / 2
            &&& low.hi == (whole.hi + 1) / 2
            &&& high.hi == whole.hi / 2
            &&& low.lo + high.lo == whole.lo
            &&& low.hi + high.hi == whole.hi
        }),
        band_span(lo, hi, level + 1, false) == resolution_span(lo, hi, level + 1),
{
    lemma_halves(lo, level);
    lemma_halves(hi, level);
}

/// A coordinate's low-pass and high-pass halves.
proof fn lemma_halves(v: int, level: nat)
    ensures
        ceil_div(v, pow2(level + 1) as int) == (ceil_div(v, pow2(level) as int) + 1) / 2,
        ceil_div(v - pow2(level), pow2(level + 1) as int) == ceil_div(v, pow2(level) as int) / 2,
{
    let p = pow2(level) as int;
    let u = ceil_div(v, p);
    lemma_pow2_pos(level);
    lemma_pow2_unfold(level + 1);
    assert(pow2(level + 1) == p * 2);
    lemma_ceil_div_twice(v, p, 2);
    assert(ceil_div(u, 2) == (u + 1) / 2);
    lemma_ceil_div(v, p);
    assert(p * (u - 2) == p * (u - 1) - p) by (nonlinear_arith);
    assert(p * (u - 1) == p * u - p) by (nonlinear_arith);
    lemma_ceil_div_unique(v - p, p, u - 1);
    lemma_ceil_div_twice(v - p, p, 2);
    assert(ceil_div(u - 1, 2) == u / 2);
}

/// A span on a coarser grid is no longer, and no less than empty.
pub proof fn lemma_coarser_extent(lo: int, hi: int, off: int, p: int)
    requires
        lo <= hi,
        p > 0,
    ensures
        ceil_div(lo - off, p) <= ceil_div(hi - off, p),
        ceil_div(hi - off, p) - ceil_div(lo - off, p) <= hi - lo,
{
    lemma_ceil_div_mono(lo - off, hi - off, p);
    lemma_ceil_div(lo - off, p);
    lemma_ceil_div(hi - off, p);
    let a = ceil_div(lo - off, p);
    let b = ceil_div(hi - off, p);
    assert(b - a <= hi - lo) by (nonlinear_arith)
        requires
            lo - off <= p * a,
            p * (b - 1) < hi - off,
            p >= 1,
            lo <= hi,
    ;
}

/// The horizontal span of band `i` of resolution `r`.
pub open spec fn band_x(tc: Rect, coding: CodingView, r: nat, i: int) -> Span {
    let level = (coding.decomposition_levels - r) as nat;
    if r == 0 {
        resolution_span(tc.x0 as int, tc.x1 as int, level)
    } else {
        band_span(tc.x0 as int, tc.x1 as int, level + 1, i != 1)
    }
}

/// The vertical span of band `i` of resolution `r`.
pub open spec fn band_y(tc: Rect, coding: CodingView, r: nat, i: int) -> Span {
    let level = (coding.decomposition_levels - r) as nat;
    if r == 0 {
        resolution_span(tc.y0 as int, tc.y1 as int, level)
    } else {
        band_span(tc.y0 as int, tc.y1 as int, level + 1, i != 0)
    }
}

/// A tile-component whose samples the decode guard admits.
pub open spec fn admitted(tc: Rect) -> bool {
    &&& tc.x0 <= tc.x1
    &&& tc.y0 <= tc.y1
    &&& tc.x1 - tc.x0 <= 0x400_0000
    &&& tc.y1 - tc.y0 <= 0x400_0000
    &&& (tc.x1 - tc.x0) * (tc.y1 - tc.y0) <= 0x400_0000
}

/// Coordinates and extents of a band.
proof fn lemma_band_extent(tc: Rect, coding: CodingView, r: nat, i: int)
    requires
        admitted(tc),
        r <= coding.decomposition_levels <= 32,
    ensures
        ({
            let (x, y) = (band_x(tc, coding, r, i), band_y(tc, coding, r, i));
            &&& 0 <= x.lo <= x.hi <= u32::MAX
            &&& 0 <= y.lo <= y.hi <= u32::MAX
            &&& x.hi - x.lo <= tc.x1 - tc.x0
            &&& y.hi - y.lo <= tc.y1 - tc.y0
            &&& (x.hi - x.lo) * (y.hi - y.lo) <= 0x400_0000
        }),
{
    let level = (coding.decomposition_levels - r) as nat;
    let (x, y) = (band_x(tc, coding, r, i), band_y(tc, coding, r, i));
    lemma_band_spans(tc, coding, r, i);
    lemma_pow2_pos(level);
    lemma_pow2_pos(level + 1);
    let off = pow2(level) as int;
    if r == 0 {
        lemma_coarser_extent(tc.x0 as int, tc.x1 as int, 0, pow2(level) as int);
        lemma_coarser_extent(tc.y0 as int, tc.y1 as int, 0, pow2(level) as int);
    } else {
        let p = pow2(level + 1) as int;
        lemma_coarser_extent(tc.x0 as int, tc.x1 as int, if i != 1 { off } else { 0 }, p);
        lemma_coarser_extent(tc.y0 as int, tc.y1 as int, if i != 0 { off } else { 0 }, p);
    }
    assert((x.hi - x.lo) * (y.hi - y.lo) <= (tc.x1 - tc.x0) * (tc.y1 - tc.y0)) by (nonlinear_arith)
        requires
            0 <= x.hi - x.lo <= tc.x1 - tc.x0,
            0 <= y.hi - y.lo <= tc.y1 - tc.y0,
    ;
}

/// Band `i` of resolution `r` has the extent and the origin of its spans, and its
/// code-blocks lie inside it.
pub proof fn lemma_band_layout(tc: Rect, coding: CodingView, r: nat, i: int)
    requires
        admitted(tc),
        precincts_legal(coding),
        r <= coding.decomposition_levels <= 32,
        coding.code_block_width + coding.code_block_height <= 8,
    ensures
        ({
            let b = band_of(tc, coding, r, i);
            let (x, y) = (band_x(tc, coding, r, i), band_y(tc, coding, r, i));
            &&& b.width == x.hi - x.lo
            &&& b.height == y.hi - y.lo
            &&& b.origin == (x.lo as u32, y.lo as u32)
            &&& b.width * b.height <= 0x400_0000
            &&& forall|k: int|
                0 <= k < b.blocks.len() ==> {
                    let (bx, by, bw, bh) = #[trigger] b.blocks[k];
                    &&& bx + bw <= b.width
                    &&& by + bh <= b.height
                    &&& bw > 0
                    &&& bh > 0
                    &&& bw * bh <= 4096
                }
        }),
{
    let b = band_of(tc, coding, r, i);
    let (x, y) = (band_x(tc, coding, r, i), band_y(tc, coding, r, i));
    lemma_band_extent(tc, coding, r, i);
    lemma_precinct_legal(coding, r as int);
    let g = groups_of(tc, coding, r);
    let xcb = block_exponent(coding.code_block_width, g.x_exp);
    let ycb = block_exponent(coding.code_block_height, g.y_exp);
    let cbw = pow2(xcb) as int;
    let cbh = pow2(ycb) as int;
    lemma_pow2_pos(xcb);
    lemma_pow2_pos(ycb);
    assert(cbw * cbh <= 4096) by {
        lemma_pow2_adds(xcb, ycb);
        lemma2_to64();
        if xcb + ycb < 12 {
            lemma_pow2_strictly_increases(xcb + ycb, 12);
        }
    }
    lemma_cells_bound(x, cbw);
    lemma_cells_bound(y, cbh);
    let (cols, rows) = (cells(x, cbw), cells(y, cbh));
    assert(cols * rows >= 0) by (nonlinear_arith)
        requires
            cols >= 0,
            rows >= 0,
    ;
    assert forall|k: int| 0 <= k < b.blocks.len() implies {
        let (bx, by, bw, bh) = #[trigger] b.blocks[k];
        &&& bx + bw <= b.width
        &&& by + bh <= b.height
        &&& bw > 0
        &&& bh > 0
        &&& bw * bh <= 4096
    } by {
        lemma_grid_position(k, cols, rows);
        lemma_cell_meets(x, cbw, k % cols);
        lemma_cell_meets(y, cbh, k / cols);
        let cx = clip(x, first_cell(x, cbw) + k % cols, cbw);
        let cy = clip(y, first_cell(y, cbh) + k / cols, cbh);
        assert((cx.hi - cx.lo) * (cy.hi - cy.lo) <= cbw * cbh) by (nonlinear_arith)
            requires
                0 <= cx.hi - cx.lo <= cbw,
                0 <= cy.hi - cy.lo <= cbh,
        ;
    }
}

/// The band of a resolution and its state make a well-formed subband.
proof fn lemma_coded_band_wf(tc: Rect, coding: CodingView, r: nat, i: int, s: BandStateView)
    requires
        admitted(tc),
        precincts_legal(coding),
        r <= coding.decomposition_levels <= 32,
        coding.code_block_width + coding.code_block_height <= 8,
    ensures
        subband_wf(coded_band(band_of(tc, coding, r, i), s)),
{
    lemma_band_layout(tc, coding, r, i);
    let b = band_of(tc, coding, r, i);
    let sb = coded_band(b, s);
    assert forall|k: int| 0 <= k < sb.blocks.len() implies block_inside(
        #[trigger] sb.blocks[k],
        sb,
    ) by {
        let (bx, by, bw, bh) = b.blocks[k];
        assert(bw <= 4096 && bh <= 4096) by (nonlinear_arith)
            requires
                bw * bh <= 4096,
                bw > 0,
                bh > 0,
        ;
    }
}

/// Every component's rectangle in a tile is one that the decode guard admits.
pub open spec fn tile_admitted(siz: SizView, tile: int) -> bool {
    forall|c: int|
        0 <= c < siz.components.len() ==> (#[trigger] siz.tile_component_rect(tile, c) matches Some(
            tc,
        ) ==> admitted(tc))
}

/// The resolutions of component `c` of a tile.
pub open spec fn component_geoms(h: HeaderView, tile: int, c: int) -> Seq<ResolutionView> {
    let tc = h.siz.tile_component_rect(tile, c).unwrap();
    let coding = h.components[c].coding;
    Seq::new(coding.decomposition_levels as nat + 1, |r: int| resolution_spec(tc, coding, r as nat))
}

/// Component `c` of a tile has a rectangle, and its coding is one that the
/// geometry accepts.
pub open spec fn component_ready(h: HeaderView, tile: int, c: int) -> bool {
    &&& 0 <= c < h.components.len()
    &&& h.siz.tile_component_rect(tile, c) is Some
    &&& h.components[c].coding.decomposition_levels <= 32
    &&& h.components[c].coding.code_block_width + h.components[c].coding.code_block_height <= 8
}

/// The geometry of every component, once it is accepted.
#[verifier::spinoff_prover]
pub proof fn lemma_all_geoms(h: HeaderView, tile: int, c: int, pb: int, bb: int)
    requires
        0 <= c <= h.siz.components.len(),
    ensures
        all_geoms(h, tile, c, pb, bb) matches Ok(geoms) ==> {
            &&& geoms.len() == h.siz.components.len() - c
            &&& forall|k: int|
                0 <= k < geoms.len() ==> (#[trigger] geoms[k]) == component_geoms(h, tile, c + k)
                    && component_ready(h, tile, c + k)
        },
    decreases h.siz.components.len() - c,
{
    if c < h.siz.components.len() {
        match geoms_spec(h, tile, c, pb, bb) {
            Ok(geoms) => {
                let tc = h.siz.tile_component_rect(tile, c).unwrap();
                let coding = h.components[c].coding;
                let count = coding.decomposition_levels as nat + 1;
                let pb2 = pb - super::geometry::precincts_below(tc, coding, count);
                let bb2 = bb - super::geometry::blocks_below(tc, coding, count, 0);
                lemma_all_geoms(h, tile, c + 1, pb2, bb2);
                assert(geoms =~= component_geoms(h, tile, c));
                match all_geoms(h, tile, c + 1, pb2, bb2) {
                    Ok(rest) => {
                        let all = seq![geoms] + rest;
                        assert forall|k: int| 0 <= k < all.len() implies (#[trigger] all[k])
                            == component_geoms(h, tile, c + k) && component_ready(
                            h,
                            tile,
                            c + k,
                        ) by {
                            if k > 0 {
                                assert(all[k] == rest[k - 1]);
                                assert(c + 1 + (k - 1) == c + k);
                            } else {
                                assert(all[0] == geoms);
                                assert(component_ready(h, tile, c));
                            }
                        }
                        assert(all_geoms(h, tile, c, pb, bb) == Ok::<
                            Seq<Seq<ResolutionView>>,
                            Fault,
                        >(all));
                    },
                    Err(e) => {
                        assert(all_geoms(h, tile, c, pb, bb) == Err::<
                            Seq<Seq<ResolutionView>>,
                            Fault,
                        >(e));
                    },
                }
            },
            Err(e) => {
                assert(all_geoms(h, tile, c, pb, bb) == Err::<Seq<Seq<ResolutionView>>, Fault>(e));
            },
        }
    } else {
        assert(all_geoms(h, tile, c, pb, bb) == Ok::<Seq<Seq<ResolutionView>>, Fault>(
            Seq::empty(),
        ));
    }
}

/// A coded tile: every component has the subbands of its geometry, in some state.
pub open spec fn laid_out(h: HeaderView, tile: int, coded: Seq<Seq<Seq<SubbandView>>>) -> bool {
    &&& coded.len() == h.siz.components.len()
    &&& forall|c: int| 0 <= c < coded.len() ==> component_laid_out(h, tile, c, #[trigger] coded[c])
}

/// A component's coded data has the subbands of its geometry, in some state.
pub open spec fn component_laid_out(
    h: HeaderView,
    tile: int,
    c: int,
    coded: Seq<Seq<SubbandView>>,
) -> bool {
    let geoms = component_geoms(h, tile, c);
    &&& component_ready(h, tile, c)
    &&& coded.len() == geoms.len()
    &&& forall|r: int| 0 <= r < coded.len() ==> resolution_laid_out(geoms[r], #[trigger] coded[r])
}

/// A resolution's coded data has the subbands of its geometry, in some state.
pub open spec fn resolution_laid_out(g: ResolutionView, coded: Seq<SubbandView>) -> bool {
    exists|s: Seq<BandStateView>| coded == #[trigger] subbands_spec(g.bands, s)
}

/// What a tile's packets decode to is laid out by the tile's geometry.
pub proof fn lemma_packets_laid_out(h: HeaderView, tile: TileView)
    ensures
        packets_spec(h, tile) matches Ok(coded) ==> laid_out(h, tile.index as int, coded),
{
    lemma_all_geoms(h, tile.index as int, 0, MAX_PRECINCTS as int, MAX_CODE_BLOCKS as int);
    match packets_spec(h, tile) {
        Ok(coded) => {
            let t = tile.index as int;
            let geoms = all_geoms(
                h,
                t,
                0,
                MAX_PRECINCTS as int,
                MAX_CODE_BLOCKS as int,
            )->Ok_0;
            assert(exists|states: Seq<Seq<Seq<BandStateView>>>|
                coded == #[trigger] coded_spec(geoms, states));
            let states = choose|states: Seq<Seq<Seq<BandStateView>>>|
                coded == #[trigger] coded_spec(geoms, states);
            assert forall|c: int| 0 <= c < coded.len() implies component_laid_out(
                h,
                t,
                c,
                #[trigger] coded[c],
            ) by {
                assert(geoms[c] == component_geoms(h, t, c));
                assert forall|r: int| 0 <= r < coded[c].len() implies resolution_laid_out(
                    component_geoms(h, t, c)[r],
                    #[trigger] coded[c][r],
                ) by {
                    assert(coded[c][r] == subbands_spec(geoms[c][r].bands, states[c][r]));
                }
            }
        },
        Err(_) => {},
    }
}

/// Coded data laid out by a tile's geometry is well formed.
pub proof fn lemma_laid_out_wf(h: HeaderView, tile: int, coded: Seq<Seq<Seq<SubbandView>>>)
    requires
        laid_out(h, tile, coded),
        super::geometry::header_legal(h),
        tile_admitted(h.siz, tile),
    ensures
        coded_wf(coded),
        forall|c: int| 0 <= c < coded.len() ==> (#[trigger] coded[c]).len() <= 33,
{
    assert forall|c: int| 0 <= c < coded.len() implies component_wf(#[trigger] coded[c])
        && coded[c].len() <= 33 by {
        assert(component_laid_out(h, tile, c, coded[c]));
        let tc = h.siz.tile_component_rect(tile, c).unwrap();
        let coding = h.components[c].coding;
        let geoms = component_geoms(h, tile, c);
        assert forall|r: int, i: int|
            0 <= r < coded[c].len() && 0 <= i < coded[c][r].len() implies subband_wf(
            #[trigger] coded[c][r][i],
        ) by {
            assert(resolution_laid_out(geoms[r], coded[c][r]));
            let s = choose|s: Seq<BandStateView>|
                coded[c][r] == #[trigger] subbands_spec(geoms[r].bands, s);
            assert(geoms[r].bands[i] == band_of(tc, coding, r as nat, i));
            lemma_coded_band_wf(tc, coding, r as nat, i, s[i]);
        }
    }
}

} // verus!
