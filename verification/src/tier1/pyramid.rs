//! The coefficients of a tile-component form a pyramid that the inverse wavelet
//! can merge: every band has the place and the extent that the geometry gives it,
//! and every level splits the resolution that it completes.

use super::{
    assemble_spec, block_coeffs, blocks_from, code_blocks_spec, component_spec, detail_spec,
    find_band, kept_levels, kind_spec, levels_spec, numbps_spec, placed,
};
use crate::codestream::markers::{CodingView, Rect};
use crate::codestream::HeaderView;
use crate::dwt::{level_fits, level_origin, low_count, merged, merged_from, parity, pyramid_fits};
use crate::math::max_int;
use crate::pipeline::{BandsView, CoeffsView, DetailView, GridView};
use crate::tier1::decode::BlockParams;
use crate::tier2::geometry::{
    band_count, band_of, header_legal, precincts_legal, resolution_span, Span,
};
use crate::tier2::layout::{
    admitted, band_x, band_y, component_geoms, component_laid_out, laid_out, lemma_axis_halves,
    lemma_band_layout, resolution_laid_out, tile_admitted,
};
use crate::tier2::packet::BandStateView;
use crate::tier2::{coded_band, subbands_spec, BandKind, SubbandView};
use vstd::arithmetic::power2::pow2;
use vstd::prelude::*;

verus! {

/// A grid covers `x` by `y`.
pub open spec fn covers(g: GridView<i32>, x: Span, y: Span) -> bool {
    &&& g.wf()
    &&& g.width == x.hi - x.lo
    &&& g.height == y.hi - y.lo
    &&& g.origin == (x.lo as u32, y.lo as u32)
}

/// Resolution `r`'s horizontal span.
pub open spec fn res_x(tc: Rect, coding: CodingView, r: nat) -> Span {
    resolution_span(tc.x0 as int, tc.x1 as int, (coding.decomposition_levels - r) as nat)
}

/// Resolution `r`'s vertical span.
pub open spec fn res_y(tc: Rect, coding: CodingView, r: nat) -> Span {
    resolution_span(tc.y0 as int, tc.y1 as int, (coding.decomposition_levels - r) as nat)
}

/// The detail bands of resolution `r` cover what the geometry gives them.
pub open spec fn details_cover(d: DetailView<i32>, tc: Rect, coding: CodingView, r: nat) -> bool {
    &&& covers(d.hl, band_x(tc, coding, r, 0), band_y(tc, coding, r, 0))
    &&& covers(d.lh, band_x(tc, coding, r, 1), band_y(tc, coding, r, 1))
    &&& covers(d.hh, band_x(tc, coding, r, 2), band_y(tc, coding, r, 2))
}

/// Decoding blocks into a band keeps its sample count.
proof fn lemma_blocks_keep(
    data: Seq<i32>,
    sb: SubbandView,
    numbps: nat,
    params: BlockParams,
    reversible: bool,
    i: int,
)
    ensures
        blocks_from(data, sb, numbps, params, reversible, i) matches Ok(d) ==> d.len()
            == data.len(),
    decreases sb.blocks.len() - i,
{
    if 0 <= i < sb.blocks.len() {
        let b = sb.blocks[i];
        if b.num_passes == 0 {
            lemma_blocks_keep(data, sb, numbps, params, reversible, i + 1);
        } else {
            match block_coeffs(b, sb.kind, numbps, params) {
                Ok(block) => {
                    lemma_blocks_keep(
                        placed(data, sb.width as int, b, block.coeffs, reversible),
                        sb,
                        numbps,
                        params,
                        reversible,
                        i + 1,
                    );
                },
                Err(_) => {},
            }
        }
    }
}

/// Which band of a resolution has an orientation.
pub open spec fn band_index(kind: BandKind) -> int {
    match kind {
        BandKind::Ll => 0,
        BandKind::Hl => 0,
        BandKind::Lh => 1,
        BandKind::Hh => 2,
    }
}

/// A decoded band covers what the geometry gives it.
proof fn lemma_kind_covers(
    h: HeaderView,
    comp: int,
    tc: Rect,
    r: nat,
    res: Seq<SubbandView>,
    s: Seq<BandStateView>,
    kind: BandKind,
    band: int,
)
    requires
        admitted(tc),
        ({
            let coding = h.components[comp].coding;
            &&& precincts_legal(coding)
            &&& r <= coding.decomposition_levels <= 32
            &&& coding.code_block_width + coding.code_block_height <= 8
            &&& res == subbands_spec(
                Seq::new(band_count(r), |i: int| band_of(tc, coding, r, i)),
                s,
            )
        }),
        (r == 0) == (kind == BandKind::Ll),
    ensures
        kind_spec(h, comp, res, kind, band) matches Ok(g) ==> covers(
            g,
            band_x(tc, h.components[comp].coding, r, band_index(kind)),
            band_y(tc, h.components[comp].coding, r, band_index(kind)),
        ),
{
    let coding = h.components[comp].coding;
    let i = band_index(kind);
    lemma_band_layout(tc, coding, r, i);
    reveal_with_fuel(find_band, 4);
    assert(res[i] == coded_band(band_of(tc, coding, r, i), s[i]));
    assert(res[0] == coded_band(band_of(tc, coding, r, 0), s[0]));
    if r > 0 {
        assert(res[1] == coded_band(band_of(tc, coding, r, 1), s[1]));
        assert(res[2] == coded_band(band_of(tc, coding, r, 2), s[2]));
    }
    assert(find_band(res, kind, 0) == Some(res[i]));
    let params = BlockParams {
        style: coding.code_block_style,
        roi_shift: h.components[comp].roi_shift,
    };
    let reversible = coding.transform == crate::codestream::markers::Transform::Reversible53;
    match numbps_spec(h, comp, band) {
        Ok(n) => {
            let sb = res[i];
            lemma_blocks_keep(
                Seq::new(sb.width * sb.height, |k: int| 0i32),
                sb,
                n,
                params,
                reversible,
                0,
            );
        },
        Err(_) => {},
    }
}

/// One level merges onto the resolution below it and completes its own.
pub proof fn lemma_level_completes(
    ll: GridView<i32>,
    d: DetailView<i32>,
    tc: Rect,
    coding: CodingView,
    r: nat,
)
    requires
        admitted(tc),
        precincts_legal(coding),
        1 <= r <= coding.decomposition_levels <= 32,
        coding.code_block_width + coding.code_block_height <= 8,
        covers(ll, res_x(tc, coding, (r - 1) as nat), res_y(tc, coding, (r - 1) as nat)),
        details_cover(d, tc, coding, r),
    ensures
        level_fits(ll, d),
        covers(merged(ll, d), res_x(tc, coding, r), res_y(tc, coding, r)),
{
    let level = (coding.decomposition_levels - r) as nat;
    assert((coding.decomposition_levels - (r - 1)) as nat == level + 1);
    lemma_axis_halves(tc.x0 as int, tc.x1 as int, level);
    lemma_axis_halves(tc.y0 as int, tc.y1 as int, level);
    let (x, y) = (res_x(tc, coding, r), res_y(tc, coding, r));
    lemma_res_extent(tc, coding, r);
    lemma_res_extent(tc, coding, (r - 1) as nat);
    lemma_band_layout(tc, coding, r, 0);
    lemma_band_layout(tc, coding, r, 1);
    let w = ll.width + d.hl.width;
    let h = ll.height + d.lh.height;
    assert(w == x.hi - x.lo);
    assert(h == y.hi - y.lo);
    assert(level_origin(ll, d) == (x.lo as u32, y.lo as u32));
    assert(ll.width == low_count(w as int, parity(x.lo)));
    assert(ll.height == low_count(h as int, parity(y.lo)));
    assert(w * h <= 0x400_0000) by (nonlinear_arith)
        requires
            0 <= w <= tc.x1 - tc.x0,
            0 <= h <= tc.y1 - tc.y0,
            (tc.x1 - tc.x0) * (tc.y1 - tc.y0) <= 0x400_0000,
    ;
}

/// The coordinates and extents of a resolution.
proof fn lemma_res_extent(tc: Rect, coding: CodingView, r: nat)
    requires
        admitted(tc),
        r <= coding.decomposition_levels <= 32,
    ensures
        ({
            let (x, y) = (res_x(tc, coding, r), res_y(tc, coding, r));
            &&& 0 <= x.lo <= x.hi <= u32::MAX
            &&& 0 <= y.lo <= y.hi <= u32::MAX
            &&& x.hi - x.lo <= tc.x1 - tc.x0
            &&& y.hi - y.lo <= tc.y1 - tc.y0
        }),
{
    let level = (coding.decomposition_levels - r) as nat;
    crate::tier2::geometry::lemma_band_spans(tc, coding, r, 0);
    vstd::arithmetic::power2::lemma_pow2_pos(level);
    crate::tier2::layout::lemma_coarser_extent(tc.x0 as int, tc.x1 as int, 0, pow2(level) as int);
    crate::tier2::layout::lemma_coarser_extent(tc.y0 as int, tc.y1 as int, 0, pow2(level) as int);
}

/// A pyramid whose bands cover what the geometry gives them merges into the
/// resolution of its last level.
pub proof fn lemma_pyramid_completes(
    ll: GridView<i32>,
    levels: Seq<DetailView<i32>>,
    i: int,
    tc: Rect,
    coding: CodingView,
)
    requires
        admitted(tc),
        precincts_legal(coding),
        0 <= i <= levels.len() <= coding.decomposition_levels <= 32,
        coding.code_block_width + coding.code_block_height <= 8,
        covers(ll, res_x(tc, coding, i as nat), res_y(tc, coding, i as nat)),
        forall|k: int|
            i <= k < levels.len() ==> details_cover(
                #[trigger] levels[k],
                tc,
                coding,
                (k + 1) as nat,
            ),
    ensures
        pyramid_fits(ll, levels, i),
        covers(
            merged_from(ll, levels, i),
            res_x(tc, coding, levels.len()),
            res_y(tc, coding, levels.len()),
        ),
    decreases levels.len() - i,
{
    if i < levels.len() {
        assert(details_cover(levels[i], tc, coding, (i + 1) as nat));
        lemma_level_completes(ll, levels[i], tc, coding, (i + 1) as nat);
        lemma_pyramid_completes(merged(ll, levels[i]), levels, i + 1, tc, coding);
    }
}

/// The detail bands of a component cover what the geometry gives them.
proof fn lemma_levels_cover(
    h: HeaderView,
    tile: int,
    comp: int,
    coded: Seq<Seq<SubbandView>>,
    done: Seq<DetailView<i32>>,
    n: int,
)
    requires
        header_legal(h),
        tile_admitted(h.siz, tile),
        0 <= comp < h.siz.components.len(),
        component_laid_out(h, tile, comp, coded),
        n < coded.len(),
        forall|k: int|
            0 <= k < done.len() ==> details_cover(
                #[trigger] done[k],
                h.siz.tile_component_rect(tile, comp).unwrap(),
                h.components[comp].coding,
                (k + 1) as nat,
            ),
    ensures
        levels_spec(h, comp, coded, done, n) matches Ok(levels) ==> {
            &&& levels.len() == max_int(n, done.len() as int)
            &&& forall|k: int|
                0 <= k < levels.len() ==> details_cover(
                    #[trigger] levels[k],
                    h.siz.tile_component_rect(tile, comp).unwrap(),
                    h.components[comp].coding,
                    (k + 1) as nat,
                )
        },
    decreases n - done.len(),
{
    if done.len() < n {
        let level = done.len() as int;
        let r = (level + 1) as nat;
        let coding = h.components[comp].coding;
        assert(h.siz.tile_component_rect(tile, comp) is Some);
        let tc = h.siz.tile_component_rect(tile, comp).unwrap();
        let geoms = component_geoms(h, tile, comp);
        let res = coded[level + 1];
        assert(resolution_laid_out(geoms[level + 1], res));
        let s = choose|s: Seq<BandStateView>|
            res == #[trigger] subbands_spec(geoms[level + 1].bands, s);
        let base = 1 + level * 3;
        lemma_kind_covers(h, comp, tc, r, res, s, BandKind::Hl, base);
        lemma_kind_covers(h, comp, tc, r, res, s, BandKind::Lh, base + 1);
        lemma_kind_covers(h, comp, tc, r, res, s, BandKind::Hh, base + 2);
        match detail_spec(h, comp, res, level) {
            Ok(d) => {
                assert(details_cover(d, tc, coding, r));
                lemma_levels_cover(h, tile, comp, coded, done.push(d), n);
            },
            Err(_) => {},
        }
    }
}

/// What the samples of a component of a tile look like once its pyramid is
/// merged: they fill the rectangle of the resolution that the reduction keeps.
pub open spec fn mergeable(b: BandsView<i32>, tc: Rect, coding: CodingView, reduction: nat) -> bool {
    let r = max_int(0, coding.decomposition_levels - reduction) as nat;
    &&& pyramid_fits(b.ll, b.levels, 0)
    &&& covers(merged_from(b.ll, b.levels, 0), res_x(tc, coding, r), res_y(tc, coding, r))
}

/// The pyramid of a component of a tile can be merged, and fills the resolution
/// that the reduction keeps.
pub proof fn lemma_component_mergeable(
    h: HeaderView,
    tile: int,
    comp: int,
    coded: Seq<Seq<SubbandView>>,
    reduction: nat,
)
    requires
        header_legal(h),
        tile_admitted(h.siz, tile),
        0 <= comp < h.siz.components.len(),
        component_laid_out(h, tile, comp, coded),
    ensures
        assemble_spec(h, comp, coded, reduction) matches Ok(b) ==> mergeable(
            b,
            h.siz.tile_component_rect(tile, comp).unwrap(),
            h.components[comp].coding,
            reduction,
        ),
{
    let coding = h.components[comp].coding;
    assert(h.siz.tile_component_rect(tile, comp) is Some);
    let tc = h.siz.tile_component_rect(tile, comp).unwrap();
    let geoms = component_geoms(h, tile, comp);
    assert(resolution_laid_out(geoms[0], coded[0]));
    let s = choose|s: Seq<BandStateView>| coded[0] == #[trigger] subbands_spec(geoms[0].bands, s);
    lemma_kind_covers(h, comp, tc, 0, coded[0], s, BandKind::Ll, 0);
    let n = kept_levels(coded.len(), reduction);
    lemma_levels_cover(h, tile, comp, coded, Seq::empty(), n);
    match assemble_spec(h, comp, coded, reduction) {
        Ok(b) => {
            lemma_pyramid_completes(b.ll, b.levels, 0, tc, coding);
        },
        Err(_) => {},
    }
}

/// The coefficients of every component of a tile: as many as there are
/// components, each for its component's wavelet and mergeable.
pub open spec fn all_mergeable(
    h: HeaderView,
    tile: int,
    coeffs: Seq<CoeffsView>,
    reduction: nat,
) -> bool {
    forall|c: int|
        0 <= c < coeffs.len() ==> (match #[trigger] coeffs[c] {
            CoeffsView::Reversible(b) => mergeable(
                b,
                h.siz.tile_component_rect(tile, c).unwrap(),
                h.components[c].coding,
                reduction,
            ),
            CoeffsView::Irreversible(b) => mergeable(
                b,
                h.siz.tile_component_rect(tile, c).unwrap(),
                h.components[c].coding,
                reduction,
            ),
        })
}

/// The coefficients of a laid-out tile can be merged.
pub proof fn lemma_coeffs_mergeable(
    h: HeaderView,
    tile: int,
    coded: Seq<Seq<Seq<SubbandView>>>,
    reduction: nat,
    done: Seq<CoeffsView>,
)
    requires
        header_legal(h),
        tile_admitted(h.siz, tile),
        laid_out(h, tile, coded),
        all_mergeable(h, tile, done, reduction),
        done.len() <= coded.len(),
    ensures
        code_blocks_spec(h, coded, reduction, done) matches Ok(coeffs) ==> {
            &&& coeffs.len() == coded.len()
            &&& all_mergeable(h, tile, coeffs, reduction)
        },
    decreases coded.len() - done.len(),
{
    if done.len() < coded.len() {
        let comp = done.len() as int;
        assert(component_laid_out(h, tile, comp, coded[comp]));
        lemma_component_mergeable(h, tile, comp, coded[comp], reduction);
        match component_spec(h, comp, coded[comp], reduction) {
            Ok(c) => {
                lemma_coeffs_mergeable(h, tile, coded, reduction, done.push(c));
            },
            Err(_) => {},
        }
    }
}

} // verus!
