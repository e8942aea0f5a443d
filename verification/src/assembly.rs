//! What a decode promises from end to end: every tile fills exactly its own part
//! of the canvas, a reversible codestream decodes without waiting for anything,
//! and every sample of the image is that of the one tile that covers it.

use crate::codestream::grid::{
    grid_legal, lemma_tile_admitted, lemma_tile_inside, lemma_tiles_partition, tile_cell,
};
use crate::codestream::legal::{decodable, lemma_parsed_decodable, tile_decodable};
use crate::codestream::markers::{reduce, Rect, SizView, Transform};
use crate::codestream::resolve::resolve_spec;
use crate::codestream::{parse_spec, CodestreamView, HeaderView, TileView};
use crate::decoder::{
    decode_spec, exhausts, lossy_below, place_from, place_spec, plane_of, run_from, samples_from,
    tile_samples, DecodedView,
};
use crate::dwt::inverse_spec;
use crate::error::Fault;
use crate::image::{
    area_of, assemble_spec, blitted, component_spec, components_from, high_of, inside, low_of,
    shifted, CanvasView, ComponentView, ImageView,
};
use crate::math::{lemma_ceil_div, lemma_index_bound};
use crate::mct::rct_spec;
use crate::pipeline::{CoeffsView, SamplesView};
use crate::tier1::pyramid::{
    all_mergeable, covers, lemma_coeffs_mergeable, mergeable, res_x, res_y,
};
use crate::tier1::{code_blocks_spec, lemma_row_column};
use crate::tier2::geometry::header_legal;
use crate::tier2::layout::{laid_out, lemma_packets_laid_out, tile_admitted};
use crate::tier2::{packets_spec, SubbandView};
use vstd::arithmetic::power2::{lemma_pow2_pos, pow2};
use vstd::prelude::*;

verus! {

/// Every component's coefficients are those of its wavelet.
pub open spec fn of_their_wavelet(h: HeaderView, coeffs: Seq<CoeffsView>) -> bool {
    forall|c: int|
        0 <= c < coeffs.len() ==> ((#[trigger] coeffs[c]) is Reversible)
            == (h.components[c].coding.transform == Transform::Reversible53)
}

/// A component's wavelet decides which coefficients it has.
proof fn lemma_wavelets(
    h: HeaderView,
    coded: Seq<Seq<Seq<SubbandView>>>,
    reduction: nat,
    done: Seq<CoeffsView>,
)
    requires
        of_their_wavelet(h, done),
    ensures
        code_blocks_spec(h, coded, reduction, done) matches Ok(coeffs) ==> of_their_wavelet(
            h,
            coeffs,
        ),
    decreases coded.len() - done.len(),
{
    if done.len() < coded.len() {
        let comp = done.len() as int;
        match crate::tier1::component_spec(h, comp, coded[comp], reduction) {
            Ok(c) => {
                lemma_wavelets(h, coded, reduction, done.push(c));
            },
            Err(_) => {},
        }
    }
}

/// Every component of a tile is inverse-transformed by itself.
proof fn lemma_samples_from(h: HeaderView, coeffs: Seq<CoeffsView>, done: Seq<SamplesView>)
    requires
        done.len() <= coeffs.len(),
        forall|c: int|
            0 <= c < done.len() ==> inverse_spec(h, c, coeffs[c]) == Ok::<SamplesView, Fault>(
                #[trigger] done[c],
            ),
    ensures
        samples_from(h, coeffs, done) matches Ok(samples) ==> {
            &&& samples.len() == coeffs.len()
            &&& forall|c: int|
                0 <= c < samples.len() ==> inverse_spec(h, c, coeffs[c]) == Ok::<
                    SamplesView,
                    Fault,
                >(#[trigger] samples[c])
        },
    decreases coeffs.len() - done.len(),
{
    if done.len() < coeffs.len() {
        let c = done.len() as int;
        match inverse_spec(h, c, coeffs[c]) {
            Ok(s) => {
                lemma_samples_from(h, coeffs, done.push(s));
            },
            Err(_) => {},
        }
    }
}

/// A component's samples fill its part of the tile at the reduction: one integer
/// sample for each of its positions, or a pyramid that merges into them.
pub open spec fn fills(
    h: HeaderView,
    tile: int,
    reduction: nat,
    c: int,
    samples: SamplesView,
) -> bool {
    match samples {
        SamplesView::Reversible(v) => {
            &&& h.components[c].coding.transform == Transform::Reversible53
            &&& v.len() == area_of(tile_cell(h.siz, tile, c, reduction))
        },
        SamplesView::Irreversible(b, _) => {
            &&& h.components[c].coding.transform == Transform::Irreversible97
            &&& mergeable(
                b,
                h.siz.tile_component_rect(tile, c).unwrap(),
                h.components[c].coding,
                reduction,
            )
        },
    }
}

/// Every component of a tile fills its part.
pub open spec fn tile_filled(
    h: HeaderView,
    tile: int,
    reduction: nat,
    samples: Seq<SamplesView>,
) -> bool {
    &&& samples.len() == h.siz.components.len()
    &&& forall|c: int|
        0 <= c < samples.len() ==> fills(h, tile, reduction, c, #[trigger] samples[c])
}

/// The bounds of a rectangle at a reduction.
pub proof fn lemma_reduced(r: Rect, reduction: nat)
    ensures
        r.reduced_spec(reduction).x0 == reduce(r.x0 as int, reduction),
        r.reduced_spec(reduction).x1 == reduce(r.x1 as int, reduction),
        r.reduced_spec(reduction).y0 == reduce(r.y0 as int, reduction),
        r.reduced_spec(reduction).y1 == reduce(r.y1 as int, reduction),
{
    lemma_reduced_bound(r.x0, reduction);
    lemma_reduced_bound(r.x1, reduction);
    lemma_reduced_bound(r.y0, reduction);
    lemma_reduced_bound(r.y1, reduction);
}

/// A reduced coordinate is a coordinate.
proof fn lemma_reduced_bound(v: u32, reduction: nat)
    ensures
        0 <= reduce(v as int, reduction) <= u32::MAX,
{
    let e = crate::math::min_int(reduction as int, 32) as nat;
    lemma_pow2_pos(e);
    let p = pow2(e) as int;
    lemma_ceil_div(v as int, p);
    let q = reduce(v as int, reduction);
    assert(q <= v) by (nonlinear_arith)
        requires
            p * (q - 1) < v,
            p >= 1,
            v >= 0,
    ;
}

/// A grid that covers the resolution that a reduction keeps holds as many samples
/// as the tile's part of the component at that reduction.
proof fn lemma_covered_area(h: HeaderView, tile: int, c: int, reduction: nat, b: crate::pipeline::BandsView<i32>)
    requires
        h.siz.tile_component_rect(tile, c) is Some,
        tile_admitted(h.siz, tile),
        h.siz.has_component(c),
        reduction <= h.components[c].coding.decomposition_levels <= 32,
        mergeable(
            b,
            h.siz.tile_component_rect(tile, c).unwrap(),
            h.components[c].coding,
            reduction,
        ),
    ensures
        crate::dwt::merged_from(b.ll, b.levels, 0).data.len() == area_of(
            tile_cell(h.siz, tile, c, reduction),
        ),
{
    let tc = h.siz.tile_component_rect(tile, c).unwrap();
    let coding = h.components[c].coding;
    let r = (coding.decomposition_levels - reduction) as nat;
    assert((coding.decomposition_levels - r) as nat == reduction);
    lemma_reduced(tc, reduction);
    let cell = tile_cell(h.siz, tile, c, reduction);
    let (x, y) = (res_x(tc, coding, r), res_y(tc, coding, r));
    assert(x.lo == cell.x0 && x.hi == cell.x1 && y.lo == cell.y0 && y.hi == cell.y1);
    let g = crate::dwt::merged_from(b.ll, b.levels, 0);
    assert(covers(g, x, y));
    assert(g.width == cell.width_spec() && g.height == cell.height_spec());
}

/// What a tile decodes to fills the tile: as many samples as its rectangle has at
/// the reduction, for every component.
pub proof fn lemma_tile_fills_its_part(h: HeaderView, tile: TileView, reduction: nat)
    requires
        header_legal(h),
        h.wf(),
        h.components.len() > 0,
        tile_admitted(h.siz, tile.index as int),
    ensures
        tile_samples(h, tile, reduction) matches Ok(samples) ==> tile_filled(
            h,
            tile.index as int,
            reduction,
            samples,
        ),
{
    reveal(tile_samples);
    let t = tile.index as int;
    lemma_packets_laid_out(h, tile);
    match packets_spec(h, tile) {
        Err(_) => {},
        Ok(coded) => {
            lemma_coeffs_mergeable(h, t, coded, reduction, Seq::empty());
            lemma_wavelets(h, coded, reduction, Seq::empty());
            match code_blocks_spec(h, coded, reduction, Seq::empty()) {
                Err(_) => {},
                Ok(coeffs) => {
                    lemma_samples_from(h, coeffs, Seq::empty());
                    match samples_from(h, coeffs, Seq::empty()) {
                        Err(_) => {},
                        Ok(samples) => {
                            if !exhausts(h, reduction) {
                                lemma_samples_fill(h, t, reduction, coded, coeffs, samples);
                                lemma_rct_fills(h, t, reduction, samples);
                            }
                        },
                    }
                },
            }
        },
    }
}

/// The inverse wavelet of every component fills its part of the tile.
proof fn lemma_samples_fill(
    h: HeaderView,
    t: int,
    reduction: nat,
    coded: Seq<Seq<Seq<SubbandView>>>,
    coeffs: Seq<CoeffsView>,
    samples: Seq<SamplesView>,
)
    requires
        h.wf(),
        tile_admitted(h.siz, t),
        laid_out(h, t, coded),
        !exhausts(h, reduction),
        coeffs.len() == coded.len() == samples.len(),
        all_mergeable(h, t, coeffs, reduction),
        of_their_wavelet(h, coeffs),
        forall|c: int|
            0 <= c < samples.len() ==> inverse_spec(h, c, coeffs[c]) == Ok::<
                SamplesView,
                Fault,
            >(#[trigger] samples[c]),
    ensures
        tile_filled(h, t, reduction, samples),
{
    assert forall|c: int| 0 <= c < samples.len() implies fills(
        h,
        t,
        reduction,
        c,
        #[trigger] samples[c],
    ) by {
        assert(inverse_spec(h, c, coeffs[c]) == Ok::<SamplesView, Fault>(samples[c]));
        assert(crate::tier2::layout::component_laid_out(h, t, c, coded[c]));
        assert(crate::tier2::layout::component_ready(h, t, c));
        assert(!(reduction > h.components[c].coding.decomposition_levels));
        match coeffs[c] {
            CoeffsView::Reversible(b) => {
                lemma_covered_area(h, t, c, reduction, b);
            },
            CoeffsView::Irreversible(b) => {},
        }
    }
}

/// The colour transform keeps every component's sample count.
proof fn lemma_rct_fills(h: HeaderView, t: int, reduction: nat, samples: Seq<SamplesView>)
    requires
        tile_filled(h, t, reduction, samples),
    ensures
        rct_spec(samples) matches Ok(s) ==> tile_filled(h, t, reduction, s),
{
    match rct_spec(samples) {
        Ok(s) => {
            assert forall|c: int| 0 <= c < s.len() implies fills(
                h,
                t,
                reduction,
                c,
                #[trigger] s[c],
            ) by {
                assert(fills(h, t, reduction, c, samples[c]));
            }
        },
        Err(_) => {},
    }
}

/// The canvas holds every component's grid at the reduction.
pub open spec fn canvas_of(canvas: CanvasView, siz: SizView, reduction: nat) -> bool {
    &&& canvas.wf()
    &&& canvas.rects.len() == siz.components.len()
    &&& forall|c: int|
        0 <= c < canvas.rects.len() ==> #[trigger] canvas.rects[c] == siz.component_rect(
            c,
        ).unwrap().reduced_spec(reduction)
}

/// The value at `(x, y)` of a raster that holds `rect`.
pub open spec fn raster_at(raster: Seq<i32>, rect: Rect, x: int, y: int) -> i32 {
    raster[(y - rect.y0) * rect.width_spec() + (x - rect.x0)]
}

/// The canvas's value at `(x, y)` of component `c`.
pub open spec fn canvas_at(canvas: CanvasView, c: int, x: int, y: int) -> i32 {
    raster_at(canvas.planes[c], canvas.rects[c], x, y)
}

/// A raster copied into another shows at its own positions, and what was there
/// before shows at the rest.
proof fn lemma_blit_at(dst: Seq<i32>, outer: Rect, src: Seq<i32>, rect: Rect, x: int, y: int)
    requires
        outer.contains(x, y),
        inside(rect, outer),
        dst.len() == area_of(outer),
    ensures
        ({
            let out = blitted(
                dst,
                outer.width_spec(),
                src,
                rect.width_spec(),
                rect.height_spec(),
                rect.x0 - outer.x0,
                rect.y0 - outer.y0,
            );
            &&& out.len() == dst.len()
            &&& raster_at(out, outer, x, y) == if rect.contains(x, y) {
                raster_at(src, rect, x, y)
            } else {
                raster_at(dst, outer, x, y)
            }
        }),
{
    let (i, j) = (x - outer.x0, y - outer.y0);
    let stride = outer.width_spec();
    lemma_index_bound(i, j, stride, outer.height_spec());
    lemma_row_column(i, j, stride);
}

/// Placing the components of a tile from `c` on writes each one's part of its
/// plane, and nothing else.
proof fn lemma_place_from(
    canvas: CanvasView,
    siz: SizView,
    tile: int,
    reduction: nat,
    samples: Seq<SamplesView>,
    synthesised: Seq<Seq<i32>>,
    c: int,
)
    requires
        grid_legal(siz),
        forall|k: int| 0 <= k < siz.components.len() ==> #[trigger] siz.has_component(k),
        0 <= tile < siz.num_tiles(),
        canvas_of(canvas, siz, reduction),
        samples.len() == siz.components.len(),
        0 <= c <= samples.len(),
        forall|k: int|
            0 <= k < samples.len() ==> (#[trigger] plane_of(samples, synthesised, k)).len()
                == area_of(tile_cell(siz, tile, k, reduction)),
    ensures
        place_from(canvas, siz, tile, reduction, samples, synthesised, c) matches Ok(next)
            && canvas_of(next, siz, reduction) && forall|k: int, x: int, y: int|
            #![trigger canvas_at(next, k, x, y)]
            0 <= k < siz.components.len() && next.rects[k].contains(x, y) ==> canvas_at(
                next,
                k,
                x,
                y,
            ) == if k >= c && tile_cell(siz, tile, k, reduction).contains(x, y) {
                raster_at(
                    plane_of(samples, synthesised, k),
                    tile_cell(siz, tile, k, reduction),
                    x,
                    y,
                )
            } else {
                canvas_at(canvas, k, x, y)
            },
    decreases samples.len() - c,
{
    if c < samples.len() {
        assert(siz.has_component(c));
        lemma_tile_inside(siz, tile, c, reduction);
        let rect = tile_cell(siz, tile, c, reduction);
        let plane = plane_of(samples, synthesised, c);
        assert(canvas.rects[c] == siz.component_rect(c).unwrap().reduced_spec(reduction));
        let step = canvas.place(c, rect, plane)->Ok_0;
        assert(canvas.place(c, rect, plane) == Ok::<CanvasView, Fault>(step));
        assert(canvas_of(step, siz, reduction)) by {
            assert forall|k: int| 0 <= k < step.planes.len() implies (
            #[trigger] step.planes[k]).len() == area_of(step.rects[k]) by {
                assert(canvas.planes[k].len() == area_of(canvas.rects[k]));
            }
        }
        lemma_place_from(step, siz, tile, reduction, samples, synthesised, c + 1);
        let next = place_from(step, siz, tile, reduction, samples, synthesised, c + 1)->Ok_0;
        assert forall|k: int, x: int, y: int|
            #![trigger canvas_at(next, k, x, y)]
            0 <= k < siz.components.len() && next.rects[k].contains(x, y) implies canvas_at(
            next,
            k,
            x,
            y,
        ) == if k >= c && tile_cell(siz, tile, k, reduction).contains(x, y) {
            raster_at(
                plane_of(samples, synthesised, k),
                tile_cell(siz, tile, k, reduction),
                x,
                y,
            )
        } else {
            canvas_at(canvas, k, x, y)
        } by {
            assert(next.rects[k] == canvas.rects[k]);
            if k == c {
                assert(canvas.planes[c].len() == area_of(canvas.rects[c]));
                lemma_blit_at(canvas.planes[c], canvas.rects[c], plane, rect, x, y);
            } else {
                assert(step.planes[k] == canvas.planes[k]);
            }
        }
    }
}

/// Every irreversible component has its synthesised samples, one for each position
/// of the tile's part.
pub open spec fn synthesis_fits(
    h: HeaderView,
    tile: int,
    reduction: nat,
    samples: Seq<SamplesView>,
    synthesised: Seq<Seq<i32>>,
) -> bool {
    &&& synthesised.len() == lossy_below(samples, samples.len())
    &&& forall|c: int|
        0 <= c < samples.len() && #[trigger] samples[c] is Irreversible ==> plane_of(
            samples,
            synthesised,
            c,
        ).len() == area_of(tile_cell(h.siz, tile, c, reduction))
}

/// A decoded tile can always be placed. It writes its own part of every
/// component's plane, and leaves the rest of the canvas as it was.
pub proof fn lemma_tile_is_placed(
    canvas: CanvasView,
    h: HeaderView,
    tile: int,
    reduction: nat,
    samples: Seq<SamplesView>,
    synthesised: Seq<Seq<i32>>,
)
    requires
        grid_legal(h.siz),
        forall|k: int| 0 <= k < h.siz.components.len() ==> #[trigger] h.siz.has_component(k),
        0 <= tile < h.siz.num_tiles(),
        canvas_of(canvas, h.siz, reduction),
        tile_filled(h, tile, reduction, samples),
        synthesis_fits(h, tile, reduction, samples, synthesised),
    ensures
        place_spec(canvas, h.siz, tile, reduction, samples, synthesised) matches Ok(next)
            && canvas_of(next, h.siz, reduction) && forall|k: int, x: int, y: int|
            #![trigger canvas_at(next, k, x, y)]
            0 <= k < h.siz.components.len() && next.rects[k].contains(x, y) ==> canvas_at(
                next,
                k,
                x,
                y,
            ) == if tile_cell(h.siz, tile, k, reduction).contains(x, y) {
                raster_at(
                    plane_of(samples, synthesised, k),
                    tile_cell(h.siz, tile, k, reduction),
                    x,
                    y,
                )
            } else {
                canvas_at(canvas, k, x, y)
            },
{
    assert forall|k: int| 0 <= k < samples.len() implies (#[trigger] plane_of(
        samples,
        synthesised,
        k,
    )).len() == area_of(tile_cell(h.siz, tile, k, reduction)) by {
        assert(fills(h, tile, reduction, k, samples[k]));
    }
    lemma_place_from(canvas, h.siz, tile, reduction, samples, synthesised, 0);
}

/// Every component of the codestream is coded with the reversible wavelet.
pub open spec fn lossless(main: HeaderView) -> bool {
    forall|c: int|
        0 <= c < main.components.len() ==> (#[trigger] main.components[c]).coding.transform
            == Transform::Reversible53
}

/// What tile `t` of a codestream decodes to.
pub open spec fn tile_result(cs: CodestreamView, reduction: nat, t: int) -> core::result::Result<
    Seq<SamplesView>,
    Fault,
> {
    tile_samples(resolve_spec(cs.header, cs.tiles[t].header)->Ok_0, cs.tiles[t], reduction)
}

/// The sample of tile `t` at `(x, y)` of component `c`.
pub open spec fn tile_at(
    cs: CodestreamView,
    reduction: nat,
    t: int,
    c: int,
    x: int,
    y: int,
) -> i32 {
    raster_at(
        plane_of(tile_result(cs, reduction, t)->Ok_0, Seq::empty(), c),
        tile_cell(cs.header.siz, t, c, reduction),
        x,
        y,
    )
}

/// The image's sample at `(x, y)` of component `c`.
pub open spec fn image_at(
    image: ImageView,
    siz: SizView,
    reduction: nat,
    c: int,
    x: int,
    y: int,
) -> i32 {
    raster_at(
        image.components[c].samples,
        siz.component_rect(c).unwrap().reduced_spec(reduction),
        x,
        y,
    )
}

/// The level-shifted, clamped sample of component `c`.
pub open spec fn shown(siz: SizView, c: int, v: i32) -> int {
    shifted(v, siz.components[c].bit_depth as nat, siz.components[c].signed)
}

/// Component `c`'s depth is legal and its samples fit 32 bits.
pub open spec fn depth_fits(siz: SizView, c: int) -> bool {
    let depth = siz.components[c].bit_depth as nat;
    let signed = siz.components[c].signed;
    &&& 1 <= depth <= 38
    &&& low_of(depth, signed) >= i32::MIN
    &&& high_of(depth, signed) <= i32::MAX
}

/// A tile without irreversible components waits for none.
pub proof fn lemma_none_lossy(samples: Seq<SamplesView>, c: nat)
    requires
        c <= samples.len(),
        forall|k: int| 0 <= k < samples.len() ==> (#[trigger] samples[k]) is Reversible,
    ensures
        lossy_below(samples, c) == 0,
    decreases c,
{
    if c > 0 {
        lemma_none_lossy(samples, (c - 1) as nat);
    }
}

/// A complete canvas becomes an image unless a component's depth does not fit.
pub proof fn lemma_components_from(
    siz: SizView,
    canvas: CanvasView,
    reduction: nat,
    done: Seq<ComponentView>,
)
    requires
        canvas_of(canvas, siz, reduction),
        forall|k: int| 0 <= k < siz.components.len() ==> #[trigger] siz.has_component(k),
        done.len() <= canvas.planes.len(),
        forall|k: int|
            0 <= k < done.len() ==> component_spec(siz, k, canvas.planes[k], reduction) == Ok::<
                ComponentView,
                Fault,
            >(#[trigger] done[k]),
    ensures
        match components_from(siz, canvas.planes, reduction, done) {
            Ok(out) => {
                &&& out.len() == siz.components.len()
                &&& forall|k: int|
                    0 <= k < out.len() ==> component_spec(siz, k, canvas.planes[k], reduction)
                        == Ok::<ComponentView, Fault>(#[trigger] out[k])
            },
            Err(_) => exists|k: int| 0 <= k < siz.components.len() && !#[trigger] depth_fits(siz, k),
        },
    decreases canvas.planes.len() - done.len(),
{
    if done.len() < canvas.planes.len() {
        let k = done.len() as int;
        assert(siz.has_component(k));
        assert(canvas.rects[k] == siz.component_rect(k).unwrap().reduced_spec(reduction));
        assert(canvas.planes[k].len() == area_of(canvas.rects[k]));
        match component_spec(siz, k, canvas.planes[k], reduction) {
            Ok(c) => {
                lemma_components_from(siz, canvas, reduction, done.push(c));
            },
            Err(_) => {
                assert(!depth_fits(siz, k));
            },
        }
    }
}

/// A component of the image shows its plane, level-shifted and clamped.
pub proof fn lemma_shown(
    siz: SizView,
    canvas: CanvasView,
    reduction: nat,
    component: ComponentView,
    t: int,
    c: int,
    x: int,
    y: int,
)
    requires
        grid_legal(siz),
        siz.has_component(c),
        canvas_of(canvas, siz, reduction),
        0 <= t < siz.num_tiles(),
        0 <= c < siz.components.len(),
        tile_cell(siz, t, c, reduction).contains(x, y),
        component_spec(siz, c, canvas.planes[c], reduction) == Ok::<ComponentView, Fault>(
            component,
        ),
    ensures
        raster_at(
            component.samples,
            siz.component_rect(c).unwrap().reduced_spec(reduction),
            x,
            y,
        ) == shown(siz, c, canvas_at(canvas, c, x, y)),
{
    lemma_tile_inside(siz, t, c, reduction);
    let rect = canvas.rects[c];
    assert(rect == siz.component_rect(c).unwrap().reduced_spec(reduction));
    assert(canvas.planes[c].len() == area_of(rect));
    lemma_index_bound(x - rect.x0, y - rect.y0, rect.width_spec(), rect.height_spec());
    let depth = siz.components[c].bit_depth as nat;
    lemma_pow2_pos(depth);
    lemma_pow2_pos((depth - 1) as nat);
}

/// Placing tile `i` shows it in its own part, and keeps the parts of the other tiles.
pub proof fn lemma_parts_kept(
    cs: CodestreamView,
    reduction: nat,
    canvas: CanvasView,
    next: CanvasView,
    samples: Seq<SamplesView>,
    i: int,
    t: int,
    c: int,
    x: int,
    y: int,
)
    requires
        grid_legal(cs.header.siz),
        cs.header.siz.has_component(c),
        0 <= c < cs.header.siz.components.len(),
        0 <= t < cs.header.siz.num_tiles(),
        0 <= i < cs.header.siz.num_tiles(),
        tile_result(cs, reduction, i) == Ok::<Seq<SamplesView>, Fault>(samples),
        canvas_of(next, cs.header.siz, reduction),
        tile_cell(cs.header.siz, t, c, reduction).contains(x, y),
        next.rects[c].contains(x, y) ==> canvas_at(next, c, x, y) == if tile_cell(
            cs.header.siz,
            i,
            c,
            reduction,
        ).contains(x, y) {
            raster_at(
                plane_of(samples, Seq::empty(), c),
                tile_cell(cs.header.siz, i, c, reduction),
                x,
                y,
            )
        } else {
            canvas_at(canvas, c, x, y)
        },
    ensures
        canvas_at(next, c, x, y) == if t == i {
            tile_at(cs, reduction, i, c, x, y)
        } else {
            canvas_at(canvas, c, x, y)
        },
{
    let siz = cs.header.siz;
    lemma_tile_inside(siz, t, c, reduction);
    assert(next.rects[c] == siz.component_rect(c).unwrap().reduced_spec(reduction));
    if t != i && tile_cell(siz, i, c, reduction).contains(x, y) {
        let only = lemma_tiles_partition(siz, c, reduction, x, y);
        assert(tile_cell(siz, t, c, reduction).contains(x, y));
    }
}

/// The run of a reversible codestream from tile `i` on, onto a canvas. It ends with
/// an image in which every sample is that of the tile that covers it, or with a
/// tile's own error, or with a depth that does not fit.
proof fn lemma_lossless_run(cs: CodestreamView, reduction: nat, canvas: CanvasView, i: int)
    requires
        decodable(cs),
        lossless(cs.header),
        canvas_of(canvas, cs.header.siz, reduction),
        0 <= i <= cs.tiles.len(),
    ensures
        match run_from(cs, reduction, canvas, i) {
            Ok(DecodedView::Image(image)) => {
                &&& image.components.len() == cs.header.siz.components.len()
                &&& forall|t: int| i <= t < cs.tiles.len() ==> (#[trigger] tile_result(
                    cs,
                    reduction,
                    t,
                )) is Ok
                &&& forall|t: int, c: int, x: int, y: int|
                    0 <= t < cs.tiles.len() && 0 <= c < cs.header.siz.components.len()
                        && #[trigger] tile_cell(cs.header.siz, t, c, reduction).contains(x, y)
                        ==> image_at(image, cs.header.siz, reduction, c, x, y) == shown(
                        cs.header.siz,
                        c,
                        if t >= i {
                            tile_at(cs, reduction, t, c, x, y)
                        } else {
                            canvas_at(canvas, c, x, y)
                        },
                    )
            },
            Ok(DecodedView::Lossy(_)) => false,
            Err(e) => {
                ||| exists|t: int|
                    i <= t < cs.tiles.len() && #[trigger] tile_result(cs, reduction, t) == Err::<
                        Seq<SamplesView>,
                        Fault,
                    >(e)
                ||| exists|c: int|
                    0 <= c < cs.header.siz.components.len() && !#[trigger] depth_fits(
                        cs.header.siz,
                        c,
                    )
            },
        },
    decreases cs.tiles.len() - i,
{
    let siz = cs.header.siz;
    assert forall|k: int| 0 <= k < siz.components.len() implies #[trigger] siz.has_component(k) by {
        let d = siz.components[k];
    }
    if i >= cs.tiles.len() {
        lemma_components_from(siz, canvas, reduction, Seq::empty());
        match assemble_spec(cs.header, canvas.planes, reduction) {
            Ok(image) => {
                assert forall|t: int, c: int, x: int, y: int|
                    0 <= t < cs.tiles.len() && 0 <= c < siz.components.len()
                        && #[trigger] tile_cell(siz, t, c, reduction).contains(
                        x,
                        y,
                    ) implies image_at(image, siz, reduction, c, x, y) == shown(
                    siz,
                    c,
                    canvas_at(canvas, c, x, y),
                ) by {
                    lemma_shown(siz, canvas, reduction, image.components[c], t, c, x, y);
                }
            },
            Err(_) => {},
        }
    } else {
        assert(tile_decodable(cs.header, cs.tiles[i], i));
        let h = resolve_spec(cs.header, cs.tiles[i].header)->Ok_0;
        lemma_tile_admitted(siz, i);
        assert(h.siz == siz && h.wf());
        lemma_tile_fills_its_part(h, cs.tiles[i], reduction);
        match tile_samples(h, cs.tiles[i], reduction) {
            Err(e) => {
                assert(tile_result(cs, reduction, i) == Err::<Seq<SamplesView>, Fault>(e));
            },
            Ok(samples) => {
                assert forall|k: int| 0 <= k < samples.len() implies (
                #[trigger] samples[k]) is Reversible by {
                    assert(fills(h, i, reduction, k, samples[k]));
                    assert(cs.header.components[k].coding.transform == Transform::Reversible53);
                    assert(h.components[k].coding.transform
                        == cs.header.components[k].coding.transform);
                }
                lemma_none_lossy(samples, samples.len());
                lemma_tile_is_placed(canvas, h, i, reduction, samples, Seq::empty());
                let next = place_spec(canvas, siz, i, reduction, samples, Seq::empty())->Ok_0;
                lemma_lossless_run(cs, reduction, next, i + 1);
                assert forall|t: int, c: int, x: int, y: int|
                    0 <= t <= i && 0 <= c < siz.components.len() && #[trigger] tile_cell(
                        siz,
                        t,
                        c,
                        reduction,
                    ).contains(x, y) implies canvas_at(next, c, x, y) == if t == i {
                    tile_at(cs, reduction, i, c, x, y)
                } else {
                    canvas_at(canvas, c, x, y)
                } by {
                    lemma_parts_kept(cs, reduction, canvas, next, samples, i, t, c, x, y);
                }
            },
        }
    }
}

/// The blank canvas holds every component's grid.
pub proof fn lemma_blank(siz: SizView, reduction: nat)
    ensures
        canvas_of(CanvasView::blank(siz, reduction), siz, reduction),
{
    let blank = CanvasView::blank(siz, reduction);
    assert forall|i: int| 0 <= i < blank.planes.len() implies (#[trigger] blank.planes[i]).len()
        == area_of(blank.rects[i]) by {
        let r = blank.rects[i];
        let (w, h) = (r.width_spec(), r.height_spec());
        assert(w * h >= 0) by (nonlinear_arith)
            requires
                w >= 0,
                h >= 0,
        ;
    }
}

/// Tile `t` covers `(x, y)` of component `c`, and the image shows its sample there.
pub open spec fn sample_from_tile(
    cs: CodestreamView,
    reduction: nat,
    image: ImageView,
    t: int,
    c: int,
    x: int,
    y: int,
) -> bool {
    &&& 0 <= t < cs.tiles.len()
    &&& tile_cell(cs.header.siz, t, c, reduction).contains(x, y)
    &&& image_at(image, cs.header.siz, reduction, c, x, y) == shown(
        cs.header.siz,
        c,
        tile_at(cs, reduction, t, c, x, y),
    )
}

/// The image's sample at `(x, y)` of component `c` is that of the tile that covers
/// it.
pub open spec fn comes_from_tile(
    cs: CodestreamView,
    reduction: nat,
    image: ImageView,
    c: int,
    x: int,
    y: int,
) -> bool {
    exists|t: int| sample_from_tile(cs, reduction, image, t, c, x, y)
}

/// What the decode of a reversible codestream comes to: an image in which every
/// sample of every component is that of the tile that covers it, level-shifted and
/// clamped; or the error of a tile; or an error over a depth that does not fit.
/// It does not wait for a synthesis.
pub open spec fn lossless_outcome(
    cs: CodestreamView,
    reduction: nat,
    outcome: core::result::Result<DecodedView, Fault>,
) -> bool {
    match outcome {
        Ok(DecodedView::Image(image)) => {
            &&& image.components.len() == cs.header.siz.components.len()
            &&& forall|t: int| 0 <= t < cs.tiles.len() ==> (#[trigger] tile_result(
                cs,
                reduction,
                t,
            )) is Ok
            &&& forall|c: int, x: int, y: int|
                0 <= c < cs.header.siz.components.len() && cs.header.siz.component_rect(
                    c,
                ).unwrap().reduced_spec(reduction).contains(x, y) ==> #[trigger] comes_from_tile(
                    cs,
                    reduction,
                    image,
                    c,
                    x,
                    y,
                )
        },
        Ok(DecodedView::Lossy(_)) => false,
        Err(e) => {
            ||| exists|t: int|
                0 <= t < cs.tiles.len() && #[trigger] tile_result(cs, reduction, t) == Err::<
                    Seq<SamplesView>,
                    Fault,
                >(e)
            ||| exists|c: int|
                0 <= c < cs.header.siz.components.len() && !#[trigger] depth_fits(cs.header.siz, c)
        },
    }
}

/// The run over all tiles of a reversible codestream, onto a blank canvas.
proof fn lemma_lossless_from_blank(cs: CodestreamView, reduction: nat)
    requires
        decodable(cs),
        lossless(cs.header),
    ensures
        lossless_outcome(
            cs,
            reduction,
            run_from(cs, reduction, CanvasView::blank(cs.header.siz, reduction), 0),
        ),
{
    let siz = cs.header.siz;
    lemma_blank(siz, reduction);
    let blank = CanvasView::blank(siz, reduction);
    lemma_lossless_run(cs, reduction, blank, 0);
    match run_from(cs, reduction, blank, 0) {
        Ok(DecodedView::Image(image)) => {
            assert forall|c: int, x: int, y: int|
                0 <= c < siz.components.len() && siz.component_rect(c).unwrap().reduced_spec(
                    reduction,
                ).contains(x, y) implies #[trigger] comes_from_tile(
                cs,
                reduction,
                image,
                c,
                x,
                y,
            ) by {
                let d = siz.components[c];
                assert(siz.has_component(c));
                let t = lemma_tiles_partition(siz, c, reduction, x, y);
                assert(tile_cell(siz, t, c, reduction).contains(x, y));
                assert(sample_from_tile(cs, reduction, image, t, c, x, y));
            }
        },
        _ => {},
    }
}

/// A codestream whose components are all reversible decodes to an image exactly
/// where every tile decodes and every depth fits, and every sample of it is that
/// of the tile that covers it.
pub proof fn lemma_lossless_decode(b: Seq<u8>, reduction: nat)
    ensures
        parse_spec(b) matches Ok(cs) ==> lossless(cs.header) ==> lossless_outcome(
            cs,
            reduction,
            decode_spec(b, reduction),
        ),
{
    lemma_parsed_decodable(b);
    match parse_spec(b) {
        Ok(cs) => {
            if lossless(cs.header) {
                lemma_lossless_from_blank(cs, reduction);
            }
        },
        Err(_) => {},
    }
}

} // verus!
