//! What becomes of the components that a decode waits for: the first synthesised plane
//! is the first irreversible component's, the second the second's, and each shows in
//! its own component of the image.

use crate::assembly::{
    canvas_at, canvas_of, depth_fits, image_at, lemma_blank, lemma_components_from, lemma_shown,
    lemma_tile_fills_its_part, lemma_tile_is_placed, raster_at, shown, tile_filled,
};
use crate::codestream::grid::{grid_legal, lemma_tile_admitted, tile_cell};
use crate::codestream::legal::{decodable, lemma_parsed_decodable, tile_decodable};
use crate::codestream::resolve::resolve_spec;
use crate::codestream::{parse_spec, CodestreamView, HeaderView};
use crate::decoder::{
    decode_spec, lossy_below, place_spec, plane_of, run_from, tile_samples, DecodedView,
    LossyTileView,
};
use crate::image::{area_of, CanvasView};
use crate::pipeline::SamplesView;
use vstd::prelude::*;

verus! {

/// `which` lists a tile's irreversible components, from the first to the last.
pub open spec fn lists_lossy(samples: Seq<SamplesView>, which: Seq<int>) -> bool {
    &&& forall|i: int, j: int| 0 <= i < j < which.len() ==> which[i] < which[j]
    &&& forall|i: int|
        0 <= i < which.len() ==> 0 <= (#[trigger] which[i]) < samples.len()
            && samples[which[i]] is Irreversible
    &&& forall|c: int|
        0 <= c < samples.len() && (#[trigger] samples[c]) is Irreversible ==> which.contains(c)
}

/// Every synthesised plane fills the tile's part of the component that it is listed
/// for.
pub open spec fn planes_fill(
    h: HeaderView,
    tile: int,
    reduction: nat,
    which: Seq<int>,
    synthesised: Seq<Seq<i32>>,
) -> bool {
    &&& synthesised.len() == which.len()
    &&& forall|k: int|
        0 <= k < which.len() ==> (#[trigger] synthesised[k]).len() == area_of(
            tile_cell(h.siz, tile, which[k], reduction),
        )
}

/// As many irreversible components lie below component `c` as the list has entries
/// below it.
proof fn lemma_listed_below(samples: Seq<SamplesView>, which: Seq<int>, c: nat) -> (m: int)
    requires
        lists_lossy(samples, which),
        c <= samples.len(),
    ensures
        0 <= m <= which.len(),
        lossy_below(samples, c) == m,
        forall|i: int| 0 <= i < m ==> (#[trigger] which[i]) < c,
        forall|i: int| m <= i < which.len() ==> (#[trigger] which[i]) >= c,
    decreases c,
{
    if c == 0 {
        0
    } else {
        let last = (c - 1) as nat;
        let m = lemma_listed_below(samples, which, last);
        if samples[c - 1] is Irreversible {
            assert(which.contains(c - 1));
            let at = which.index_of(c - 1);
            assert(which[at] == c - 1);
            assert(at >= m);
            if at > m {
                assert(which[m] < which[at]);
            }
            assert forall|i: int| m + 1 <= i < which.len() implies (#[trigger] which[i]) >= c by {
                assert(which[m] < which[i]);
            }
            m + 1
        } else {
            assert forall|i: int| m <= i < which.len() implies (#[trigger] which[i]) >= c by {
                assert(samples[which[i]] is Irreversible);
            }
            m
        }
    }
}

/// The plane of the `k`-th irreversible component is the `k`-th synthesised one.
proof fn lemma_listed_plane(
    samples: Seq<SamplesView>,
    which: Seq<int>,
    synthesised: Seq<Seq<i32>>,
    k: int,
)
    requires
        lists_lossy(samples, which),
        0 <= k < which.len(),
    ensures
        plane_of(samples, synthesised, which[k]) == synthesised[k],
        lossy_below(samples, samples.len()) == which.len(),
{
    let c = which[k];
    let m = lemma_listed_below(samples, which, c as nat);
    if m < k {
        assert(which[m] < which[k]);
    }
    let n = lemma_listed_below(samples, which, samples.len());
    if n < which.len() {
        assert(which[n] >= samples.len());
    }
}

/// The components of a tile that the decode waits for take the synthesised planes in
/// their own order: the canvas shows the `k`-th plane in the tile's part of the `k`-th
/// irreversible component, the integer samples of the other components in theirs, and
/// elsewhere what it showed before.
pub proof fn lemma_planes_in_component_order(
    canvas: CanvasView,
    h: HeaderView,
    tile: int,
    reduction: nat,
    samples: Seq<SamplesView>,
    which: Seq<int>,
    synthesised: Seq<Seq<i32>>,
)
    requires
        grid_legal(h.siz),
        forall|k: int| 0 <= k < h.siz.components.len() ==> #[trigger] h.siz.has_component(k),
        0 <= tile < h.siz.num_tiles(),
        canvas_of(canvas, h.siz, reduction),
        tile_filled(h, tile, reduction, samples),
        lists_lossy(samples, which),
        planes_fill(h, tile, reduction, which, synthesised),
    ensures
        place_spec(canvas, h.siz, tile, reduction, samples, synthesised) matches Ok(next) && {
            &&& canvas_of(next, h.siz, reduction)
            &&& forall|k: int, x: int, y: int|
                #![trigger canvas_at(next, which[k], x, y)]
                0 <= k < which.len() && next.rects[which[k]].contains(x, y) && tile_cell(
                    h.siz,
                    tile,
                    which[k],
                    reduction,
                ).contains(x, y) ==> canvas_at(next, which[k], x, y) == raster_at(
                    synthesised[k],
                    tile_cell(h.siz, tile, which[k], reduction),
                    x,
                    y,
                )
            &&& forall|c: int, x: int, y: int|
                #![trigger canvas_at(next, c, x, y)]
                0 <= c < samples.len() && next.rects[c].contains(x, y) ==> if !tile_cell(
                    h.siz,
                    tile,
                    c,
                    reduction,
                ).contains(x, y) {
                    canvas_at(next, c, x, y) == canvas_at(canvas, c, x, y)
                } else {
                    samples[c] matches SamplesView::Reversible(v) ==> canvas_at(next, c, x, y)
                        == raster_at(v, tile_cell(h.siz, tile, c, reduction), x, y)
                }
        },
{
    assert(lossy_below(samples, samples.len()) == which.len()) by {
        let n = lemma_listed_below(samples, which, samples.len());
        if n < which.len() {
            assert(which[n] >= samples.len());
        }
    }
    assert forall|c: int| 0 <= c < samples.len() && #[trigger] samples[c] is Irreversible implies
        plane_of(samples, synthesised, c).len() == area_of(
        tile_cell(h.siz, tile, c, reduction),
    ) by {
        let k = which.index_of(c);
        assert(which.contains(c));
        lemma_listed_plane(samples, which, synthesised, k);
        assert(synthesised[k].len() == area_of(tile_cell(h.siz, tile, which[k], reduction)));
    }
    lemma_tile_is_placed(canvas, h, tile, reduction, samples, synthesised);
    let next = place_spec(canvas, h.siz, tile, reduction, samples, synthesised)->Ok_0;
    assert forall|k: int, x: int, y: int|
        #![trigger canvas_at(next, which[k], x, y)]
        0 <= k < which.len() && next.rects[which[k]].contains(x, y) && tile_cell(
            h.siz,
            tile,
            which[k],
            reduction,
        ).contains(x, y) implies canvas_at(next, which[k], x, y) == raster_at(
        synthesised[k],
        tile_cell(h.siz, tile, which[k], reduction),
        x,
        y,
    ) by {
        lemma_listed_plane(samples, which, synthesised, k);
    }
}

/// Where every component of a tile is irreversible, component `c` of the canvas shows
/// plane `c`.
pub proof fn lemma_one_plane_each(
    canvas: CanvasView,
    h: HeaderView,
    tile: int,
    reduction: nat,
    samples: Seq<SamplesView>,
    synthesised: Seq<Seq<i32>>,
)
    requires
        grid_legal(h.siz),
        forall|k: int| 0 <= k < h.siz.components.len() ==> #[trigger] h.siz.has_component(k),
        0 <= tile < h.siz.num_tiles(),
        canvas_of(canvas, h.siz, reduction),
        tile_filled(h, tile, reduction, samples),
        forall|c: int| 0 <= c < samples.len() ==> (#[trigger] samples[c]) is Irreversible,
        synthesised.len() == samples.len(),
        forall|c: int|
            0 <= c < samples.len() ==> (#[trigger] synthesised[c]).len() == area_of(
                tile_cell(h.siz, tile, c, reduction),
            ),
    ensures
        place_spec(canvas, h.siz, tile, reduction, samples, synthesised) matches Ok(next)
            && forall|c: int, x: int, y: int|
            #![trigger canvas_at(next, c, x, y)]
            0 <= c < samples.len() && next.rects[c].contains(x, y) && tile_cell(
                h.siz,
                tile,
                c,
                reduction,
            ).contains(x, y) ==> canvas_at(next, c, x, y) == raster_at(
                synthesised[c],
                tile_cell(h.siz, tile, c, reduction),
                x,
                y,
            ),
{
    let which = Seq::new(samples.len(), |c: int| c);
    assert forall|c: int| 0 <= c < samples.len() && (#[trigger] samples[c]) is Irreversible implies
        which.contains(c) by {
        assert(which[c] == c);
    }
    lemma_planes_in_component_order(canvas, h, tile, reduction, samples, which, synthesised);
    let next = place_spec(canvas, h.siz, tile, reduction, samples, synthesised)->Ok_0;
    assert forall|c: int, x: int, y: int|
        #![trigger canvas_at(next, c, x, y)]
        0 <= c < samples.len() && next.rects[c].contains(x, y) && tile_cell(
            h.siz,
            tile,
            c,
            reduction,
        ).contains(x, y) implies canvas_at(next, c, x, y) == raster_at(
        synthesised[c],
        tile_cell(h.siz, tile, c, reduction),
        x,
        y,
    ) by {
        assert(canvas_at(next, which[c], x, y) == canvas_at(next, c, x, y));
    }
}

/// A tile that a decode waits at: one of the codestream's, decoded under its own
/// parameters, with a canvas of the image's size.
pub open spec fn waits_at(l: LossyTileView, cs: CodestreamView, reduction: nat) -> bool {
    &&& l.codestream == cs
    &&& l.reduction == reduction
    &&& 0 <= l.index < cs.tiles.len()
    &&& resolve_spec(cs.header, cs.tiles[l.index].header) == Ok::<
        HeaderView,
        crate::error::ErrorKind,
    >(l.header)
    &&& tile_samples(l.header, cs.tiles[l.index], reduction) == Ok::<
        Seq<SamplesView>,
        crate::error::Fault,
    >(l.samples)
    &&& canvas_of(l.canvas, cs.header.siz, reduction)
    &&& exists|c: int| 0 <= c < l.samples.len() && (#[trigger] l.samples[c]) is Irreversible
}

/// A count of irreversible components says that there is one.
pub proof fn lemma_some_lossy(samples: Seq<SamplesView>, c: nat)
    requires
        c <= samples.len(),
        lossy_below(samples, c) > 0,
    ensures
        exists|k: int| 0 <= k < c && (#[trigger] samples[k]) is Irreversible,
    decreases c,
{
    if c > 0 && !(samples[c - 1] is Irreversible) {
        lemma_some_lossy(samples, (c - 1) as nat);
    }
}

/// Where the decode of the tiles from `i` on waits.
proof fn lemma_run_waits(cs: CodestreamView, reduction: nat, canvas: CanvasView, i: int)
    requires
        decodable(cs),
        canvas_of(canvas, cs.header.siz, reduction),
        0 <= i <= cs.tiles.len(),
    ensures
        run_from(cs, reduction, canvas, i) matches Ok(DecodedView::Lossy(l)) ==> waits_at(
            l,
            cs,
            reduction,
        ) && i <= l.index,
    decreases cs.tiles.len() - i,
{
    if i < cs.tiles.len() {
        let siz = cs.header.siz;
        assert forall|k: int| 0 <= k < siz.components.len() implies #[trigger] siz.has_component(
            k,
        ) by {
            let d = siz.components[k];
        }
        assert(tile_decodable(cs.header, cs.tiles[i], i));
        let h = resolve_spec(cs.header, cs.tiles[i].header)->Ok_0;
        lemma_tile_admitted(siz, i);
        lemma_tile_fills_its_part(h, cs.tiles[i], reduction);
        match tile_samples(h, cs.tiles[i], reduction) {
            Err(_) => {},
            Ok(samples) => if lossy_below(samples, samples.len()) > 0 {
                lemma_some_lossy(samples, samples.len());
            } else {
                let none = Seq::<int>::empty();
                assert forall|c: int| 0 <= c < samples.len() implies !(
                (#[trigger] samples[c]) is Irreversible) by {
                    lemma_lossy_counts(samples, c, samples.len());
                }
                assert(lists_lossy(samples, none));
                lemma_planes_in_component_order(
                    canvas,
                    h,
                    i,
                    reduction,
                    samples,
                    none,
                    Seq::empty(),
                );
                let next = place_spec(canvas, siz, i, reduction, samples, Seq::empty())->Ok_0;
                lemma_run_waits(cs, reduction, next, i + 1);
            },
        }
    }
}

/// An irreversible component is counted.
pub proof fn lemma_lossy_counts(samples: Seq<SamplesView>, c: int, n: nat)
    requires
        0 <= c < n <= samples.len(),
        lossy_below(samples, n) == 0,
    ensures
        !(samples[c] is Irreversible),
    decreases n,
{
    if c < n - 1 {
        lemma_lossy_counts(samples, c, (n - 1) as nat);
    }
}

/// A decode that waits does so at a tile with an irreversible component, with that
/// tile's samples as they were decoded.
pub proof fn lemma_decode_waits_at_a_tile(b: Seq<u8>, reduction: nat)
    ensures
        decode_spec(b, reduction) matches Ok(DecodedView::Lossy(l)) ==> parse_spec(b) matches Ok(cs)
            && waits_at(l, cs, reduction),
{
    lemma_parsed_decodable(b);
    match parse_spec(b) {
        Ok(cs) => {
            lemma_blank(cs.header.siz, reduction);
            lemma_run_waits(cs, reduction, CanvasView::blank(cs.header.siz, reduction), 0);
        },
        Err(_) => {},
    }
}

/// The last tile that a decode waits for completes the image, unless a depth does not
/// fit. In the tile's part, the `k`-th irreversible component shows the `k`-th
/// synthesised plane, level-shifted and clamped, and a reversible one its own samples.
/// The rest of the image shows what the canvas held.
pub proof fn lemma_last_tile_completes_the_image(
    l: LossyTileView,
    cs: CodestreamView,
    reduction: nat,
    which: Seq<int>,
    synthesised: Seq<Seq<i32>>,
)
    requires
        decodable(cs),
        waits_at(l, cs, reduction),
        l.index == cs.tiles.len() - 1,
        lists_lossy(l.samples, which),
        planes_fill(l.header, l.index, reduction, which, synthesised),
    ensures
        match l.resume(synthesised) {
            Ok(DecodedView::Image(image)) => {
                &&& image.components.len() == cs.header.siz.components.len()
                &&& forall|k: int, x: int, y: int|
                    #![trigger image_at(image, cs.header.siz, reduction, which[k], x, y)]
                    0 <= k < which.len() && tile_cell(
                        cs.header.siz,
                        l.index,
                        which[k],
                        reduction,
                    ).contains(x, y) ==> image_at(image, cs.header.siz, reduction, which[k], x, y)
                        == shown(
                        cs.header.siz,
                        which[k],
                        raster_at(
                            synthesised[k],
                            tile_cell(cs.header.siz, l.index, which[k], reduction),
                            x,
                            y,
                        ),
                    )
                &&& forall|t: int, c: int, x: int, y: int|
                    0 <= t < cs.tiles.len() && 0 <= c < cs.header.siz.components.len()
                        && #[trigger] tile_cell(cs.header.siz, t, c, reduction).contains(x, y)
                        ==> if tile_cell(cs.header.siz, l.index, c, reduction).contains(x, y) {
                        l.samples[c] matches SamplesView::Reversible(v) ==> image_at(
                            image,
                            cs.header.siz,
                            reduction,
                            c,
                            x,
                            y,
                        ) == shown(
                            cs.header.siz,
                            c,
                            raster_at(v, tile_cell(cs.header.siz, l.index, c, reduction), x, y),
                        )
                    } else {
                        image_at(image, cs.header.siz, reduction, c, x, y) == shown(
                            cs.header.siz,
                            c,
                            canvas_at(l.canvas, c, x, y),
                        )
                    }
            },
            Ok(DecodedView::Lossy(_)) => false,
            Err(_) => exists|c: int|
                0 <= c < cs.header.siz.components.len() && !#[trigger] depth_fits(
                    cs.header.siz,
                    c,
                ),
        },
{
    let siz = cs.header.siz;
    let i = l.index;
    assert forall|k: int| 0 <= k < siz.components.len() implies #[trigger] siz.has_component(k) by {
        let d = siz.components[k];
    }
    assert(tile_decodable(cs.header, cs.tiles[i], i));
    lemma_tile_admitted(siz, i);
    lemma_tile_fills_its_part(l.header, cs.tiles[i], reduction);
    lemma_planes_in_component_order(
        l.canvas,
        l.header,
        i,
        reduction,
        l.samples,
        which,
        synthesised,
    );
    let next = place_spec(l.canvas, siz, i, reduction, l.samples, synthesised)->Ok_0;
    lemma_components_from(siz, next, reduction, Seq::empty());
    match l.resume(synthesised) {
        Ok(DecodedView::Image(image)) => {
            assert forall|t: int, c: int, x: int, y: int|
                0 <= t < cs.tiles.len() && 0 <= c < siz.components.len() && #[trigger] tile_cell(
                    siz,
                    t,
                    c,
                    reduction,
                ).contains(x, y) implies image_at(image, siz, reduction, c, x, y) == shown(
                siz,
                c,
                canvas_at(next, c, x, y),
            ) && next.rects[c].contains(x, y) by {
                assert(siz.has_component(c));
                lemma_shown(siz, next, reduction, image.components[c], t, c, x, y);
                crate::codestream::grid::lemma_tile_inside(siz, t, c, reduction);
                assert(next.rects[c] == siz.component_rect(c).unwrap().reduced_spec(reduction));
            }
            assert forall|k: int, x: int, y: int|
                #![trigger image_at(image, siz, reduction, which[k], x, y)]
                0 <= k < which.len() && tile_cell(siz, i, which[k], reduction).contains(
                    x,
                    y,
                ) implies image_at(image, siz, reduction, which[k], x, y) == shown(
                siz,
                which[k],
                raster_at(synthesised[k], tile_cell(siz, i, which[k], reduction), x, y),
            ) by {
                assert(0 <= which[k] < siz.components.len());
                assert(tile_cell(siz, i, which[k], reduction).contains(x, y));
                assert(canvas_at(next, which[k], x, y) == raster_at(
                    synthesised[k],
                    tile_cell(siz, i, which[k], reduction),
                    x,
                    y,
                ));
            }
        },
        _ => {},
    }
}

} // verus!
