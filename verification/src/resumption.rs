//! How a decode goes on from tile to tile: it waits at the first tile that has an
//! irreversible component, takes that tile's planes, and goes on to the next such tile.
//! No tile is passed over, and the canvas keeps what each tile has shown on it.

use crate::assembly::{
    canvas_at, canvas_of, image_at, lemma_blank, lemma_components_from, lemma_parts_kept,
    lemma_shown, lemma_tile_fills_its_part, lemma_tile_is_placed, raster_at, shown, tile_at,
    tile_result,
};
use crate::codestream::grid::{
    lemma_tile_admitted, lemma_tile_inside, lemma_tiles_partition, tile_cell,
};
use crate::codestream::legal::{decodable, lemma_parsed_decodable, tile_decodable};
use crate::codestream::resolve::resolve_spec;
use crate::codestream::{parse_spec, CodestreamView};
use crate::decoder::{
    decode_spec, lossy_below, place_spec, run_from, tile_samples, DecodedView, LossyTileView,
};
use crate::error::Fault;
use crate::image::{assemble_spec, CanvasView, ImageView};
use crate::pipeline::SamplesView;
use crate::synthesis::{
    lemma_lossy_counts, lemma_planes_in_component_order, lemma_some_lossy, lists_lossy,
    planes_fill, waits_at,
};
use vstd::prelude::*;

verus! {

/// Tile `t` decodes to integer samples alone.
pub open spec fn exact_tile(cs: CodestreamView, reduction: nat, t: int) -> bool {
    tile_result(cs, reduction, t) matches Ok(samples) && forall|c: int|
        0 <= c < samples.len() ==> (#[trigger] samples[c]) is Reversible
}

/// Canvas `next` shows the samples of the tiles from `i` to below `j` in their parts,
/// and those of `canvas` in the parts of the others.
pub open spec fn canvas_shows(
    cs: CodestreamView,
    reduction: nat,
    canvas: CanvasView,
    i: int,
    j: int,
    next: CanvasView,
) -> bool {
    forall|t: int, c: int, x: int, y: int|
        0 <= t < cs.tiles.len() && 0 <= c < cs.header.siz.components.len() && #[trigger] tile_cell(
            cs.header.siz,
            t,
            c,
            reduction,
        ).contains(x, y) ==> canvas_at(next, c, x, y) == if i <= t < j {
            tile_at(cs, reduction, t, c, x, y)
        } else {
            canvas_at(canvas, c, x, y)
        }
}

/// An image shows, level-shifted and clamped, the samples of the tiles from `i` on in
/// their parts, and those of `canvas` in the parts of the others.
pub open spec fn image_shows(
    cs: CodestreamView,
    reduction: nat,
    canvas: CanvasView,
    i: int,
    image: ImageView,
) -> bool {
    &&& image.components.len() == cs.header.siz.components.len()
    &&& forall|t: int, c: int, x: int, y: int|
        0 <= t < cs.tiles.len() && 0 <= c < cs.header.siz.components.len() && #[trigger] tile_cell(
            cs.header.siz,
            t,
            c,
            reduction,
        ).contains(x, y) ==> image_at(image, cs.header.siz, reduction, c, x, y) == shown(
            cs.header.siz,
            c,
            if i <= t {
                tile_at(cs, reduction, t, c, x, y)
            } else {
                canvas_at(canvas, c, x, y)
            },
        )
}

/// The tiles from `i` to below `j` decode to integer samples alone.
pub open spec fn exact_tiles(cs: CodestreamView, reduction: nat, i: int, j: int) -> bool {
    forall|t: int| i <= t < j ==> #[trigger] exact_tile(cs, reduction, t)
}

/// The image of a canvas on which every tile has been placed.
proof fn lemma_complete(cs: CodestreamView, reduction: nat, canvas: CanvasView)
    requires
        decodable(cs),
        canvas_of(canvas, cs.header.siz, reduction),
    ensures
        assemble_spec(cs.header, canvas.planes, reduction) matches Ok(image) ==> image_shows(
            cs,
            reduction,
            canvas,
            cs.tiles.len() as int,
            image,
        ),
{
    let siz = cs.header.siz;
    assert forall|k: int| 0 <= k < siz.components.len() implies #[trigger] siz.has_component(k) by {
        let d = siz.components[k];
    }
    lemma_components_from(siz, canvas, reduction, Seq::empty());
    match assemble_spec(cs.header, canvas.planes, reduction) {
        Ok(image) => {
            assert forall|t: int, c: int, x: int, y: int|
                0 <= t < cs.tiles.len() && 0 <= c < siz.components.len() && #[trigger] tile_cell(
                    siz,
                    t,
                    c,
                    reduction,
                ).contains(x, y) implies image_at(image, siz, reduction, c, x, y) == shown(
                siz,
                c,
                canvas_at(canvas, c, x, y),
            ) by {
                lemma_shown(siz, canvas, reduction, image.components[c], t, c, x, y);
            }
        },
        Err(_) => {},
    }
}

/// One exact tile is placed.
proof fn lemma_exact_placed(
    cs: CodestreamView,
    reduction: nat,
    canvas: CanvasView,
    i: int,
    samples: Seq<SamplesView>,
)
    requires
        decodable(cs),
        canvas_of(canvas, cs.header.siz, reduction),
        0 <= i < cs.tiles.len(),
        resolve_spec(cs.header, cs.tiles[i].header) is Ok,
        tile_result(cs, reduction, i) == Ok::<Seq<SamplesView>, Fault>(samples),
        lossy_below(samples, samples.len()) == 0,
    ensures
        exact_tile(cs, reduction, i),
        place_spec(
            canvas,
            cs.header.siz,
            i,
            reduction,
            samples,
            Seq::empty(),
        ) matches Ok(next) && canvas_of(next, cs.header.siz, reduction) && canvas_shows(
            cs,
            reduction,
            canvas,
            i,
            i + 1,
            next,
        ),
{
    let siz = cs.header.siz;
    assert forall|k: int| 0 <= k < siz.components.len() implies #[trigger] siz.has_component(k) by {
        let d = siz.components[k];
    }
    assert(tile_decodable(cs.header, cs.tiles[i], i));
    let h = resolve_spec(cs.header, cs.tiles[i].header)->Ok_0;
    lemma_tile_admitted(siz, i);
    lemma_tile_fills_its_part(h, cs.tiles[i], reduction);
    assert forall|c: int| 0 <= c < samples.len() implies (#[trigger] samples[c]) is Reversible by {
        lemma_lossy_counts(samples, c, samples.len());
    }
    lemma_tile_is_placed(canvas, h, i, reduction, samples, Seq::empty());
    let next = place_spec(canvas, siz, i, reduction, samples, Seq::empty())->Ok_0;
    assert forall|t: int, c: int, x: int, y: int|
        0 <= t < cs.tiles.len() && 0 <= c < siz.components.len() && #[trigger] tile_cell(
            siz,
            t,
            c,
            reduction,
        ).contains(x, y) implies canvas_at(next, c, x, y) == if i <= t < i + 1 {
        tile_at(cs, reduction, t, c, x, y)
    } else {
        canvas_at(canvas, c, x, y)
    } by {
        lemma_parts_kept(cs, reduction, canvas, next, samples, i, t, c, x, y);
    }
}

/// How a decode goes on from tile `i`.
proof fn lemma_run_goes_on(cs: CodestreamView, reduction: nat, canvas: CanvasView, i: int)
    requires
        decodable(cs),
        canvas_of(canvas, cs.header.siz, reduction),
        0 <= i <= cs.tiles.len(),
    ensures
        match run_from(cs, reduction, canvas, i) {
            Ok(DecodedView::Lossy(l)) => {
                &&& waits_at(l, cs, reduction)
                &&& i <= l.index
                &&& exact_tiles(cs, reduction, i, l.index)
                &&& canvas_shows(cs, reduction, canvas, i, l.index, l.canvas)
            },
            Ok(DecodedView::Image(image)) => {
                &&& exact_tiles(cs, reduction, i, cs.tiles.len() as int)
                &&& image_shows(cs, reduction, canvas, i, image)
            },
            Err(_) => true,
        },
    decreases cs.tiles.len() - i,
{
    if i >= cs.tiles.len() {
        lemma_complete(cs, reduction, canvas);
    } else {
        let siz = cs.header.siz;
        assert(tile_decodable(cs.header, cs.tiles[i], i));
        let h = resolve_spec(cs.header, cs.tiles[i].header)->Ok_0;
        match tile_samples(h, cs.tiles[i], reduction) {
            Err(_) => {},
            Ok(samples) => if lossy_below(samples, samples.len()) > 0 {
                lemma_some_lossy(samples, samples.len());
            } else {
                lemma_exact_placed(cs, reduction, canvas, i, samples);
                let next = place_spec(canvas, siz, i, reduction, samples, Seq::empty())->Ok_0;
                lemma_run_goes_on(cs, reduction, next, i + 1);
            },
        }
    }
}

/// A decode waits at the first tile that has an irreversible component: every tile
/// before it decodes to integer samples, which the canvas shows in that tile's part. A
/// decode that ends has met no such tile, and its image shows every tile's samples.
pub proof fn lemma_decode_passes_no_tile_over(b: Seq<u8>, reduction: nat)
    ensures
        decode_spec(b, reduction) matches Ok(decoded) ==> parse_spec(b) matches Ok(cs)
            && match decoded {
            DecodedView::Lossy(l) => {
                &&& waits_at(l, cs, reduction)
                &&& exact_tiles(cs, reduction, 0, l.index)
                &&& canvas_shows(
                    cs,
                    reduction,
                    CanvasView::blank(cs.header.siz, reduction),
                    0,
                    l.index,
                    l.canvas,
                )
            },
            DecodedView::Image(image) => {
                &&& exact_tiles(cs, reduction, 0, cs.tiles.len() as int)
                &&& image_shows(
                    cs,
                    reduction,
                    CanvasView::blank(cs.header.siz, reduction),
                    0,
                    image,
                )
            },
        },
{
    lemma_parsed_decodable(b);
    match parse_spec(b) {
        Ok(cs) => {
            lemma_blank(cs.header.siz, reduction);
            lemma_run_goes_on(cs, reduction, CanvasView::blank(cs.header.siz, reduction), 0);
        },
        Err(_) => {},
    }
}

/// Canvas `held` with a waiting tile in place: in the tile's part it shows the `k`-th
/// synthesised plane in the `k`-th irreversible component and the integer samples of
/// the others, and in the parts of the other tiles what the waiting canvas showed.
pub open spec fn tile_in_place(
    l: LossyTileView,
    which: Seq<int>,
    synthesised: Seq<Seq<i32>>,
    held: CanvasView,
) -> bool {
    let siz = l.codestream.header.siz;
    &&& forall|k: int, x: int, y: int|
        0 <= k < which.len() && #[trigger] tile_cell(
            siz,
            l.index,
            which[k],
            l.reduction,
        ).contains(x, y) ==> canvas_at(held, which[k], x, y) == raster_at(
            synthesised[k],
            tile_cell(siz, l.index, which[k], l.reduction),
            x,
            y,
        )
    &&& forall|t: int, c: int, x: int, y: int|
        0 <= t < l.codestream.tiles.len() && 0 <= c < siz.components.len() && #[trigger] tile_cell(
            siz,
            t,
            c,
            l.reduction,
        ).contains(x, y) ==> if t != l.index {
            canvas_at(held, c, x, y) == canvas_at(l.canvas, c, x, y)
        } else {
            l.samples[c] matches SamplesView::Reversible(v) ==> canvas_at(held, c, x, y)
                == raster_at(v, tile_cell(siz, t, c, l.reduction), x, y)
        }
}

/// A waiting tile is put in its place.
proof fn lemma_waiting_placed(
    l: LossyTileView,
    cs: CodestreamView,
    reduction: nat,
    which: Seq<int>,
    synthesised: Seq<Seq<i32>>,
)
    requires
        decodable(cs),
        waits_at(l, cs, reduction),
        lists_lossy(l.samples, which),
        planes_fill(l.header, l.index, reduction, which, synthesised),
    ensures
        place_spec(
            l.canvas,
            cs.header.siz,
            l.index,
            reduction,
            l.samples,
            synthesised,
        ) matches Ok(held) && canvas_of(held, cs.header.siz, reduction) && tile_in_place(
            l,
            which,
            synthesised,
            held,
        ),
{
    let siz = cs.header.siz;
    let i = l.index;
    assert forall|k: int| 0 <= k < siz.components.len() implies #[trigger] siz.has_component(k) by {
        let d = siz.components[k];
    }
    assert(tile_decodable(cs.header, cs.tiles[i], i));
    lemma_tile_admitted(siz, i);
    lemma_tile_fills_its_part(l.header, cs.tiles[i], reduction);
    lemma_planes_in_component_order(
        l.canvas,
        l.header,
        i,
        reduction,
        l.samples,
        which,
        synthesised,
    );
    let held = place_spec(l.canvas, siz, i, reduction, l.samples, synthesised)->Ok_0;
    assert forall|t: int, c: int, x: int, y: int|
        0 <= t < cs.tiles.len() && 0 <= c < siz.components.len() && #[trigger] tile_cell(
            siz,
            t,
            c,
            reduction,
        ).contains(x, y) implies held.rects[c].contains(x, y) && (t != i ==> !tile_cell(
        siz,
        i,
        c,
        reduction,
    ).contains(x, y)) by {
        assert(siz.has_component(c));
        lemma_tile_inside(siz, t, c, reduction);
        assert(held.rects[c] == siz.component_rect(c).unwrap().reduced_spec(reduction));
        if t != i && tile_cell(siz, i, c, reduction).contains(x, y) {
            let only = lemma_tiles_partition(siz, c, reduction, x, y);
            assert(tile_cell(siz, t, c, reduction).contains(x, y));
        }
    }
    assert forall|k: int, x: int, y: int|
        0 <= k < which.len() && #[trigger] tile_cell(siz, i, which[k], reduction).contains(
            x,
            y,
        ) implies canvas_at(held, which[k], x, y) == raster_at(
        synthesised[k],
        tile_cell(siz, i, which[k], reduction),
        x,
        y,
    ) by {
        assert(0 <= which[k] < siz.components.len());
        assert(held.rects[which[k]].contains(x, y));
    }
    assert forall|t: int, c: int, x: int, y: int|
        0 <= t < cs.tiles.len() && 0 <= c < siz.components.len() && #[trigger] tile_cell(
            siz,
            t,
            c,
            reduction,
        ).contains(x, y) implies if t != i {
        canvas_at(held, c, x, y) == canvas_at(l.canvas, c, x, y)
    } else {
        l.samples[c] matches SamplesView::Reversible(v) ==> canvas_at(held, c, x, y) == raster_at(
            v,
            tile_cell(siz, t, c, reduction),
            x,
            y,
        )
    } by {
        assert(held.rects[c].contains(x, y));
        assert(canvas_at(held, c, x, y) == canvas_at(held, c, x, y));
    }
}

/// A decode that is resumed takes the waiting tile's planes and goes on behind that
/// tile: the next tile it waits at is the next one with an irreversible component, the
/// tiles between the two decode to integer samples, and the canvas shows all of them in
/// their parts. Where no such tile follows, the image shows them all.
pub proof fn lemma_resumed_decode_goes_on(
    l: LossyTileView,
    cs: CodestreamView,
    reduction: nat,
    which: Seq<int>,
    synthesised: Seq<Seq<i32>>,
)
    requires
        decodable(cs),
        waits_at(l, cs, reduction),
        lists_lossy(l.samples, which),
        planes_fill(l.header, l.index, reduction, which, synthesised),
    ensures
        exists|held: CanvasView| #[trigger] tile_in_place(l, which, synthesised, held)
            && match l.resume(synthesised) {
            Ok(DecodedView::Lossy(m)) => {
                &&& waits_at(m, cs, reduction)
                &&& l.index < m.index
                &&& exact_tiles(cs, reduction, l.index + 1, m.index)
                &&& canvas_shows(cs, reduction, held, l.index + 1, m.index, m.canvas)
            },
            Ok(DecodedView::Image(image)) => {
                &&& exact_tiles(cs, reduction, l.index + 1, cs.tiles.len() as int)
                &&& image_shows(cs, reduction, held, l.index + 1, image)
            },
            Err(_) => true,
        },
{
    lemma_waiting_placed(l, cs, reduction, which, synthesised);
    assert(tile_decodable(cs.header, cs.tiles[l.index], l.index));
    let held = place_spec(
        l.canvas,
        cs.header.siz,
        l.index,
        reduction,
        l.samples,
        synthesised,
    )->Ok_0;
    lemma_run_goes_on(cs, reduction, held, l.index + 1);
    assert(tile_in_place(l, which, synthesised, held));
}

} // verus!
