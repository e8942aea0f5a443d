//! What a resolution reduction gives: the lower resolutions of the wavelet pyramid
//! itself, each half the extent of the one above it. One that leaves a component no
//! resolution is rejected.

use crate::codestream::markers::{reduce, Rect};
use crate::codestream::resolve::resolve_spec;
use crate::codestream::{parse_spec, CodestreamView, HeaderView, TileView};
use crate::decoder::{
    decode_spec, exhausted_text, exhausts, lossy_below, place_spec, run_from, tile_samples,
    DecodedView,
};
use crate::dwt::{merged, merged_from};
use crate::error::{fault, ErrorKind, Fault};
use crate::image::CanvasView;
use crate::math::{ceil_div, lemma_ceil_div_twice, min_int};
use crate::pipeline::{BandsView, DetailView, GridView, SamplesView};
use crate::tier1::{assemble_spec, detail_spec, kept_levels, levels_spec};
use crate::tier2::SubbandView;
use vstd::arithmetic::power2::{lemma_pow2_pos, lemma_pow2_unfold, pow2};
use vstd::prelude::*;

verus! {

/// One more level halves a coordinate, rounding up.
pub proof fn lemma_reduction_halves(v: u32, reduction: nat)
    requires
        reduction < 32,
    ensures
        reduce(v as int, reduction + 1) == ceil_div(reduce(v as int, reduction), 2),
        reduce(v as int, 0) == v,
{
    lemma_pow2_pos(reduction);
    lemma_pow2_unfold(reduction + 1);
    vstd::arithmetic::power2::lemma2_to64();
    let p = pow2(reduction) as int;
    lemma_ceil_div_twice(v as int, p, 2);
    assert(min_int(0, 32) == 0);
    assert(ceil_div(v as int, 1) == v);
    assert(p * 2 == pow2(reduction + 1));
}

/// A rectangle at the origin halves in both extents, rounding up.
pub proof fn lemma_extent_halves(r: Rect, reduction: nat)
    requires
        r.x0 == 0,
        r.y0 == 0,
        reduction < 32,
    ensures
        r.reduced_spec(reduction + 1).width_spec() == ceil_div(
            r.reduced_spec(reduction).width_spec(),
            2,
        ),
        r.reduced_spec(reduction + 1).height_spec() == ceil_div(
            r.reduced_spec(reduction).height_spec(),
            2,
        ),
{
    lemma_reduction_halves(r.x1, reduction);
    lemma_reduction_halves(r.y1, reduction);
    lemma_reduction_halves(0, reduction);
    crate::assembly::lemma_reduced(r, reduction);
    crate::assembly::lemma_reduced(r, reduction + 1);
    lemma_origin_stays(reduction);
    lemma_origin_stays(reduction + 1);
}

/// The origin stays at the origin.
proof fn lemma_origin_stays(reduction: nat)
    ensures
        reduce(0, reduction) == 0,
{
    let e = min_int(reduction as int, 32) as nat;
    lemma_pow2_pos(e);
    crate::math::lemma_ceil_div_unique(0, pow2(e) as int, 0);
}

/// The detail bands that are done stay, and `m` come out.
proof fn lemma_levels_grow(
    h: HeaderView,
    comp: int,
    coded: Seq<Seq<SubbandView>>,
    done: Seq<DetailView<i32>>,
    m: int,
)
    requires
        done.len() <= m,
    ensures
        levels_spec(h, comp, coded, done, m) matches Ok(all) ==> all.len() == m && forall|k: int|
            0 <= k < done.len() ==> all[k] == #[trigger] done[k],
    decreases m - done.len(),
{
    if done.len() < m {
        let level = done.len() as int;
        match detail_spec(h, comp, coded[level + 1], level) {
            Ok(d) => {
                let next = done.push(d);
                lemma_levels_grow(h, comp, coded, next, m);
                assert forall|k: int| 0 <= k < done.len() implies next[k] == #[trigger] done[k] by {}
            },
            Err(_) => {},
        }
    }
}

/// The detail bands of fewer resolutions are the first of those of more.
proof fn lemma_levels_prefix(
    h: HeaderView,
    comp: int,
    coded: Seq<Seq<SubbandView>>,
    done: Seq<DetailView<i32>>,
    n: int,
    m: int,
)
    requires
        done.len() <= n <= m,
    ensures
        levels_spec(h, comp, coded, done, m) matches Ok(all) ==> levels_spec(
            h,
            comp,
            coded,
            done,
            n,
        ) == Ok::<Seq<DetailView<i32>>, Fault>(all.take(n)),
    decreases n - done.len(),
{
    if done.len() == n {
        lemma_levels_grow(h, comp, coded, done, m);
        match levels_spec(h, comp, coded, done, m) {
            Ok(all) => {
                assert(all.take(n) =~= done);
            },
            Err(_) => {},
        }
    } else {
        let level = done.len() as int;
        match detail_spec(h, comp, coded[level + 1], level) {
            Ok(d) => {
                lemma_levels_prefix(h, comp, coded, done.push(d), n, m);
            },
            Err(_) => {},
        }
    }
}

/// Where a component decodes in full, its pyramid at a reduction is the full one
/// without its finest levels.
pub proof fn lemma_reduction_drops_levels(
    h: HeaderView,
    comp: int,
    coded: Seq<Seq<SubbandView>>,
    reduction: nat,
)
    requires
        reduction < coded.len(),
    ensures
        assemble_spec(h, comp, coded, 0) matches Ok(full) ==> {
            &&& full.levels.len() == coded.len() - 1
            &&& assemble_spec(h, comp, coded, reduction) == Ok::<BandsView<i32>, Fault>(
                BandsView {
                    ll: full.ll,
                    levels: full.levels.take(full.levels.len() - reduction),
                },
            )
        },
{
    let n = kept_levels(coded.len(), reduction);
    let m = kept_levels(coded.len(), 0);
    lemma_levels_prefix(h, comp, coded, Seq::empty(), n, m);
    lemma_levels_grow(h, comp, coded, Seq::empty(), m);
}

/// Merging a pyramid passes through its lower resolutions: the full reconstruction
/// goes on from what the first `n` levels merge into.
pub proof fn lemma_merge_passes_through(
    ll: GridView<i32>,
    levels: Seq<DetailView<i32>>,
    i: int,
    n: int,
)
    requires
        0 <= i <= n <= levels.len(),
    ensures
        merged_from(ll, levels, i) == merged_from(merged_from(ll, levels.take(n), i), levels, n),
    decreases n - i,
{
    if i < n {
        assert(levels.take(n)[i] == levels[i]);
        lemma_merge_passes_through(merged(ll, levels[i]), levels, i + 1, n);
    }
}

/// A tile whose reduction leaves a component no resolution is rejected.
proof fn lemma_exhausted_tile(h: HeaderView, tile: TileView, reduction: nat)
    ensures
        exhausts(h, reduction) ==> tile_samples(h, tile, reduction) == Err::<
            Seq<SamplesView>,
            Fault,
        >(
            fault(ErrorKind::InvalidOptions, exhausted_text(h, reduction, tile.index as int)),
        ),
{
    reveal(tile_samples);
}

/// A decode that comes past a tile, or waits for its synthesis, leaves each of its
/// components a resolution.
pub proof fn lemma_reduction_is_bounded(
    cs: CodestreamView,
    reduction: nat,
    canvas: CanvasView,
    i: int,
    tile: int,
)
    requires
        0 <= i <= tile < cs.tiles.len(),
        run_from(cs, reduction, canvas, i) matches Ok(d) && (d matches DecodedView::Lossy(l)
            ==> tile <= l.index),
    ensures
        resolve_spec(cs.header, cs.tiles[tile].header) matches Ok(h) && !exhausts(h, reduction),
    decreases cs.tiles.len() - i,
{
    match resolve_spec(cs.header, cs.tiles[i].header) {
        Err(_) => {},
        Ok(h) => match tile_samples(h, cs.tiles[i], reduction) {
            Err(_) => {},
            Ok(samples) => if i == tile {
                lemma_exhausted_tile(h, cs.tiles[i], reduction);
            } else if lossy_below(samples, samples.len()) == 0 {
                match place_spec(
                    canvas,
                    cs.header.siz,
                    cs.tiles[i].index as int,
                    reduction,
                    samples,
                    Seq::empty(),
                ) {
                    Err(_) => {},
                    Ok(next) => {
                        lemma_reduction_is_bounded(cs, reduction, next, i + 1, tile);
                    },
                }
            },
        },
    }
}

/// A reduction that leaves a component of the first tile no resolution is rejected,
/// and the message names the component and the tile.
pub proof fn lemma_excess_reduction_is_rejected(b: Seq<u8>, reduction: nat)
    requires
        parse_spec(b) matches Ok(cs) && cs.tiles.len() > 0 && (resolve_spec(
            cs.header,
            cs.tiles[0].header,
        ) matches Ok(h) && exhausts(h, reduction)),
    ensures
        ({
            let cs = parse_spec(b)->Ok_0;
            let h = resolve_spec(cs.header, cs.tiles[0].header)->Ok_0;
            decode_spec(b, reduction) == Err::<DecodedView, Fault>(
                fault(
                    ErrorKind::InvalidOptions,
                    exhausted_text(h, reduction, cs.tiles[0].index as int),
                ),
            )
        }),
{
    let cs = parse_spec(b)->Ok_0;
    let h = resolve_spec(cs.header, cs.tiles[0].header)->Ok_0;
    lemma_exhausted_tile(h, cs.tiles[0], reduction);
}

} // verus!
