//! Length tables and registration offsets are hints: a tile decodes the same
//! whatever they say, and whether or not they are there.

use crate::codestream::{HeaderView, TileView};
use crate::decoder::{first_exhausted, samples_from, tile_samples};
use crate::dwt::inverse_spec;
use crate::pipeline::{CoeffsView, DetailView, SamplesView};
use crate::quant::steps_spec;
use crate::tier1::{
    assemble_spec, code_blocks_spec, component_spec, detail_spec, kept_levels, kind_spec,
    levels_spec, numbps_spec,
};
use crate::tier2::geometry::{geoms_spec, MAX_CODE_BLOCKS, MAX_PRECINCTS};
use crate::tier2::progression::{volumes_of, walk_spec, WalkView};
use crate::tier2::tile::{all_geoms, initial_model, styles_of, TileSink};
use crate::tier2::{packets_spec, BandKind, SubbandView};
use vstd::prelude::*;

verus! {

/// Two headers differ in nothing but their tile-part lengths and their component
/// registration.
pub open spec fn alike_but_for_hints(a: HeaderView, b: HeaderView) -> bool {
    &&& a.siz == b.siz
    &&& a.cod == b.cod
    &&& a.qcd == b.qcd
    &&& a.components == b.components
    &&& a.poc == b.poc
}

/// The hints have no part in the geometry.
proof fn lemma_geoms(a: HeaderView, b: HeaderView, tile: int, c: int, pb: int, bb: int)
    requires
        alike_but_for_hints(a, b),
    ensures
        all_geoms(a, tile, c, pb, bb) == all_geoms(b, tile, c, pb, bb),
    decreases a.siz.components.len() - c,
{
    if 0 <= c < a.siz.components.len() {
        let (x, y) = (geoms_spec(a, tile, c, pb, bb), geoms_spec(b, tile, c, pb, bb));
        match (x, y) {
            (Ok(u), Ok(v)) => {
                assert(u =~= v);
                let tc = a.siz.tile_component_rect(tile, c).unwrap();
                let coding = a.components[c].coding;
                let count = coding.decomposition_levels as nat + 1;
                lemma_geoms(
                    a,
                    b,
                    tile,
                    c + 1,
                    pb - crate::tier2::geometry::precincts_below(tc, coding, count),
                    bb - crate::tier2::geometry::blocks_below(tc, coding, count, 0),
                );
            },
            _ => {},
        }
    }
}

/// The hints have no part in the packets.
proof fn lemma_packets(a: HeaderView, b: HeaderView, tile: TileView)
    requires
        alike_but_for_hints(a, b),
    ensures
        packets_spec(a, tile) == packets_spec(b, tile),
{
    let t = tile.index as int;
    lemma_geoms(a, b, t, 0, MAX_PRECINCTS as int, MAX_CODE_BLOCKS as int);
    match all_geoms(a, t, 0, MAX_PRECINCTS as int, MAX_CODE_BLOCKS as int) {
        Err(_) => {},
        Ok(geoms) => match a.siz.tile_rect(t) {
            None => {},
            Some(rect) => {
                let w = WalkView { siz: a.siz, tile: rect, geoms };
                assert(volumes_of(a, w) =~= volumes_of(b, w));
                assert(styles_of(a) =~= styles_of(b));
                assert(initial_model(a, tile, geoms) == initial_model(b, tile, geoms));
                assert(walk_spec::<TileSink>(a, w, initial_model(a, tile, geoms)) == walk_spec::<
                    TileSink,
                >(b, w, initial_model(b, tile, geoms)));
            },
        },
    }
}

/// The hints have no part in a band's coefficients.
proof fn lemma_kind(
    a: HeaderView,
    b: HeaderView,
    comp: int,
    res: Seq<SubbandView>,
    kind: BandKind,
    band: int,
)
    requires
        alike_but_for_hints(a, b),
    ensures
        kind_spec(a, comp, res, kind, band) == kind_spec(b, comp, res, kind, band),
{
    assert(numbps_spec(a, comp, band) == numbps_spec(b, comp, band));
}

/// The hints have no part in the detail bands.
proof fn lemma_levels(
    a: HeaderView,
    b: HeaderView,
    comp: int,
    coded: Seq<Seq<SubbandView>>,
    done: Seq<DetailView<i32>>,
    n: int,
)
    requires
        alike_but_for_hints(a, b),
    ensures
        levels_spec(a, comp, coded, done, n) == levels_spec(b, comp, coded, done, n),
    decreases n - done.len(),
{
    if done.len() < n {
        let level = done.len() as int;
        let base = 1 + level * 3;
        let res = coded[level + 1];
        lemma_kind(a, b, comp, res, BandKind::Hl, base);
        lemma_kind(a, b, comp, res, BandKind::Lh, base + 1);
        lemma_kind(a, b, comp, res, BandKind::Hh, base + 2);
        match detail_spec(a, comp, res, level) {
            Ok(d) => {
                lemma_levels(a, b, comp, coded, done.push(d), n);
            },
            Err(_) => {},
        }
    }
}

/// The hints have no part in the coefficients.
proof fn lemma_code_blocks(
    a: HeaderView,
    b: HeaderView,
    coded: Seq<Seq<Seq<SubbandView>>>,
    reduction: nat,
    done: Seq<CoeffsView>,
)
    requires
        alike_but_for_hints(a, b),
    ensures
        code_blocks_spec(a, coded, reduction, done) == code_blocks_spec(b, coded, reduction, done),
    decreases coded.len() - done.len(),
{
    if done.len() < coded.len() {
        let comp = done.len() as int;
        let c = coded[comp];
        lemma_kind(a, b, comp, c[0], BandKind::Ll, 0);
        lemma_levels(a, b, comp, c, Seq::empty(), kept_levels(c.len(), reduction));
        assert(assemble_spec(a, comp, c, reduction) == assemble_spec(b, comp, c, reduction));
        match component_spec(a, comp, c, reduction) {
            Ok(v) => {
                lemma_code_blocks(a, b, coded, reduction, done.push(v));
            },
            Err(_) => {},
        }
    }
}

/// The hints have no part in the inverse wavelet.
proof fn lemma_samples(
    a: HeaderView,
    b: HeaderView,
    coeffs: Seq<CoeffsView>,
    done: Seq<SamplesView>,
)
    requires
        alike_but_for_hints(a, b),
    ensures
        samples_from(a, coeffs, done) == samples_from(b, coeffs, done),
    decreases coeffs.len() - done.len(),
{
    if done.len() < coeffs.len() {
        let c = done.len() as int;
        let levels = a.components[c].coding.decomposition_levels as nat;
        match (steps_spec(a, c, levels), steps_spec(b, c, levels)) {
            (Ok(u), Ok(v)) => {
                assert(u =~= v);
            },
            _ => {},
        }
        assert(inverse_spec(a, c, coeffs[c]) == inverse_spec(b, c, coeffs[c]));
        match inverse_spec(a, c, coeffs[c]) {
            Ok(s) => {
                lemma_samples(a, b, coeffs, done.push(s));
            },
            Err(_) => {},
        }
    }
}

/// The hints have no part in which component a reduction exhausts.
proof fn lemma_first_exhausted(a: HeaderView, b: HeaderView, reduction: nat, c: int)
    requires
        alike_but_for_hints(a, b),
        0 <= c,
    ensures
        first_exhausted(a, reduction, c) == first_exhausted(b, reduction, c),
    decreases a.components.len() - c,
{
    if c < a.components.len() {
        lemma_first_exhausted(a, b, reduction, c + 1);
    }
}

/// A tile decodes the same under headers that differ in their hints alone.
pub proof fn lemma_hints_are_ignored(a: HeaderView, b: HeaderView, tile: TileView, reduction: nat)
    requires
        alike_but_for_hints(a, b),
    ensures
        tile_samples(a, tile, reduction) == tile_samples(b, tile, reduction),
{
    reveal(tile_samples);
    lemma_first_exhausted(a, b, reduction, 0);
    lemma_packets(a, b, tile);
    match packets_spec(a, tile) {
        Ok(coded) => {
            lemma_code_blocks(a, b, coded, reduction, Seq::empty());
            match code_blocks_spec(a, coded, reduction, Seq::empty()) {
                Ok(coeffs) => {
                    lemma_samples(a, b, coeffs, Seq::empty());
                },
                Err(_) => {},
            }
        },
        Err(_) => {},
    }
    assert(crate::decoder::exhausts(a, reduction) == crate::decoder::exhausts(b, reduction));
}

} // verus!
