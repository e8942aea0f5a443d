//! A component is decoded under its own parameters: neither the other components'
//! parameters nor their samples have a part in its geometry, its coefficients, its
//! quantization steps or its samples.

use crate::codestream::markers::SizView;
use crate::codestream::HeaderView;
use crate::dwt::inverse_spec;
use crate::image::{
    assemble_spec as image_assemble, component_spec as image_component, components_from,
    ComponentView,
};
use crate::pipeline::{CoeffsView, DetailView};
use crate::quant::steps_spec;
use crate::tier1::{
    assemble_spec, component_spec, detail_spec, kept_levels, kind_spec, levels_spec,
};
use crate::tier2::geometry::geoms_spec;
use crate::tier2::{BandKind, SubbandView};
use vstd::prelude::*;

verus! {

/// Two headers have the same parameters for component `comp`.
pub open spec fn same_params(a: HeaderView, b: HeaderView, comp: int) -> bool {
    &&& 0 <= comp < a.components.len()
    &&& comp < b.components.len()
    &&& a.components[comp] == b.components[comp]
}

/// A component's resolutions, precincts, subbands and code-blocks follow from its own
/// coding and its own part of the tile.
pub proof fn lemma_geometry_is_its_own(
    a: HeaderView,
    b: HeaderView,
    tile: int,
    comp: int,
    precincts: int,
    blocks: int,
)
    requires
        same_params(a, b, comp),
        a.siz.tile_component_rect(tile, comp) == b.siz.tile_component_rect(tile, comp),
    ensures
        geoms_spec(a, tile, comp, precincts, blocks) == geoms_spec(
            b,
            tile,
            comp,
            precincts,
            blocks,
        ),
{
    match (
        geoms_spec(a, tile, comp, precincts, blocks),
        geoms_spec(b, tile, comp, precincts, blocks),
    ) {
        (Ok(u), Ok(v)) => {
            assert(u =~= v);
        },
        _ => {},
    }
}

/// The detail bands of a component under its own parameters.
proof fn lemma_levels(
    a: HeaderView,
    b: HeaderView,
    comp: int,
    coded: Seq<Seq<SubbandView>>,
    done: Seq<DetailView<i32>>,
    n: int,
)
    requires
        same_params(a, b, comp),
    ensures
        levels_spec(a, comp, coded, done, n) == levels_spec(b, comp, coded, done, n),
    decreases n - done.len(),
{
    if done.len() < n {
        let level = done.len() as int;
        assert(detail_spec(a, comp, coded[level + 1], level) == detail_spec(
            b,
            comp,
            coded[level + 1],
            level,
        ));
        match detail_spec(a, comp, coded[level + 1], level) {
            Ok(d) => {
                lemma_levels(a, b, comp, coded, done.push(d), n);
            },
            Err(_) => {},
        }
    }
}

/// A component's coefficients follow from its own blocks, style, step table and region
/// of interest.
pub proof fn lemma_coefficients_are_its_own(
    a: HeaderView,
    b: HeaderView,
    comp: int,
    coded: Seq<Seq<SubbandView>>,
    reduction: nat,
)
    requires
        same_params(a, b, comp),
    ensures
        component_spec(a, comp, coded, reduction) == component_spec(b, comp, coded, reduction),
{
    lemma_levels(a, b, comp, coded, Seq::empty(), kept_levels(coded.len(), reduction));
    assert(kind_spec(a, comp, coded[0], BandKind::Ll, 0) == kind_spec(
        b,
        comp,
        coded[0],
        BandKind::Ll,
        0,
    ));
    assert(assemble_spec(a, comp, coded, reduction) == assemble_spec(b, comp, coded, reduction));
}

/// A component's quantization steps follow from its own step table and bit depth, and
/// its samples from these and its own coefficients.
pub proof fn lemma_samples_are_its_own(a: HeaderView, b: HeaderView, comp: int, c: CoeffsView)
    requires
        same_params(a, b, comp),
        0 <= comp < a.siz.components.len(),
        comp < b.siz.components.len(),
        a.siz.components[comp].bit_depth == b.siz.components[comp].bit_depth,
    ensures
        forall|levels: nat| #[trigger]
            steps_spec(a, comp, levels) == steps_spec(b, comp, levels),
        inverse_spec(a, comp, c) == inverse_spec(b, comp, c),
{
    assert forall|levels: nat| #[trigger] steps_spec(a, comp, levels) == steps_spec(
        b,
        comp,
        levels,
    ) by {
        match (steps_spec(a, comp, levels), steps_spec(b, comp, levels)) {
            (Ok(u), Ok(v)) => {
                assert(u =~= v);
            },
            _ => {},
        }
    }
}

/// A component of the image is its own plane at its own depth, sign and sub-sampling,
/// which it states, with one sample for each position of its grid.
pub proof fn lemma_image_component_is_its_own(
    siz: SizView,
    index: int,
    samples: Seq<i32>,
    reduction: nat,
)
    requires
        0 <= index < siz.components.len(),
    ensures
        image_component(siz, index, samples, reduction) matches Ok(c) ==> {
            &&& c.bit_depth == siz.components[index].bit_depth
            &&& c.signed == siz.components[index].signed
            &&& c.x_sampling == siz.components[index].x_sampling
            &&& c.y_sampling == siz.components[index].y_sampling
            &&& c.samples.len() == samples.len()
            &&& siz.component_rect(index) matches Some(r) && {
                let kept = r.reduced_spec(reduction);
                &&& c.width == kept.width_spec()
                &&& c.height == kept.height_spec()
                &&& c.samples.len() == c.width * c.height
            }
        },
{
}

/// An image covers the image area, at a reduction the samples of it that the reduction
/// keeps, with one component for each that is declared.
pub proof fn lemma_image_covers_its_area(h: HeaderView, planes: Seq<Seq<i32>>, reduction: nat)
    requires
        h.siz.x_offset <= h.siz.x_size,
        h.siz.y_offset <= h.siz.y_size,
    ensures
        image_assemble(h, planes, reduction) matches Ok(image) ==> {
            let area = h.siz.image_rect().reduced_spec(reduction);
            &&& image.width == area.width_spec()
            &&& image.height == area.height_spec()
            &&& reduction == 0 ==> image.width == h.siz.x_size - h.siz.x_offset && image.height
                == h.siz.y_size - h.siz.y_offset
            &&& image.components.len() == h.siz.components.len()
        },
{
    crate::assembly::lemma_reduced(h.siz.image_rect(), reduction);
    vstd::arithmetic::power2::lemma2_to64();
    crate::math::lemma_ceil_div(h.siz.x_size as int, 1);
    crate::math::lemma_ceil_div(h.siz.x_offset as int, 1);
    crate::math::lemma_ceil_div(h.siz.y_size as int, 1);
    crate::math::lemma_ceil_div(h.siz.y_offset as int, 1);
    lemma_component_count(h.siz, planes, reduction, Seq::empty());
}

/// One component comes of each plane.
proof fn lemma_component_count(
    siz: SizView,
    planes: Seq<Seq<i32>>,
    reduction: nat,
    done: Seq<ComponentView>,
)
    requires
        done.len() <= planes.len(),
    ensures
        components_from(siz, planes, reduction, done) matches Ok(out) ==> out.len()
            == planes.len(),
    decreases planes.len() - done.len(),
{
    if done.len() < planes.len() {
        match image_component(siz, done.len() as int, planes[done.len() as int], reduction) {
            Ok(c) => {
                lemma_component_count(siz, planes, reduction, done.push(c));
            },
            Err(_) => {},
        }
    }
}

} // verus!
