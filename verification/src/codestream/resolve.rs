//! A tile's parameters: the main header with the tile-part header's markers laid
//! over it, in the standard's order of precedence (ISO/IEC 15444-1 A.6.1).

use super::lists::MAX_POC_VOLUMES;
use super::main_header::{resolved_fault, resolved_text, validate_resolved};
use super::markers::{
    params_views, Cod, Coding, CodingView, ComponentParams, ParamsView, Qcd, QcdView,
};
use super::{HeaderView, MainHeader, TileHeader, TileHeaderView};
use crate::error::{Error, ErrorKind, Result};
use vstd::prelude::*;
use vstd::string::*;

verus! {

/// What the overrides give for component `i`, if one names it.
pub open spec fn override_for<T>(s: Seq<(int, T)>, i: int) -> Option<T>
    decreases s.len(),
{
    if s.len() == 0 {
        None
    } else if s.last().0 == i {
        Some(s.last().1)
    } else {
        override_for(s.drop_last(), i)
    }
}

/// Every override names one of `count` components.
pub open spec fn overrides_in<T>(s: Seq<(int, T)>, count: int) -> bool {
    forall|j: int| 0 <= j < s.len() ==> 0 <= (#[trigger] s[j]).0 < count
}

impl TileHeaderView {
    /// Every override names one of `count` components.
    pub open spec fn in_range(self, count: int) -> bool {
        overrides_in(self.coc, count) && overrides_in(self.qcc, count) && overrides_in(
            self.rgn,
            count,
        )
    }
}

/// The coding of component `i` in a tile: the tile's COC, else its COD, else what
/// the main header resolved.
pub open spec fn tile_coding(main: HeaderView, t: TileHeaderView, i: int) -> CodingView {
    match override_for(t.coc, i) {
        Some(c) => c,
        None => match t.cod {
            Some(c) => c.coding,
            None => main.components[i].coding,
        },
    }
}

/// The quantization of component `i` in a tile: the tile's QCC, else its QCD, else
/// what the main header resolved.
pub open spec fn tile_quant(main: HeaderView, t: TileHeaderView, i: int) -> QcdView {
    match override_for(t.qcc, i) {
        Some(q) => q,
        None => match t.qcd {
            Some(q) => q,
            None => main.components[i].quant,
        },
    }
}

/// The maxshift of component `i` in a tile: the tile's RGN, else the main header's.
pub open spec fn tile_shift(main: HeaderView, t: TileHeaderView, i: int) -> u8 {
    match override_for(t.rgn, i) {
        Some(s) => s,
        None => main.components[i].roi_shift,
    }
}

/// The parameters that a tile decodes under. The tile's progression volumes follow
/// the main header's.
pub open spec fn tile_params(main: HeaderView, t: TileHeaderView) -> HeaderView {
    HeaderView {
        cod: match t.cod {
            Some(c) => c,
            None => main.cod,
        },
        qcd: match t.qcd {
            Some(q) => q,
            None => main.qcd,
        },
        components: Seq::new(
            main.components.len(),
            |i: int|
                ParamsView {
                    coding: tile_coding(main, t, i),
                    quant: tile_quant(main, t, i),
                    roi_shift: tile_shift(main, t, i),
                },
        ),
        poc: main.poc + t.poc,
        ..main
    }
}

/// What is said of a tile whose parameters do not resolve.
pub open spec fn resolve_text(main: HeaderView, t: TileHeaderView) -> Seq<char> {
    let h = tile_params(main, t);
    if h.poc.len() > MAX_POC_VOLUMES {
        "more than 32 progression volumes in a tile, the decode guard"@
    } else {
        resolved_text(h)
    }
}

/// What [`resolve_tile_header`] makes of a tile.
pub open spec fn resolve_spec(main: HeaderView, t: TileHeaderView) -> core::result::Result<
    HeaderView,
    ErrorKind,
> {
    let h = tile_params(main, t);
    if h.poc.len() > MAX_POC_VOLUMES {
        Err(ErrorKind::Limit)
    } else {
        match resolved_fault(h) {
            Some(e) => Err(e),
            None => Ok(h),
        }
    }
}

/// A tile COD outranks a main-header COC, and a tile COC outranks the tile COD:
/// the coding of a component is the first of tile COC, tile COD, main COC and main
/// COD that there is. The quantization follows the same ladder.
pub proof fn lemma_precedence(main: HeaderView, t: TileHeaderView, i: int)
    requires
        main.wf(),
        0 <= i < main.components.len(),
    ensures
        override_for(t.coc, i) matches Some(c) ==> tile_params(main, t).components[i].coding == c,
        override_for(t.coc, i) is None && t.cod is Some ==> tile_params(main, t).components[i].coding
            == t.cod->Some_0.coding,
        override_for(t.coc, i) is None && t.cod is None ==> tile_params(main, t).components[i].coding
            == main.components[i].coding,
        override_for(t.qcc, i) matches Some(q) ==> tile_params(main, t).components[i].quant == q,
        override_for(t.qcc, i) is None && t.qcd is Some ==> tile_params(main, t).components[i].quant
            == t.qcd->Some_0,
        override_for(t.qcc, i) is None && t.qcd is None ==> tile_params(main, t).components[i].quant
            == main.components[i].quant,
        override_for(t.rgn, i) matches Some(s) ==> tile_params(main, t).components[i].roi_shift == s,
        override_for(t.rgn, i) is None ==> tile_params(main, t).components[i].roi_shift
            == main.components[i].roi_shift,
{
}

/// A tile's own COD decides its progression, its layers, its packet delimiters and its
/// colour transform; without one the main header does. The tile's progression volumes
/// come after all those of the main header, each list in its order. The image and tile
/// grid stays that of the main header.
pub proof fn lemma_tile_wide_parameters(main: HeaderView, t: TileHeaderView)
    ensures
        ({
            let h = tile_params(main, t);
            let source = if t.cod is Some {
                t.cod->Some_0
            } else {
                main.cod
            };
            &&& h.siz == main.siz
            &&& h.components.len() == main.components.len()
            &&& h.cod.progression == source.progression
            &&& h.cod.layers == source.layers
            &&& h.cod.use_sop == source.use_sop
            &&& h.cod.use_eph == source.use_eph
            &&& h.cod.multiple_component_transform == source.multiple_component_transform
            &&& h.poc.len() == main.poc.len() + t.poc.len()
            &&& forall|i: int|
                0 <= i < main.poc.len() ==> #[trigger] h.poc[i] == main.poc[i]
            &&& forall|i: int|
                0 <= i < t.poc.len() ==> h.poc[main.poc.len() + i] == #[trigger] t.poc[i]
        }),
{
}

/// A tile without markers of its own decodes under the main header's parameters.
pub proof fn lemma_no_overrides(main: HeaderView)
    requires
        main.wf(),
    ensures
        tile_params(main, TileHeaderView::empty()) == main,
{
    let h = tile_params(main, TileHeaderView::empty());
    assert forall|i: int| 0 <= i < main.components.len() implies h.components[i]
        == main.components[i] by {}
    assert(h.components =~= main.components);
    assert(h.poc =~= main.poc);
}

/// Lay the tile's default coding over every component.
fn lay_coding(components: &mut Vec<ComponentParams>, cod: &Cod)
    ensures
        final(components)@.len() == old(components)@.len(),
        forall|i: int|
            0 <= i < final(components)@.len() ==> (#[trigger] final(components)@[i])@ == (
            ParamsView { coding: cod@.coding, ..old(components)@[i]@ }),
{
    let ghost before = components@;
    let mut i: usize = 0;
    while i < components.len()
        invariant
            components@.len() == before.len(),
            i <= before.len(),
            forall|j: int|
                0 <= j < before.len() ==> (#[trigger] components@[j])@ == (if j < i {
                    ParamsView { coding: cod@.coding, ..before[j]@ }
                } else {
                    before[j]@
                }),
        decreases before.len() - i,
    {
        let coding: Coding = cod.coding();
        components[i].coding = coding;
        i = i + 1;
    }
}

/// Lay the tile's default quantization over every component.
fn lay_quant(components: &mut Vec<ComponentParams>, qcd: &Qcd)
    ensures
        final(components)@.len() == old(components)@.len(),
        forall|i: int|
            0 <= i < final(components)@.len() ==> (#[trigger] final(components)@[i])@ == (
            ParamsView { quant: qcd@, ..old(components)@[i]@ }),
{
    let ghost before = components@;
    let mut i: usize = 0;
    while i < components.len()
        invariant
            components@.len() == before.len(),
            i <= before.len(),
            forall|j: int|
                0 <= j < before.len() ==> (#[trigger] components@[j])@ == (if j < i {
                    ParamsView { quant: qcd@, ..before[j]@ }
                } else {
                    before[j]@
                }),
        decreases before.len() - i,
    {
        let quant: Qcd = qcd.clone();
        components[i].quant = quant;
        i = i + 1;
    }
}

/// Lay the tile's per-component markers over the components that they name.
fn lay_overrides(components: &mut Vec<ComponentParams>, tile: &TileHeader)
    requires
        tile@.in_range(old(components)@.len() as int),
    ensures
        final(components)@.len() == old(components)@.len(),
        forall|i: int|
            0 <= i < final(components)@.len() ==> (#[trigger] final(components)@[i])@ == (
            ParamsView {
                coding: match override_for(tile@.coc, i) {
                    Some(c) => c,
                    None => old(components)@[i]@.coding,
                },
                quant: match override_for(tile@.qcc, i) {
                    Some(q) => q,
                    None => old(components)@[i]@.quant,
                },
                roi_shift: match override_for(tile@.rgn, i) {
                    Some(s) => s,
                    None => old(components)@[i]@.roi_shift,
                },
            }),
{
    let ghost before = params_views(components@);
    let ghost n = components@.len();
    let mut j: usize = 0;
    while j < tile.coc.len()
        invariant
            j <= tile.coc@.len(),
            tile@.in_range(n as int),
            components@.len() == n,
            before.len() == n,
            forall|i: int|
                0 <= i < n ==> (#[trigger] components@[i])@ == (ParamsView {
                    coding: match override_for(tile@.coc.take(j as int), i) {
                        Some(c) => c,
                        None => before[i].coding,
                    },
                    ..before[i]
                }),
        decreases tile.coc@.len() - j,
    {
        let index: usize = tile.coc[j].0;
        assert(tile@.coc[j as int] == (index as int, tile.coc@[j as int].1@));
        let ghost current = components@;
        let coding: Coding = tile.coc[j].1.clone();
        components[index].coding = coding;
        proof {
            let longer = tile@.coc.take(j + 1);
            assert(longer.drop_last() =~= tile@.coc.take(j as int));
            assert forall|i: int| 0 <= i < n implies (#[trigger] components@[i])@ == (ParamsView {
                coding: match override_for(longer, i) {
                    Some(c) => c,
                    None => before[i].coding,
                },
                ..before[i]
            }) by {
                assert(current[i]@ == current[i]@);
            }
        }
        j = j + 1;
    }
    assert(tile@.coc.take(j as int) =~= tile@.coc);
    let ghost middle = params_views(components@);
    let mut j: usize = 0;
    while j < tile.qcc.len()
        invariant
            j <= tile.qcc@.len(),
            tile@.in_range(n as int),
            components@.len() == n,
            middle.len() == n,
            forall|i: int|
                0 <= i < n ==> (#[trigger] components@[i])@ == (ParamsView {
                    quant: match override_for(tile@.qcc.take(j as int), i) {
                        Some(q) => q,
                        None => middle[i].quant,
                    },
                    ..middle[i]
                }),
        decreases tile.qcc@.len() - j,
    {
        let index: usize = tile.qcc[j].0;
        assert(tile@.qcc[j as int] == (index as int, tile.qcc@[j as int].1@));
        let ghost current = components@;
        let quant: Qcd = tile.qcc[j].1.clone();
        components[index].quant = quant;
        proof {
            let longer = tile@.qcc.take(j + 1);
            assert(longer.drop_last() =~= tile@.qcc.take(j as int));
            assert forall|i: int| 0 <= i < n implies (#[trigger] components@[i])@ == (ParamsView {
                quant: match override_for(longer, i) {
                    Some(q) => q,
                    None => middle[i].quant,
                },
                ..middle[i]
            }) by {
                assert(current[i]@ == current[i]@);
            }
        }
        j = j + 1;
    }
    assert(tile@.qcc.take(j as int) =~= tile@.qcc);
    let ghost later = params_views(components@);
    let mut j: usize = 0;
    while j < tile.rgn.len()
        invariant
            j <= tile.rgn@.len(),
            tile@.in_range(n as int),
            components@.len() == n,
            later.len() == n,
            forall|i: int|
                0 <= i < n ==> (#[trigger] components@[i])@ == (ParamsView {
                    roi_shift: match override_for(tile@.rgn.take(j as int), i) {
                        Some(s) => s,
                        None => later[i].roi_shift,
                    },
                    ..later[i]
                }),
        decreases tile.rgn@.len() - j,
    {
        let index: usize = tile.rgn[j].0;
        assert(tile@.rgn[j as int] == (index as int, tile.rgn@[j as int].1));
        let ghost current = components@;
        components[index].roi_shift = tile.rgn[j].1;
        proof {
            let longer = tile@.rgn.take(j + 1);
            assert(longer.drop_last() =~= tile@.rgn.take(j as int));
            assert forall|i: int| 0 <= i < n implies (#[trigger] components@[i])@ == (ParamsView {
                roi_shift: match override_for(longer, i) {
                    Some(s) => s,
                    None => later[i].roi_shift,
                },
                ..later[i]
            }) by {
                assert(current[i]@ == current[i]@);
            }
        }
        j = j + 1;
    }
    assert(tile@.rgn.take(j as int) =~= tile@.rgn);
    proof {
        assert forall|i: int| 0 <= i < n implies (#[trigger] components@[i])@ == (ParamsView {
            coding: match override_for(tile@.coc, i) {
                Some(c) => c,
                None => before[i].coding,
            },
            quant: match override_for(tile@.qcc, i) {
                Some(q) => q,
                None => before[i].quant,
            },
            roi_shift: match override_for(tile@.rgn, i) {
                Some(s) => s,
                None => before[i].roi_shift,
            },
        }) by {
            assert(later[i] == later[i]);
            assert(middle[i] == middle[i]);
        }
    }
}

/// Resolve one tile's parameters over the main header's. A tile COD or QCD is the
/// tile's new default and lands on every component; its per-component markers then
/// land on the components that they name.
pub fn resolve_tile_header(main: &MainHeader, tile: &TileHeader) -> (r: Result<MainHeader>)
    requires
        main@.wf(),
        tile@.in_range(main@.components.len() as int),
    ensures
        match r {
            Ok(h) => resolve_spec(main@, tile@) == Ok::<HeaderView, ErrorKind>(h@),
            Err(e) => {
                &&& resolve_spec(main@, tile@) == Err::<HeaderView, ErrorKind>(e.kind())
                &&& e.message() == resolve_text(main@, tile@)
            },
        },
{
    let ghost goal = tile_params(main@, tile@);
    let mut header: MainHeader = main.clone();
    let ghost start = header.components@;
    assert forall|i: int| 0 <= i < start.len() implies (#[trigger] start[i])@
        == main@.components[i] by {
        assert(header@.components[i] == main@.components[i]);
    }
    match &tile.cod {
        Some(cod) => {
            header.cod = cod.clone();
            lay_coding(&mut header.components, cod);
        },
        None => {},
    }
    let ghost coded = header.components@;
    match &tile.qcd {
        Some(qcd) => {
            header.qcd = qcd.clone();
            lay_quant(&mut header.components, qcd);
        },
        None => {},
    }
    let ghost laid = header.components@;
    lay_overrides(&mut header.components, tile);
    proof {
        assert forall|i: int| 0 <= i < main@.components.len() implies header@.components[i]
            == goal.components[i] by {
            assert(header.components@[i]@ == header.components@[i]@);
            assert(laid[i]@ == laid[i]@);
            assert(coded[i]@ == coded[i]@);
            assert(start[i]@ == main@.components[i]);
        }
        assert(header@.components =~= goal.components);
    }
    let mut i: usize = 0;
    assert(header.poc@ =~= main@.poc + tile.poc@.take(0));
    while i < tile.poc.len()
        invariant
            i <= tile.poc@.len(),
            header.poc@ == main@.poc + tile.poc@.take(i as int),
            header@ == (HeaderView { poc: header.poc@, ..goal }),
        decreases tile.poc@.len() - i,
    {
        header.poc.push(tile.poc[i]);
        assert(tile.poc@.take(i + 1) =~= tile.poc@.take(i as int).push(tile.poc@[i as int]));
        i = i + 1;
    }
    assert(tile.poc@.take(i as int) =~= tile.poc@);
    assert(header@ == goal);
    if header.poc.len() > MAX_POC_VOLUMES {
        return Err(
            Error::Limit(
                "more than 32 progression volumes in a tile, the decode guard".to_string(),
            ),
        );
    }
    validate_resolved(&header)?;
    Ok(header)
}

} // verus!
