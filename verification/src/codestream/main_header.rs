//! The main header: every marker segment is located first, then interpreted in
//! codestream order, and the defaults and overrides are resolved per component.

use super::cursor::{
    be16, segment, segment_body, segment_end, segment_fits, segment_text, truncated, Cursor,
};
use super::lists::{
    chunk_views, crg_spec, crg_text, decode_crg, decode_plm, decode_poc, decode_ppm_chunks,
    decode_tlm, piece_views, poc_from, poc_text, ppm_spec, ppm_text, tlm_spec, tlm_text,
};
use super::markers::marker;
use super::markers::{
    Cod, CodView, Coding, CodingView, ComponentParams, ParamsView, PocVolume, Qcd, QcdView,
    QuantStyle, Siz, SizView, TlmEntry, Transform,
};
use super::segments::{
    coc_spec, coc_text, cod_spec, cod_text, component_legal, decode_coc, decode_cod, decode_qcc,
    decode_quant, decode_rgn, decode_siz, index_width, qcc_spec, qcc_text, quant_spec, quant_text,
    rgn_spec, rgn_text, siz_component, siz_spec, siz_text,
};
use super::{HeaderView, MainHeader};
use crate::error::{Error, ErrorKind, Result};
use crate::math::max_int;
use crate::mct::{check_geometry, colour_geometry, colour_text};
use crate::text::{decimal, decimal_text, hex, hex_text};
use vstd::prelude::*;
use vstd::slice::{slice_subrange, slice_to_vec};
use vstd::string::*;

verus! {

/// Upper bound on the marker segments of a main header. A marker without a
/// segment costs two bytes of input but one record here, so a run of them must
/// not grow the list without bound.
pub const MAX_MAIN_HEADER_SEGMENTS: usize = 0x1_0000;

/// One located marker segment.
pub struct SegmentView {
    pub code: u16,
    pub body: Seq<u8>,
}

/// One marker segment: its code and its body, which is empty for a marker without
/// a segment.
pub struct Segment<'a> {
    pub code: u16,
    pub body: &'a [u8],
}

impl<'a> View for Segment<'a> {
    type V = SegmentView;

    open spec fn view(&self) -> SegmentView {
        SegmentView { code: self.code, body: self.body@ }
    }
}

/// Every located segment.
pub open spec fn segment_views(s: Seq<Segment<'_>>) -> Seq<SegmentView> {
    Seq::new(s.len(), |i: int| s[i]@)
}

/// The marker segments from `pos` to the first SOT, behind `before`, and where
/// that SOT is.
pub open spec fn walk_from(b: Seq<u8>, pos: int, before: Seq<SegmentView>) -> core::result::Result<
    (Seq<SegmentView>, int),
    ErrorKind,
>
    decreases max_int(0, b.len() - pos),
{
    if pos < 0 || pos + 2 > b.len() {
        Err(ErrorKind::Codestream)
    } else {
        let code = be16(b, pos) as u16;
        if code == marker::SOT {
            Ok((before, pos))
        } else if code == marker::SOC || code == marker::SOD || code == marker::EOC
            || !marker::is_marker(code) || before.len() >= MAX_MAIN_HEADER_SEGMENTS {
            Err(ErrorKind::Codestream)
        } else if !marker::has_segment(code) {
            walk_from(b, pos + 2, before.push(SegmentView { code, body: Seq::empty() }))
        } else if !segment_fits(b, pos + 2) {
            Err(ErrorKind::Codestream)
        } else {
            walk_from(
                b,
                segment_end(b, pos + 2),
                before.push(SegmentView { code, body: segment_body(b, pos + 2) }),
            )
        }
    }
}

/// The main header's marker segments: they follow the SOC.
pub open spec fn walk_spec(b: Seq<u8>) -> core::result::Result<
    (Seq<SegmentView>, int),
    ErrorKind,
> {
    if b.len() < 2 || be16(b, 0) != marker::SOC {
        Err(ErrorKind::Codestream)
    } else {
        walk_from(b, 2, Seq::empty())
    }
}

/// What is said of a main header's segments from `pos` on, behind `n` others, that
/// cannot be located.
pub open spec fn walk_text_from(b: Seq<u8>, pos: int, n: int) -> Seq<char>
    decreases max_int(0, b.len() - pos),
{
    if pos < 0 || pos + 2 > b.len() {
        truncated()
    } else {
        let code = be16(b, pos) as u16;
        if code == marker::SOC || code == marker::SOD || code == marker::EOC {
            "unexpected marker "@ + hex_text(code) + " before any tile-part"@
        } else if !marker::is_marker(code) {
            "expected a marker in the main header, found "@ + hex_text(code)
        } else if n >= MAX_MAIN_HEADER_SEGMENTS {
            "main header has more than "@ + decimal_text(MAX_MAIN_HEADER_SEGMENTS as nat)
                + " marker segments"@
        } else if !marker::has_segment(code) {
            walk_text_from(b, pos + 2, n + 1)
        } else if !segment_fits(b, pos + 2) {
            segment_text(b, pos + 2)
        } else {
            walk_text_from(b, segment_end(b, pos + 2), n + 1)
        }
    }
}

/// What is said of a main header whose segments cannot be located.
pub open spec fn walk_text(b: Seq<u8>) -> Seq<char> {
    if b.len() < 2 {
        truncated()
    } else if be16(b, 0) != marker::SOC {
        "does not start with the SOC marker"@
    } else {
        walk_text_from(b, 2, 0)
    }
}

/// Locate the main header's marker segments, up to the first SOT, without judging
/// any of them, and that SOT.
pub fn walk_main_header(bytes: &[u8]) -> (r: Result<(Vec<Segment<'_>>, usize)>)
    ensures
        match r {
            Ok(v) => {
                &&& walk_spec(bytes@) == Ok::<(Seq<SegmentView>, int), ErrorKind>(
                    (segment_views(v.0@), v.1 as int),
                )
                &&& v.1 + 2 <= bytes@.len()
            },
            Err(e) => {
                &&& walk_spec(bytes@) == Err::<(Seq<SegmentView>, int), ErrorKind>(e.kind())
                &&& e.message() == walk_text(bytes@)
            },
        },
{
    let mut cur: Cursor<'_> = Cursor::new(bytes);
    if cur.u16()? != marker::SOC {
        return Err(Error::Codestream("does not start with the SOC marker".to_string()));
    }
    let mut segments: Vec<Segment<'_>> = Vec::new();
    assert(segment_views(segments@) =~= Seq::empty());
    loop
        invariant
            cur.wf(),
            cur.buf@ == bytes@,
            walk_spec(bytes@) == walk_from(bytes@, cur.pos as int, segment_views(segments@)),
            walk_text(bytes@) == walk_text_from(
                bytes@,
                cur.pos as int,
                segments@.len() as int,
            ),
        decreases bytes@.len() - cur.pos,
    {
        let code: u16 = cur.u16()?;
        if code == marker::SOT {
            return Ok((segments, cur.pos - 2));
        }
        if code == marker::SOC || code == marker::SOD || code == marker::EOC {
            return Err(
                Error::Codestream(
                    "unexpected marker ".to_string().concat(hex(code).as_str()).concat(
                        " before any tile-part",
                    ),
                ),
            );
        }
        if !marker::is_marker(code) {
            return Err(
                Error::Codestream(
                    "expected a marker in the main header, found ".to_string().concat(
                        hex(code).as_str(),
                    ),
                ),
            );
        }
        if segments.len() >= MAX_MAIN_HEADER_SEGMENTS {
            return Err(
                Error::Codestream(
                    "main header has more than ".to_string().concat(
                        decimal(MAX_MAIN_HEADER_SEGMENTS as u64).as_str(),
                    ).concat(" marker segments"),
                ),
            );
        }
        let ghost before = segment_views(segments@);
        let body: &[u8] = if marker::has_segment(code) {
            segment(&mut cur)?.buf
        } else {
            slice_subrange(bytes, 0, 0)
        };
        segments.push(Segment { code, body });
        assert(!marker::has_segment(code) ==> body@ =~= Seq::<u8>::empty());
        assert(segment_views(segments@) =~= before.push(SegmentView { code, body: body@ }));
    }
}

/// Upper bound on the declared image area, and on the sum of the components'
/// areas.
pub const MAX_IMAGE_SAMPLES: u64 = 0x400_0000;

/// The most tiles that tile-parts can name.
pub const MAX_TILES: u32 = 65535;

/// How the declared geometry is at fault, if it is: an image or a tile without
/// extent, an origin that the image or the first tile does not reach, an area past
/// the decode guard, or a grid of more tiles than can be named.
pub open spec fn geometry_fault(s: SizView) -> Option<ErrorKind> {
    if s.x_size == 0 || s.y_size == 0 || s.x_offset >= s.x_size || s.y_offset >= s.y_size
        || s.tile_width == 0 || s.tile_height == 0 || s.tile_x_offset > s.x_offset
        || s.tile_y_offset > s.y_offset || s.tile_x_offset + s.tile_width <= s.x_offset
        || s.tile_y_offset + s.tile_height <= s.y_offset {
        Some(ErrorKind::Marker)
    } else if s.x_size * s.y_size > MAX_IMAGE_SAMPLES {
        Some(ErrorKind::Limit)
    } else if s.num_tiles() > MAX_TILES {
        Some(ErrorKind::Marker)
    } else {
        None
    }
}

/// What is said of a declared geometry that is at fault.
pub open spec fn geometry_text(s: SizView) -> Seq<char> {
    if s.x_size == 0 || s.y_size == 0 {
        "SIZ declares a zero-size image"@
    } else if s.x_offset >= s.x_size || s.y_offset >= s.y_size {
        "image offset is at or past the far edge"@
    } else if s.tile_width == 0 || s.tile_height == 0 {
        "SIZ declares a zero-size tile"@
    } else if s.tile_x_offset > s.x_offset || s.tile_y_offset > s.y_offset {
        "tile offset is past the image offset"@
    } else if s.tile_x_offset + s.tile_width <= s.x_offset || s.tile_y_offset + s.tile_height
        <= s.y_offset {
        "the first tile does not reach the image"@
    } else if s.x_size * s.y_size > MAX_IMAGE_SAMPLES {
        "image area "@ + decimal_text(s.x_size as nat) + "×"@ + decimal_text(s.y_size as nat)
            + " exceeds the decode guard of "@ + decimal_text(MAX_IMAGE_SAMPLES as nat)
            + " samples"@
    } else {
        "tile grid is "@ + decimal_text(s.tile_grid().0 as nat) + "×"@ + decimal_text(
            s.tile_grid().1 as nat,
        ) + " = "@ + decimal_text(s.num_tiles() as nat) + " tiles, past the "@ + decimal_text(
            MAX_TILES as nat,
        ) + "-tile limit on Isot"@
    }
}

/// Check the declared image and tile geometry.
pub fn validate_geometry(siz: &Siz) -> (r: Result<()>)
    ensures
        match r {
            Ok(_) => geometry_fault(siz@) is None,
            Err(e) => {
                &&& geometry_fault(siz@) == Some(e.kind())
                &&& e.message() == geometry_text(siz@)
            },
        },
{
    if siz.x_size == 0 || siz.y_size == 0 {
        return Err(Error::Marker("SIZ declares a zero-size image".to_string()));
    }
    if siz.x_offset >= siz.x_size || siz.y_offset >= siz.y_size {
        return Err(Error::Marker("image offset is at or past the far edge".to_string()));
    }
    if siz.tile_width == 0 || siz.tile_height == 0 {
        return Err(Error::Marker("SIZ declares a zero-size tile".to_string()));
    }
    if siz.tile_x_offset > siz.x_offset || siz.tile_y_offset > siz.y_offset {
        return Err(Error::Marker("tile offset is past the image offset".to_string()));
    }
    if siz.tile_x_offset as u64 + siz.tile_width as u64 <= siz.x_offset as u64
        || siz.tile_y_offset as u64 + siz.tile_height as u64 <= siz.y_offset as u64 {
        return Err(Error::Marker("the first tile does not reach the image".to_string()));
    }
    assert(siz.x_size * siz.y_size <= 0xFFFF_FFFF * 0xFFFF_FFFF) by (nonlinear_arith)
        requires
            siz.x_size <= 0xFFFF_FFFF,
            siz.y_size <= 0xFFFF_FFFF,
    ;
    if siz.x_size as u64 * siz.y_size as u64 > MAX_IMAGE_SAMPLES {
        return Err(
            Error::Limit(
                "image area ".to_string().concat(decimal(siz.x_size as u64).as_str()).concat(
                    "×",
                ).concat(decimal(siz.y_size as u64).as_str()).concat(
                    " exceeds the decode guard of ",
                ).concat(decimal(MAX_IMAGE_SAMPLES).as_str()).concat(" samples"),
            ),
        );
    }
    if siz.num_tiles() > MAX_TILES {
        let grid: (u32, u32) = siz.tile_grid();
        return Err(
            Error::Marker(
                "tile grid is ".to_string().concat(decimal(grid.0 as u64).as_str()).concat(
                    "×",
                ).concat(decimal(grid.1 as u64).as_str()).concat(" = ").concat(
                    decimal(siz.num_tiles() as u64).as_str(),
                ).concat(" tiles, past the ").concat(decimal(MAX_TILES as u64).as_str()).concat(
                    "-tile limit on Isot",
                ),
            ),
        );
    }
    Ok(())
}

/// How many samples the components below `i` hold, each on its own grid.
pub open spec fn samples_below(s: SizView, i: nat) -> int
    decreases i,
{
    if i == 0 {
        0
    } else {
        samples_below(s, (i - 1) as nat) + match s.component_extent_at(i - 1, 0) {
            Some((w, h)) => w * h,
            None => 0,
        }
    }
}

/// How many samples all the components hold.
pub open spec fn total_samples(s: SizView) -> int {
    samples_below(s, s.components.len())
}

/// Every component's sub-sampling is not zero.
pub open spec fn sampling_legal(s: SizView) -> bool {
    forall|i: int| 0 <= i < s.components.len() ==> #[trigger] s.has_component(i)
}

/// The samples of more components are no fewer.
proof fn lemma_samples_grow(s: SizView, i: nat, j: nat)
    requires
        i <= j,
    ensures
        0 <= samples_below(s, i) <= samples_below(s, j),
    decreases j,
{
    if j > 0 {
        let k = j - 1;
        match s.component_extent_at(k, 0) {
            Some((w, h)) => {
                assert(w * h >= 0) by (nonlinear_arith)
                    requires
                        w >= 0,
                        h >= 0,
                ;
            },
            None => {},
        }
        if i < j {
            lemma_samples_grow(s, i, k as nat);
        } else {
            lemma_samples_grow(s, k as nat, k as nat);
        }
    }
}

/// What is said of components that hold too many samples.
pub open spec fn samples_text() -> Seq<char> {
    "components total over "@ + decimal_text(MAX_IMAGE_SAMPLES as nat)
        + " samples, above the decode guard"@
}

/// Bound the samples that the codestream asks the decoder to allocate. Every
/// component has its own buffer, so the sum of their areas counts.
fn check_sample_budget(siz: &Siz) -> (r: Result<()>)
    requires
        sampling_legal(siz@),
    ensures
        match r {
            Ok(_) => total_samples(siz@) <= MAX_IMAGE_SAMPLES,
            Err(e) => {
                &&& total_samples(siz@) > MAX_IMAGE_SAMPLES
                &&& e.kind() == ErrorKind::Limit
                &&& e.message() == samples_text()
            },
        },
{
    let mut total: u64 = 0;
    let mut index: usize = 0;
    while index < siz.components.len()
        invariant
            sampling_legal(siz@),
            index <= siz@.components.len(),
            total == samples_below(siz@, index as nat),
            total <= MAX_IMAGE_SAMPLES,
        decreases siz@.components.len() - index,
    {
        assert(siz@.has_component(index as int));
        match siz.component_extent(index) {
            Some((w, h)) => {
                assert(0 <= w * h <= 0xFFFF_FFFF * 0xFFFF_FFFF) by (nonlinear_arith)
                    requires
                        0 <= w <= 0xFFFF_FFFF,
                        0 <= h <= 0xFFFF_FFFF,
                ;
                let area: u64 = w as u64 * h as u64;
                assert(samples_below(siz@, (index + 1) as nat) == total + area);
                proof {
                    lemma_samples_grow(siz@, (index + 1) as nat, siz@.components.len());
                }
                if area > MAX_IMAGE_SAMPLES - total {
                    return Err(
                        Error::Limit(
                            "components total over ".to_string().concat(
                                decimal(MAX_IMAGE_SAMPLES).as_str(),
                            ).concat(" samples, above the decode guard"),
                        ),
                    );
                }
                total = total + area;
            },
            None => {},
        }
        index = index + 1;
    }
    Ok(())
}

/// A component's own parameters are at fault: its step table does not cover its
/// subbands, or it pairs the 9/7 wavelet with no quantization.
pub open spec fn params_fault(p: ParamsView) -> bool {
    ||| p.quant.style != QuantStyle::ScalarDerived && p.quant.steps.len() < 3
        * p.coding.decomposition_levels + 1
    ||| p.coding.transform == Transform::Irreversible97 && p.quant.style
        == QuantStyle::Unquantized
}

/// The colour transform's three components share a wavelet.
pub open spec fn one_wavelet(h: HeaderView) -> bool {
    h.components[1].coding.transform == h.components[0].coding.transform
        && h.components[2].coding.transform == h.components[0].coding.transform
}

/// How resolved parameters are at fault, if they are.
pub open spec fn resolved_fault(h: HeaderView) -> Option<ErrorKind> {
    if exists|i: int| 0 <= i < h.components.len() && params_fault(#[trigger] h.components[i]) {
        Some(ErrorKind::Marker)
    } else if h.cod.multiple_component_transform && !colour_geometry(h.siz.components) {
        Some(ErrorKind::Marker)
    } else if h.cod.multiple_component_transform && !one_wavelet(h) {
        Some(ErrorKind::Unsupported)
    } else {
        None
    }
}

/// The first component from `i` on whose own parameters are at fault.
pub open spec fn first_faulty(c: Seq<ParamsView>, i: int) -> int
    decreases max_int(0, c.len() - i),
{
    if i < c.len() && !params_fault(c[i]) {
        first_faulty(c, i + 1)
    } else {
        i
    }
}

/// What is said of component `i`, whose own parameters are at fault.
pub open spec fn params_text(p: ParamsView, i: int) -> Seq<char> {
    let needed = 3 * p.coding.decomposition_levels + 1;
    let who = "component "@ + decimal_text(i as nat);
    if p.quant.style != QuantStyle::ScalarDerived && p.quant.steps.len() < needed {
        who + " carries "@ + decimal_text(p.quant.steps.len())
            + " quantization step entries but its "@ + decimal_text(
            p.coding.decomposition_levels as nat,
        ) + " decomposition levels need "@ + decimal_text(needed as nat)
    } else {
        who + " pairs the 9/7 wavelet with the no-quantization style"@
    }
}

/// What is said of a colour transform over more than one wavelet: the first component
/// that leaves component 0's.
pub open spec fn wavelet_text(h: HeaderView) -> Seq<char> {
    let i: nat = if h.components[1].coding.transform != h.components[0].coding.transform {
        1
    } else {
        2
    };
    "COD signals the colour transform but component "@ + decimal_text(i)
        + " uses another wavelet than component 0"@
}

/// What is said of resolved parameters that are at fault.
pub open spec fn resolved_text(h: HeaderView) -> Seq<char> {
    let i = first_faulty(h.components, 0);
    if i < h.components.len() {
        params_text(h.components[i], i)
    } else if !colour_geometry(h.siz.components) {
        colour_text(h.siz.components)
    } else {
        wavelet_text(h)
    }
}

/// Check what holds only once a header's parameters are resolved, whichever
/// header level resolved them.
pub fn validate_resolved(header: &MainHeader) -> (r: Result<()>)
    requires
        header@.wf(),
    ensures
        match r {
            Ok(_) => resolved_fault(header@) is None,
            Err(e) => {
                &&& resolved_fault(header@) == Some(e.kind())
                &&& e.message() == resolved_text(header@)
            },
        },
{
    let mut i: usize = 0;
    while i < header.components.len()
        invariant
            i <= header@.components.len(),
            first_faulty(header@.components, 0) == first_faulty(header@.components, i as int),
            forall|j: int| 0 <= j < i ==> !params_fault(#[trigger] header@.components[j]),
        decreases header@.components.len() - i,
    {
        let params: &ComponentParams = &header.components[i];
        assert(header@.components[i as int] == params@);
        let needed: usize = 3 * params.coding.decomposition_levels as usize + 1;
        if params.quant.style != QuantStyle::ScalarDerived && params.quant.steps.len() < needed {
            assert(params_fault(header@.components[i as int]));
            return Err(
                Error::Marker(
                    "component ".to_string().concat(decimal(i as u64).as_str()).concat(
                        " carries ",
                    ).concat(decimal(params.quant.steps.len() as u64).as_str()).concat(
                        " quantization step entries but its ",
                    ).concat(decimal(params.coding.decomposition_levels as u64).as_str()).concat(
                        " decomposition levels need ",
                    ).concat(decimal(needed as u64).as_str()),
                ),
            );
        }
        if params.coding.transform == Transform::Irreversible97 && params.quant.style
            == QuantStyle::Unquantized {
            assert(params_fault(header@.components[i as int]));
            return Err(
                Error::Marker(
                    "component ".to_string().concat(decimal(i as u64).as_str()).concat(
                        " pairs the 9/7 wavelet with the no-quantization style",
                    ),
                ),
            );
        }
        i = i + 1;
    }
    if header.cod.multiple_component_transform {
        check_geometry(header.siz.components.as_slice())?;
        let first: Transform = header.components[0].coding.transform;
        assert(header@.components[0] == header.components@[0]@);
        let mut c: usize = 1;
        while c < 3
            invariant
                1 <= c <= 3,
                header@.components.len() >= 3,
                first_faulty(header@.components, 0) == header@.components.len(),
                first == header@.components[0].coding.transform,
                forall|j: int|
                    1 <= j < c ==> (#[trigger] header@.components[j]).coding.transform == first,
                header@.cod.multiple_component_transform,
                colour_geometry(header@.siz.components),
                forall|j: int|
                    0 <= j < header@.components.len() ==> !params_fault(
                        #[trigger] header@.components[j],
                    ),
            decreases 3 - c,
        {
            assert(header@.components[c as int] == header.components@[c as int]@);
            if header.components[c].coding.transform != first {
                return Err(
                    Error::Unsupported(
                        "COD signals the colour transform but component ".to_string().concat(
                            decimal(c as u64).as_str(),
                        ).concat(" uses another wavelet than component 0"),
                    ),
                );
            }
            c = c + 1;
        }
    }
    Ok(())
}

/// Per-component codings, where a marker gives one.
pub open spec fn coding_options(s: Seq<Option<Coding>>) -> Seq<Option<CodingView>> {
    Seq::new(
        s.len(),
        |i: int|
            match s[i] {
                Some(c) => Some(c@),
                None => None,
            },
    )
}

/// Per-component quantizations, where a marker gives one.
pub open spec fn quant_options(s: Seq<Option<Qcd>>) -> Seq<Option<QcdView>> {
    Seq::new(
        s.len(),
        |i: int|
            match s[i] {
                Some(q) => Some(q@),
                None => None,
            },
    )
}

/// What the main header's segments have given so far.
pub struct GatheredView {
    pub cod: Option<CodView>,
    pub qcd: Option<QcdView>,
    pub coc: Seq<Option<CodingView>>,
    pub qcc: Seq<Option<QcdView>>,
    pub rgn: Seq<Option<u8>>,
    pub tlm: Seq<TlmEntry>,
    pub poc: Seq<PocVolume>,
    pub crg: Option<Seq<(u16, u16)>>,
    pub ppm: Seq<(u8, Seq<u8>)>,
}

impl GatheredView {
    /// Nothing yet, for `count` components.
    pub open spec fn empty(count: nat) -> GatheredView {
        GatheredView {
            cod: None,
            qcd: None,
            coc: Seq::new(count, |i: int| None),
            qcc: Seq::new(count, |i: int| None),
            rgn: Seq::new(count, |i: int| None),
            tlm: Seq::empty(),
            poc: Seq::empty(),
            crg: None,
            ppm: Seq::empty(),
        }
    }

    /// The state after one more segment. A second marker of a kind that a header
    /// holds once is a codestream error, a marker that would change what the
    /// codestream means is unsupported, and a reserved marker without a segment is
    /// passed over.
    pub open spec fn absorb(self, seg: SegmentView, siz: SizView) -> core::result::Result<
        GatheredView,
        ErrorKind,
    > {
        let (code, b) = (seg.code, seg.body);
        let count = siz.components.len() as int;
        if code == marker::COD {
            if self.cod is Some {
                Err(ErrorKind::Codestream)
            } else {
                match cod_spec(b) {
                    Err(e) => Err(e),
                    Ok(c) => Ok(GatheredView { cod: Some(c), ..self }),
                }
            }
        } else if code == marker::QCD {
            if self.qcd is Some {
                Err(ErrorKind::Codestream)
            } else {
                match quant_spec(b, 0) {
                    Err(e) => Err(e),
                    Ok(q) => Ok(GatheredView { qcd: Some(q), ..self }),
                }
            }
        } else if code == marker::COC {
            match coc_spec(b, count) {
                Err(e) => Err(e),
                Ok((i, c)) => if self.coc[i] is Some {
                    Err(ErrorKind::Codestream)
                } else {
                    Ok(GatheredView { coc: self.coc.update(i, Some(c)), ..self })
                },
            }
        } else if code == marker::QCC {
            match qcc_spec(b, count) {
                Err(e) => Err(e),
                Ok((i, q)) => if self.qcc[i] is Some {
                    Err(ErrorKind::Codestream)
                } else {
                    Ok(GatheredView { qcc: self.qcc.update(i, Some(q)), ..self })
                },
            }
        } else if code == marker::RGN {
            match rgn_spec(b, count) {
                Err(e) => Err(e),
                Ok((i, shift)) => if self.rgn[i] is Some {
                    Err(ErrorKind::Codestream)
                } else {
                    Ok(GatheredView { rgn: self.rgn.update(i, Some(shift)), ..self })
                },
            }
        } else if code == marker::TLM {
            match tlm_spec(b, siz.num_tiles(), self.tlm) {
                Err(e) => Err(e),
                Ok(tlm) => Ok(GatheredView { tlm, ..self }),
            }
        } else if code == marker::POC {
            match poc_from(b, 0, index_width(count), self.poc) {
                Err(e) => Err(e),
                Ok(poc) => Ok(GatheredView { poc, ..self }),
            }
        } else if code == marker::CRG {
            if self.crg is Some {
                Err(ErrorKind::Codestream)
            } else {
                match crg_spec(b, count) {
                    Err(e) => Err(e),
                    Ok(crg) => Ok(GatheredView { crg: Some(crg), ..self }),
                }
            }
        } else if code == marker::PPM {
            if b.len() == 0 {
                Err(ErrorKind::Codestream)
            } else {
                Ok(
                    GatheredView {
                        ppm: self.ppm.push((b[0], b.subrange(1, b.len() as int))),
                        ..self
                    },
                )
            }
        } else if code == marker::PLM {
            if b.len() == 0 {
                Err(ErrorKind::Codestream)
            } else {
                Ok(self)
            }
        } else if code == marker::SIZ || code == marker::PLT {
            Err(ErrorKind::Codestream)
        } else if code == marker::COM || marker::is_reserved(code) {
            Ok(self)
        } else {
            Err(ErrorKind::Unsupported)
        }
    }

    /// What is said of a segment that cannot be taken in. A marker that this decoder
    /// knows is named.
    pub open spec fn absorb_text(self, seg: SegmentView, siz: SizView) -> Seq<char> {
        let (code, b) = (seg.code, seg.body);
        let count = siz.components.len() as int;
        if code == marker::COD {
            if self.cod is Some {
                "duplicate COD marker"@
            } else {
                cod_text(b)
            }
        } else if code == marker::QCD {
            if self.qcd is Some {
                "duplicate QCD marker"@
            } else {
                quant_text(b, 0, "QCD"@)
            }
        } else if code == marker::COC {
            match coc_spec(b, count) {
                Err(_) => coc_text(b, count),
                Ok((i, _)) => "duplicate COC marker for component "@ + decimal_text(i as nat),
            }
        } else if code == marker::QCC {
            match qcc_spec(b, count) {
                Err(_) => qcc_text(b, count),
                Ok((i, _)) => "duplicate QCC marker for component "@ + decimal_text(i as nat),
            }
        } else if code == marker::RGN {
            match rgn_spec(b, count) {
                Err(_) => rgn_text(b, count),
                Ok((i, _)) => "duplicate RGN marker for component "@ + decimal_text(i as nat),
            }
        } else if code == marker::TLM {
            tlm_text(b, siz.num_tiles(), self.tlm.len() as int)
        } else if code == marker::POC {
            poc_text(b, 0, index_width(count), self.poc.len() as int)
        } else if code == marker::CRG {
            if self.crg is Some {
                "duplicate CRG marker"@
            } else {
                crg_text()
            }
        } else if code == marker::PPM || code == marker::PLM {
            truncated()
        } else if code == marker::SIZ {
            "duplicate SIZ marker"@
        } else if code == marker::PLT {
            "PLT is a tile-part-header marker; it is not permitted in the main header"@
        } else if marker::name_spec(code) is Some {
            "marker "@ + marker::describe_text(code) + " is outside the decoded subset"@
        } else {
            "unrecognized marker "@ + hex_text(code) + " in the main header"@
        }
    }

    /// What is said of the first segment from `i` on that cannot be taken in.
    pub open spec fn absorb_from_text(self, segs: Seq<SegmentView>, i: int, siz: SizView) -> Seq<
        char,
    >
        decreases max_int(0, segs.len() - i),
    {
        if i < 0 || i >= segs.len() {
            Seq::empty()
        } else {
            match self.absorb(segs[i], siz) {
                Err(_) => self.absorb_text(segs[i], siz),
                Ok(next) => next.absorb_from_text(segs, i + 1, siz),
            }
        }
    }

    /// The state after every segment from `i` on.
    pub open spec fn absorb_from(self, segs: Seq<SegmentView>, i: int, siz: SizView) -> core::result::Result<
        GatheredView,
        ErrorKind,
    >
        decreases max_int(0, segs.len() - i),
    {
        if i < 0 || i >= segs.len() {
            Ok(self)
        } else {
            match self.absorb(segs[i], siz) {
                Err(e) => Err(e),
                Ok(next) => next.absorb_from(segs, i + 1, siz),
            }
        }
    }

    /// What is said of a header without one of the two markers that it must have.
    pub open spec fn missing_text(self) -> Seq<char> {
        if self.cod is None {
            "missing required COD marker"@
        } else {
            "missing required QCD marker"@
        }
    }

    /// The parameters of component `i`: its own where a marker gives them, the
    /// defaults where none does.
    pub open spec fn params(self, i: int) -> ParamsView {
        ParamsView {
            coding: match self.coc[i] {
                Some(c) => c,
                None => self.cod->Some_0.coding,
            },
            quant: match self.qcc[i] {
                Some(q) => q,
                None => self.qcd->Some_0,
            },
            roi_shift: match self.rgn[i] {
                Some(s) => s,
                None => 0,
            },
        }
    }

    /// The header that the segments describe.
    pub open spec fn header(self, siz: SizView) -> HeaderView {
        HeaderView {
            siz,
            cod: self.cod->Some_0,
            qcd: self.qcd->Some_0,
            components: Seq::new(siz.components.len(), |i: int| self.params(i)),
            tlm: self.tlm,
            poc: self.poc,
            crg: match self.crg {
                Some(c) => c,
                None => Seq::empty(),
            },
        }
    }
}

/// What the main header's segments have given so far.
struct Gathered {
    cod: Option<Cod>,
    qcd: Option<Qcd>,
    coc: Vec<Option<Coding>>,
    qcc: Vec<Option<Qcd>>,
    rgn: Vec<Option<u8>>,
    tlm: Vec<TlmEntry>,
    poc: Vec<PocVolume>,
    crg: Option<Vec<(u16, u16)>>,
    ppm: Vec<(u8, Vec<u8>)>,
}

impl View for Gathered {
    type V = GatheredView;

    closed spec fn view(&self) -> GatheredView {
        GatheredView {
            cod: match self.cod {
                Some(c) => Some(c@),
                None => None,
            },
            qcd: match self.qcd {
                Some(q) => Some(q@),
                None => None,
            },
            coc: coding_options(self.coc@),
            qcc: quant_options(self.qcc@),
            rgn: self.rgn@,
            tlm: self.tlm@,
            poc: self.poc@,
            crg: match self.crg {
                Some(c) => Some(c@),
                None => None,
            },
            ppm: piece_views(self.ppm@),
        }
    }
}

impl Gathered {
    /// Nothing yet, for `count` components.
    fn new(count: usize) -> (g: Self)
        ensures
            g@ == GatheredView::empty(count as nat),
    {
        let mut coc: Vec<Option<Coding>> = Vec::new();
        let mut qcc: Vec<Option<Qcd>> = Vec::new();
        let mut rgn: Vec<Option<u8>> = Vec::new();
        let mut i: usize = 0;
        while i < count
            invariant
                i <= count,
                coc@.len() == i,
                qcc@.len() == i,
                rgn@.len() == i,
                forall|j: int| 0 <= j < i ==> (#[trigger] coc@[j]) is None,
                forall|j: int| 0 <= j < i ==> (#[trigger] qcc@[j]) is None,
                forall|j: int| 0 <= j < i ==> (#[trigger] rgn@[j]) is None,
            decreases count - i,
        {
            coc.push(None);
            qcc.push(None);
            rgn.push(None);
            i = i + 1;
        }
        let g: Gathered = Gathered {
            cod: None,
            qcd: None,
            coc,
            qcc,
            rgn,
            tlm: Vec::new(),
            poc: Vec::new(),
            crg: None,
            ppm: Vec::new(),
        };
        proof {
            let e = GatheredView::empty(count as nat);
            assert(g@.coc =~= e.coc);
            assert(g@.qcc =~= e.qcc);
            assert(g@.rgn =~= e.rgn);
            assert(g@.ppm =~= e.ppm);
        }
        g
    }

    /// Take in one more segment.
    fn absorb(&mut self, seg: &Segment<'_>, siz: &Siz) -> (r: Result<()>)
        requires
            old(self)@.coc.len() == siz@.components.len(),
            old(self)@.qcc.len() == siz@.components.len(),
            old(self)@.rgn.len() == siz@.components.len(),
        ensures
            match r {
                Ok(_) => old(self)@.absorb(seg@, siz@) == Ok::<GatheredView, ErrorKind>(
                    final(self)@,
                ),
                Err(e) => {
                    &&& old(self)@.absorb(seg@, siz@) == Err::<GatheredView, ErrorKind>(e.kind())
                    &&& e.message() == old(self)@.absorb_text(seg@, siz@)
                },
            },
    {
        let ghost before = self@;
        let code: u16 = seg.code;
        let body: Cursor<'_> = Cursor::new(seg.body);
        if code == marker::COD {
            if self.cod.is_some() {
                return Err(Error::Codestream("duplicate COD marker".to_string()));
            }
            self.cod = Some(decode_cod(body)?);
        } else if code == marker::QCD {
            if self.qcd.is_some() {
                return Err(Error::Codestream("duplicate QCD marker".to_string()));
            }
            self.qcd = Some(decode_quant(body, "QCD")?);
        } else if code == marker::COC {
            let (index, coding): (usize, Coding) = decode_coc(body, siz)?;
            assert(self@.coc[index as int] is Some == self.coc@[index as int] is Some);
            if self.coc[index].is_some() {
                return Err(
                    Error::Codestream(
                        "duplicate COC marker for component ".to_string().concat(
                            decimal(index as u64).as_str(),
                        ),
                    ),
                );
            }
            let ghost view = coding@;
            self.coc.set(index, Some(coding));
            assert(self@.coc =~= before.coc.update(index as int, Some(view)));
        } else if code == marker::QCC {
            let (index, quant): (usize, Qcd) = decode_qcc(body, siz)?;
            assert(self@.qcc[index as int] is Some == self.qcc@[index as int] is Some);
            if self.qcc[index].is_some() {
                return Err(
                    Error::Codestream(
                        "duplicate QCC marker for component ".to_string().concat(
                            decimal(index as u64).as_str(),
                        ),
                    ),
                );
            }
            let ghost view = quant@;
            self.qcc.set(index, Some(quant));
            assert(self@.qcc =~= before.qcc.update(index as int, Some(view)));
        } else if code == marker::RGN {
            let (index, shift): (usize, u8) = decode_rgn(body, siz)?;
            if self.rgn[index].is_some() {
                return Err(
                    Error::Codestream(
                        "duplicate RGN marker for component ".to_string().concat(
                            decimal(index as u64).as_str(),
                        ),
                    ),
                );
            }
            self.rgn.set(index, Some(shift));
        } else if code == marker::TLM {
            decode_tlm(body, siz, &mut self.tlm)?;
        } else if code == marker::POC {
            decode_poc(body, siz, &mut self.poc)?;
        } else if code == marker::CRG {
            if self.crg.is_some() {
                return Err(Error::Codestream("duplicate CRG marker".to_string()));
            }
            self.crg = Some(decode_crg(body, siz)?);
        } else if code == marker::PPM {
            let mut b: Cursor<'_> = body;
            let zppm: u8 = b.u8()?;
            let payload: &[u8] = b.take(b.remaining())?;
            self.ppm.push((zppm, slice_to_vec(payload)));
            assert(self@.ppm =~= before.ppm.push((zppm, payload@)));
        } else if code == marker::PLM {
            decode_plm(body)?;
        } else if code == marker::SIZ {
            return Err(Error::Codestream("duplicate SIZ marker".to_string()));
        } else if code == marker::PLT {
            return Err(
                Error::Codestream(
                    "PLT is a tile-part-header marker; it is not permitted in the main header".to_string(),
                ),
            );
        } else if code == marker::COM || (0xFF30 <= code && code <= 0xFF3F) {
        } else if marker::name(code).is_some() {
            return Err(
                Error::Unsupported(
                    "marker ".to_string().concat(marker::describe(code).as_str()).concat(
                        " is outside the decoded subset",
                    ),
                ),
            );
        } else {
            return Err(
                Error::Unsupported(
                    "unrecognized marker ".to_string().concat(hex(code).as_str()).concat(
                        " in the main header",
                    ),
                ),
            );
        }
        Ok(())
    }
}

/// The main header of a codestream, where its first SOT is, and the packed packet
/// headers of every tile-part, if it carries them.
pub open spec fn main_spec(b: Seq<u8>) -> core::result::Result<
    (HeaderView, int, Seq<Seq<u8>>),
    ErrorKind,
> {
    match walk_spec(b) {
        Err(e) => Err(e),
        Ok((segs, sot)) => if segs.len() == 0 || segs[0].code != marker::SIZ {
            Err(ErrorKind::Codestream)
        } else {
            match siz_spec(segs[0].body) {
                Err(e) => Err(e),
                Ok(siz) => if geometry_fault(siz) is Some {
                    Err(geometry_fault(siz)->Some_0)
                } else if total_samples(siz) > MAX_IMAGE_SAMPLES {
                    Err(ErrorKind::Limit)
                } else {
                    match GatheredView::empty(siz.components.len()).absorb_from(segs, 1, siz) {
                        Err(e) => Err(e),
                        Ok(g) => if g.cod is None || g.qcd is None {
                            Err(ErrorKind::Codestream)
                        } else if resolved_fault(g.header(siz)) is Some {
                            Err(resolved_fault(g.header(siz))->Some_0)
                        } else {
                            match ppm_spec(g.ppm) {
                                Err(e) => Err(e),
                                Ok(chunks) => Ok((g.header(siz), sot, chunks)),
                            }
                        },
                    }
                },
            }
        },
    }
}

/// What is said of a main header that is at fault.
pub open spec fn main_text(b: Seq<u8>) -> Seq<char> {
    match walk_spec(b) {
        Err(_) => walk_text(b),
        Ok((segs, _)) => if segs.len() == 0 {
            "main header has no marker segments"@
        } else if segs[0].code != marker::SIZ {
            "SIZ must be the first marker after SOC"@
        } else {
            match siz_spec(segs[0].body) {
                Err(_) => siz_text(segs[0].body),
                Ok(siz) => if geometry_fault(siz) is Some {
                    geometry_text(siz)
                } else if total_samples(siz) > MAX_IMAGE_SAMPLES {
                    samples_text()
                } else {
                    let none = GatheredView::empty(siz.components.len());
                    match none.absorb_from(segs, 1, siz) {
                        Err(_) => none.absorb_from_text(segs, 1, siz),
                        Ok(g) => if g.cod is None || g.qcd is None {
                            g.missing_text()
                        } else if resolved_fault(g.header(siz)) is Some {
                            resolved_text(g.header(siz))
                        } else {
                            ppm_text(g.ppm)
                        },
                    }
                },
            }
        },
    }
}

/// A segment keeps the per-component lists as long as they are.
proof fn lemma_absorb_keeps(g: GatheredView, seg: SegmentView, siz: SizView)
    requires
        g.coc.len() == siz.components.len(),
        g.qcc.len() == siz.components.len(),
        g.rgn.len() == siz.components.len(),
    ensures
        g.absorb(seg, siz) matches Ok(n) ==> n.coc.len() == g.coc.len() && n.qcc.len()
            == g.qcc.len() && n.rgn.len() == g.rgn.len(),
{
}

/// Interpret every segment behind SIZ, in codestream order.
fn gather(segments: &Vec<Segment<'_>>, siz: &Siz) -> (r: Result<Gathered>)
    requires
        segments@.len() > 0,
    ensures
        match r {
            Ok(g) => {
                &&& GatheredView::empty(siz@.components.len()).absorb_from(
                    segment_views(segments@),
                    1,
                    siz@,
                ) == Ok::<GatheredView, ErrorKind>(g@)
                &&& g@.coc.len() == siz@.components.len()
                &&& g@.qcc.len() == siz@.components.len()
                &&& g@.rgn.len() == siz@.components.len()
            },
            Err(e) => {
                &&& GatheredView::empty(siz@.components.len()).absorb_from(
                    segment_views(segments@),
                    1,
                    siz@,
                ) == Err::<GatheredView, ErrorKind>(e.kind())
                &&& e.message() == GatheredView::empty(siz@.components.len()).absorb_from_text(
                    segment_views(segments@),
                    1,
                    siz@,
                )
            },
        },
{
    let ghost segs = segment_views(segments@);
    let mut g: Gathered = Gathered::new(siz.components.len());
    let mut i: usize = 1;
    while i < segments.len()
        invariant
            segs == segment_views(segments@),
            1 <= i <= segments@.len(),
            g@.coc.len() == siz@.components.len(),
            g@.qcc.len() == siz@.components.len(),
            g@.rgn.len() == siz@.components.len(),
            GatheredView::empty(siz@.components.len()).absorb_from(segs, 1, siz@)
                == g@.absorb_from(segs, i as int, siz@),
            GatheredView::empty(siz@.components.len()).absorb_from_text(segs, 1, siz@)
                == g@.absorb_from_text(segs, i as int, siz@),
        decreases segments@.len() - i,
    {
        assert(segs[i as int] == segments@[i as int]@);
        proof {
            lemma_absorb_keeps(g@, segs[i as int], siz@);
        }
        g.absorb(&segments[i], siz)?;
        i = i + 1;
    }
    Ok(g)
}

/// The header that the segments describe. The overrides are laid over the
/// defaults, component by component.
fn resolve_main(siz: Siz, g: Gathered) -> (r: Result<(MainHeader, Vec<(u8, Vec<u8>)>)>)
    requires
        g@.coc.len() == siz@.components.len(),
        g@.qcc.len() == siz@.components.len(),
        g@.rgn.len() == siz@.components.len(),
    ensures
        match r {
            Ok(v) => {
                &&& g@.cod is Some && g@.qcd is Some
                &&& v.0@ == g@.header(siz@)
                &&& piece_views(v.1@) == g@.ppm
            },
            Err(e) => {
                &&& g@.cod is None || g@.qcd is None
                &&& e.kind() == ErrorKind::Codestream
                &&& e.message() == g@.missing_text()
            },
        },
{
    let ghost view = g@;
    let cod: Cod = match g.cod {
        Some(c) => c,
        None => {
            return Err(Error::Codestream("missing required COD marker".to_string()));
        },
    };
    let qcd: Qcd = match g.qcd {
        Some(q) => q,
        None => {
            return Err(Error::Codestream("missing required QCD marker".to_string()));
        },
    };
    let ghost goal = view.header(siz@);
    let mut components: Vec<ComponentParams> = Vec::new();
    let mut i: usize = 0;
    while i < siz.components.len()
        invariant
            view.coc == coding_options(g.coc@),
            view.qcc == quant_options(g.qcc@),
            view.rgn == g.rgn@,
            view.cod == Some(cod@),
            view.qcd == Some(qcd@),
            view.coc.len() == siz@.components.len(),
            view.qcc.len() == siz@.components.len(),
            view.rgn.len() == siz@.components.len(),
            i <= siz@.components.len(),
            components@.len() == i,
            forall|j: int| 0 <= j < i ==> (#[trigger] components@[j])@ == view.params(j),
        decreases siz@.components.len() - i,
    {
        let coding: Coding = match &g.coc[i] {
            Some(c) => c.clone(),
            None => cod.coding(),
        };
        let quant: Qcd = match &g.qcc[i] {
            Some(q) => q.clone(),
            None => qcd.clone(),
        };
        let roi_shift: u8 = match g.rgn[i] {
            Some(s) => s,
            None => 0,
        };
        components.push(ComponentParams { coding, quant, roi_shift });
        i = i + 1;
    }
    let crg: Vec<(u16, u16)> = match g.crg {
        Some(c) => c,
        None => Vec::new(),
    };
    let header: MainHeader = MainHeader {
        siz,
        cod,
        qcd,
        components,
        tlm: g.tlm,
        poc: g.poc,
        crg,
    };
    proof {
        assert(header@.components =~= goal.components);
        assert(header@.crg =~= goal.crg);
    }
    Ok((header, g.ppm))
}

/// Every component of a parsed SIZ has a sub-sampling.
pub proof fn lemma_siz_sampling(b: Seq<u8>)
    ensures
        siz_spec(b) matches Ok(s) ==> sampling_legal(s) && 0 < s.components.len() <= 16384,
{
    match siz_spec(b) {
        Ok(s) => {
            let count = be16(b, 34);
            assert forall|i: int| 0 <= i < s.components.len() implies #[trigger] s.has_component(
                i,
            ) by {
                assert(component_legal(siz_component(b, i)));
            }
        },
        Err(_) => {},
    }
}

/// Parse the main header up to the first SOT: the decode parameters, the offset
/// of that SOT, and the packed packet headers, one chunk per tile-part.
pub fn parse_main_header(bytes: &[u8]) -> (r: Result<(MainHeader, usize, Vec<Vec<u8>>)>)
    ensures
        match r {
            Ok(v) => {
                &&& main_spec(bytes@) == Ok::<(HeaderView, int, Seq<Seq<u8>>), ErrorKind>(
                    (v.0@, v.1 as int, chunk_views(v.2@)),
                )
                &&& v.1 + 2 <= bytes@.len()
                &&& v.0@.wf()
            },
            Err(e) => {
                &&& main_spec(bytes@) == Err::<(HeaderView, int, Seq<Seq<u8>>), ErrorKind>(
                    e.kind(),
                )
                &&& e.message() == main_text(bytes@)
            },
        },
{
    let (segments, sot_offset): (Vec<Segment<'_>>, usize) = walk_main_header(bytes)?;
    if segments.len() == 0 {
        return Err(Error::Codestream("main header has no marker segments".to_string()));
    }
    assert(segment_views(segments@)[0] == segments@[0]@);
    if segments[0].code != marker::SIZ {
        return Err(Error::Codestream("SIZ must be the first marker after SOC".to_string()));
    }
    let siz: Siz = decode_siz(Cursor::new(segments[0].body))?;
    proof {
        lemma_siz_sampling(segments@[0].body@);
    }
    validate_geometry(&siz)?;
    check_sample_budget(&siz)?;
    let gathered: Gathered = gather(&segments, &siz)?;
    let (header, pieces): (MainHeader, Vec<(u8, Vec<u8>)>) = resolve_main(siz, gathered)?;
    validate_resolved(&header)?;
    let chunks: Vec<Vec<u8>> = decode_ppm_chunks(pieces)?;
    Ok((header, sot_offset, chunks))
}

} // verus!
