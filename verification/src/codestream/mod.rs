//! Codestream parsing (ISO/IEC 15444-1 Annex A): the marker segments of the main
//! header and of the tile-parts, into decode parameters and each tile's packet
//! data.

pub mod cursor;
pub mod delivery;
pub mod grid;
pub mod legal;
pub mod lists;
pub mod main_header;
pub mod markers;
pub mod positions;
pub mod quant_text;
pub mod reserved;
pub mod resolve;
pub mod segments;
pub mod style_text;
pub mod tile_parts;
pub mod trailing;
pub mod written;

pub use cursor::Cursor;
pub use lists::decode_ppm_chunks;
pub use main_header::{
    parse_main_header, validate_geometry, walk_main_header, Segment, MAX_MAIN_HEADER_SEGMENTS,
};
pub use segments::decode_siz;

use crate::error::{Error, ErrorKind, Result};
use crate::math::max_int;
use crate::text::{decimal, decimal_text};
use lists::chunk_views;
use main_header::{main_spec, main_text};
use markers::{
    params_views, Cod, CodView, Coding, CodingView, ComponentParams, ParamsView, PocVolume, Qcd,
    QcdView, Siz, SizView, TlmEntry,
};
use resolve::{resolve_spec, resolve_text, resolve_tile_header};
use std::borrow::Cow;
use tile_parts::{tile_views, tiles_spec, tiles_text, walk_tiles};
use vstd::prelude::*;
use vstd::slice::slice_to_vec;
use vstd::string::*;

verus! {

/// A header's decode parameters.
pub struct HeaderView {
    pub siz: SizView,
    pub cod: CodView,
    pub qcd: QcdView,
    pub components: Seq<ParamsView>,
    pub tlm: Seq<TlmEntry>,
    pub poc: Seq<PocVolume>,
    pub crg: Seq<(u16, u16)>,
}

impl HeaderView {
    /// Every component of the image has its parameters.
    pub open spec fn wf(&self) -> bool {
        self.components.len() == self.siz.components.len()
    }

    /// The header whose components all take the defaults.
    pub open spec fn defaults(siz: SizView, cod: CodView, qcd: QcdView) -> HeaderView {
        HeaderView {
            siz,
            cod,
            qcd,
            components: Seq::new(
                siz.components.len(),
                |i: int| ParamsView { coding: cod.coding, quant: qcd, roi_shift: 0 },
            ),
            tlm: Seq::empty(),
            poc: Seq::empty(),
            crg: Seq::empty(),
        }
    }
}

/// Parsed decode parameters. `cod` and `qcd` are the codestream-wide defaults;
/// `components` carries each component's effective parameters.
#[derive(Debug, PartialEq, Eq)]
pub struct MainHeader {
    pub siz: Siz,
    pub cod: Cod,
    pub qcd: Qcd,
    /// Effective parameters per component, in SIZ order.
    pub components: Vec<ComponentParams>,
    /// Tile-part lengths from any TLM markers, in marker order. Informational.
    pub tlm: Vec<TlmEntry>,
    /// Progression volumes from any POC markers, in marker order. Empty when the
    /// packets follow `cod`'s progression alone.
    pub poc: Vec<PocVolume>,
    /// Component registration offsets from a CRG marker. Informational.
    pub crg: Vec<(u16, u16)>,
}

impl View for MainHeader {
    type V = HeaderView;

    open spec fn view(&self) -> HeaderView {
        HeaderView {
            siz: self.siz@,
            cod: self.cod@,
            qcd: self.qcd@,
            components: params_views(self.components@),
            tlm: self.tlm@,
            poc: self.poc@,
            crg: self.crg@,
        }
    }
}

/// A copy of every component's parameters.
fn clone_params(params: &Vec<ComponentParams>) -> (r: Vec<ComponentParams>)
    ensures
        params_views(r@) == params_views(params@),
{
    let mut out: Vec<ComponentParams> = Vec::new();
    let mut i: usize = 0;
    while i < params.len()
        invariant
            i <= params@.len(),
            out@.len() == i,
            forall|j: int| 0 <= j < i ==> (#[trigger] out@[j])@ == params@[j]@,
        decreases params@.len() - i,
    {
        out.push(params[i].clone());
        i = i + 1;
    }
    assert(params_views(out@) =~= params_views(params@));
    out
}

impl Clone for MainHeader {
    fn clone(&self) -> (r: Self)
        ensures
            r@ == self@,
    {
        MainHeader {
            siz: self.siz.clone(),
            cod: self.cod.clone(),
            qcd: self.qcd.clone(),
            components: clone_params(&self.components),
            tlm: slice_to_vec(self.tlm.as_slice()),
            poc: slice_to_vec(self.poc.as_slice()),
            crg: slice_to_vec(self.crg.as_slice()),
        }
    }
}

impl MainHeader {
    /// A header whose components all take the `cod` and `qcd` defaults.
    pub fn new(siz: Siz, cod: Cod, qcd: Qcd) -> (h: Self)
        ensures
            h@ == HeaderView::defaults(siz@, cod@, qcd@),
            h@.wf(),
    {
        let count: usize = siz.components.len();
        let mut components: Vec<ComponentParams> = Vec::new();
        while components.len() < count
            invariant
                components@.len() <= count,
                forall|j: int|
                    0 <= j < components@.len() ==> (#[trigger] components@[j])@ == (ParamsView {
                        coding: cod@.coding,
                        quant: qcd@,
                        roi_shift: 0,
                    }),
            decreases count - components@.len(),
        {
            components.push(
                ComponentParams { coding: cod.coding(), quant: qcd.clone(), roi_shift: 0 },
            );
        }
        let h = MainHeader {
            siz,
            cod,
            qcd,
            components,
            tlm: Vec::new(),
            poc: Vec::new(),
            crg: Vec::new(),
        };
        assert(h@.components =~= HeaderView::defaults(siz@, cod@, qcd@).components);
        h
    }
}

/// A tile-part header's own markers.
pub struct TileHeaderView {
    pub cod: Option<CodView>,
    pub qcd: Option<QcdView>,
    pub coc: Seq<(int, CodingView)>,
    pub qcc: Seq<(int, QcdView)>,
    pub rgn: Seq<(int, u8)>,
    pub poc: Seq<PocVolume>,
}

/// A tile-part header's own markers: the tile's defaults and the per-component
/// overrides over them, each listed for the components that a marker names.
#[derive(Debug, PartialEq, Eq)]
pub struct TileHeader {
    pub cod: Option<Cod>,
    pub qcd: Option<Qcd>,
    pub coc: Vec<(usize, Coding)>,
    pub qcc: Vec<(usize, Qcd)>,
    pub rgn: Vec<(usize, u8)>,
    pub poc: Vec<PocVolume>,
}

/// The coding overrides and the components that they name.
pub open spec fn coc_views(s: Seq<(usize, Coding)>) -> Seq<(int, CodingView)> {
    Seq::new(s.len(), |i: int| (s[i].0 as int, s[i].1@))
}

/// The quantization overrides and the components that they name.
pub open spec fn qcc_views(s: Seq<(usize, Qcd)>) -> Seq<(int, QcdView)> {
    Seq::new(s.len(), |i: int| (s[i].0 as int, s[i].1@))
}

/// The maxshifts and the components that they name.
pub open spec fn rgn_views(s: Seq<(usize, u8)>) -> Seq<(int, u8)> {
    Seq::new(s.len(), |i: int| (s[i].0 as int, s[i].1))
}

impl View for TileHeader {
    type V = TileHeaderView;

    open spec fn view(&self) -> TileHeaderView {
        TileHeaderView {
            cod: match self.cod {
                Some(c) => Some(c@),
                None => None,
            },
            qcd: match self.qcd {
                Some(q) => Some(q@),
                None => None,
            },
            coc: coc_views(self.coc@),
            qcc: qcc_views(self.qcc@),
            rgn: rgn_views(self.rgn@),
            poc: self.poc@,
        }
    }
}

impl TileHeaderView {
    /// A tile-part header without any of these markers.
    pub open spec fn empty() -> TileHeaderView {
        TileHeaderView {
            cod: None,
            qcd: None,
            coc: Seq::empty(),
            qcc: Seq::empty(),
            rgn: Seq::empty(),
            poc: Seq::empty(),
        }
    }
}

impl Default for TileHeader {
    fn default() -> (h: Self)
        ensures
            h@ == TileHeaderView::empty(),
    {
        let h = TileHeader {
            cod: None,
            qcd: None,
            coc: Vec::new(),
            qcc: Vec::new(),
            rgn: Vec::new(),
            poc: Vec::new(),
        };
        assert(h@.coc =~= TileHeaderView::empty().coc);
        assert(h@.qcc =~= TileHeaderView::empty().qcc);
        assert(h@.rgn =~= TileHeaderView::empty().rgn);
        h
    }
}

/// One tile of the image.
pub struct TileView {
    pub index: u32,
    pub header: TileHeaderView,
    pub data: Seq<u8>,
    pub packed_headers: Seq<u8>,
}

/// One tile of the image: its index in the tile grid, its own tile-part-header
/// markers, its packet data, joined over its tile-parts, and its packed packet
/// headers if it has any.
#[derive(Debug, PartialEq, Eq)]
pub struct Tile<'a> {
    pub index: u32,
    pub header: TileHeader,
    pub data: Cow<'a, [u8]>,
    pub packed_headers: Vec<u8>,
}

impl<'a> View for Tile<'a> {
    type V = TileView;

    open spec fn view(&self) -> TileView {
        TileView {
            index: self.index,
            header: self.header@,
            data: self.data@,
            packed_headers: self.packed_headers@,
        }
    }
}

impl<'a> Tile<'a> {
    /// The tile's packet data.
    pub fn bytes(&self) -> (b: &[u8])
        ensures
            b@ == self@.data,
    {
        match &self.data {
            Cow::Borrowed(b) => b,
            Cow::Owned(v) => v.as_slice(),
        }
    }
}

/// A parsed codestream.
pub struct CodestreamView {
    pub header: HeaderView,
    pub tiles: Seq<TileView>,
}

impl CodestreamView {
    /// Every component has its parameters, and the tiles' overrides name components
    /// of the image.
    pub open spec fn wf(self) -> bool {
        &&& self.header.wf()
        &&& forall|i: int|
            0 <= i < self.tiles.len() ==> (#[trigger] self.tiles[i]).header.in_range(
                self.header.components.len() as int,
            )
    }
}

/// A parsed codestream: the main header and every tile, in tile-index order.
#[derive(Debug, PartialEq, Eq)]
pub struct Codestream<'a> {
    pub header: MainHeader,
    pub tiles: Vec<Tile<'a>>,
}

impl<'a> View for Codestream<'a> {
    type V = CodestreamView;

    open spec fn view(&self) -> CodestreamView {
        CodestreamView { header: self.header@, tiles: tile_views(self.tiles@) }
    }
}

impl<'a> Codestream<'a> {
    /// The parameters that tile `index` decodes under: the main header with that
    /// tile's own markers resolved over it.
    pub fn tile_header(&self, index: usize) -> (r: Result<MainHeader>)
        requires
            self@.wf(),
        ensures
            match r {
                Ok(h) => index < self@.tiles.len() && resolve_spec(
                    self@.header,
                    self@.tiles[index as int].header,
                ) == Ok::<HeaderView, ErrorKind>(h@),
                Err(e) => if index < self@.tiles.len() {
                    &&& resolve_spec(self@.header, self@.tiles[index as int].header) == Err::<
                        HeaderView,
                        ErrorKind,
                    >(e.kind())
                    &&& e.message() == resolve_text(
                        self@.header,
                        self@.tiles[index as int].header,
                    )
                } else {
                    &&& e.kind() == ErrorKind::Inconsistent
                    &&& e.message() == "no tile "@ + decimal_text(index as nat)
                },
            },
    {
        if index >= self.tiles.len() {
            return Err(
                Error::Inconsistent(
                    "no tile ".to_string().concat(decimal(index as u64).as_str()),
                ),
            );
        }
        assert(self@.tiles[index as int] == self.tiles@[index as int]@);
        resolve_tile_header(&self.header, &self.tiles[index].header)
    }
}

/// The JP2 signature box that opens every JP2 file.
pub const JP2_SIGNATURE: [u8; 12] = [
    0x00,
    0x00,
    0x00,
    0x0C,
    0x6A,
    0x50,
    0x20,
    0x20,
    0x0D,
    0x0A,
    0x87,
    0x0A,
];

/// The bytes open with the JP2 signature box.
pub open spec fn is_jp2(b: Seq<u8>) -> bool {
    &&& b.len() >= 12
    &&& forall|i: int| 0 <= i < 12 ==> #[trigger] b[i] == JP2_SIGNATURE@[i]
}

/// Some component's wavelet in a tile is not the main header's.
pub open spec fn wavelets_differ(tile: HeaderView, main: HeaderView) -> bool {
    exists|c: int|
        0 <= c < main.components.len() && (#[trigger] tile.components[c]).coding.transform
            != main.components[c].coding.transform
}

/// How the tiles from `i` on are at fault, if one is: its parameters do not
/// resolve, or they change a component's wavelet, whose samples all tiles share.
pub open spec fn tiles_fault(main: HeaderView, tiles: Seq<TileView>, i: int) -> Option<ErrorKind>
    decreases max_int(0, tiles.len() - i),
{
    if i < 0 || i >= tiles.len() {
        None
    } else {
        match resolve_spec(main, tiles[i].header) {
            Err(e) => Some(e),
            Ok(h) => if wavelets_differ(h, main) {
                Some(ErrorKind::Unsupported)
            } else {
                tiles_fault(main, tiles, i + 1)
            },
        }
    }
}

/// The first component from `c` on whose wavelet in a tile is not the main header's.
pub open spec fn first_differing(tile: HeaderView, main: HeaderView, c: int) -> int
    decreases max_int(0, main.components.len() - c),
{
    if c < main.components.len() && tile.components[c].coding.transform
        == main.components[c].coding.transform {
        first_differing(tile, main, c + 1)
    } else {
        c
    }
}

/// What is said of tile `index`, which changes a component's wavelet.
pub open spec fn wavelet_text(index: int, tile: HeaderView, main: HeaderView) -> Seq<char> {
    let c = first_differing(tile, main, 0);
    "tile "@ + decimal_text(index as nat) + " codes component "@ + decimal_text(c as nat)
        + " with the "@ + tile.components[c].coding.transform.name_spec()@
        + " wavelet where the main header uses "@
        + main.components[c].coding.transform.name_spec()@
        + "; tiles that disagree on a component's wavelet are not decoded"@
}

/// What is said of the tiles from `i` on, where one is at fault.
pub open spec fn tiles_fault_text(main: HeaderView, tiles: Seq<TileView>, i: int) -> Seq<char>
    decreases max_int(0, tiles.len() - i),
{
    if i < 0 || i >= tiles.len() {
        Seq::empty()
    } else {
        match resolve_spec(main, tiles[i].header) {
            Err(_) => resolve_text(main, tiles[i].header),
            Ok(h) => if wavelets_differ(h, main) {
                wavelet_text(i, h, main)
            } else {
                tiles_fault_text(main, tiles, i + 1)
            },
        }
    }
}

/// What is said of a codestream that does not parse.
pub open spec fn parse_text(b: Seq<u8>) -> Seq<char> {
    if is_jp2(b) {
        "JP2 file format wrapper; pass the contained codestream (the `jp2c` box contents)"@
    } else {
        match main_spec(b) {
            Err(_) => main_text(b),
            Ok((header, sot, chunks)) => match tiles_spec(b, sot, header, chunks) {
                Err(_) => tiles_text(b, sot, header, chunks),
                Ok(tiles) => tiles_fault_text(header, tiles, 0),
            },
        }
    }
}

/// What [`parse`] makes of a codestream.
pub open spec fn parse_spec(b: Seq<u8>) -> core::result::Result<CodestreamView, ErrorKind> {
    if is_jp2(b) {
        Err(ErrorKind::Unsupported)
    } else {
        match main_spec(b) {
            Err(e) => Err(e),
            Ok((header, sot, chunks)) => match tiles_spec(b, sot, header, chunks) {
                Err(e) => Err(e),
                Ok(tiles) => match tiles_fault(header, tiles, 0) {
                    Some(e) => Err(e),
                    None => Ok(CodestreamView { header, tiles }),
                },
            },
        }
    }
}

/// Whether the bytes open with the JP2 signature box.
fn starts_with_jp2(bytes: &[u8]) -> (r: bool)
    ensures
        r == is_jp2(bytes@),
{
    if bytes.len() < 12 {
        return false;
    }
    let mut i: usize = 0;
    while i < 12
        invariant
            i <= 12,
            bytes@.len() >= 12,
            forall|j: int| 0 <= j < i ==> #[trigger] bytes@[j] == JP2_SIGNATURE@[j],
        decreases 12 - i,
    {
        if bytes[i] != JP2_SIGNATURE[i] {
            return false;
        }
        i = i + 1;
    }
    true
}

/// The first component whose wavelet in a tile is not the main header's, if there is
/// one.
fn differing_component(tile: &MainHeader, main: &MainHeader) -> (r: Option<usize>)
    requires
        tile@.components.len() == main@.components.len(),
    ensures
        match r {
            Some(c) => {
                &&& wavelets_differ(tile@, main@)
                &&& c < main@.components.len()
                &&& c == first_differing(tile@, main@, 0)
            },
            None => !wavelets_differ(tile@, main@),
        },
{
    let mut c: usize = 0;
    while c < main.components.len()
        invariant
            c <= main@.components.len(),
            tile@.components.len() == main@.components.len(),
            first_differing(tile@, main@, 0) == first_differing(tile@, main@, c as int),
            forall|j: int|
                0 <= j < c ==> (#[trigger] tile@.components[j]).coding.transform
                    == main@.components[j].coding.transform,
        decreases main@.components.len() - c,
    {
        assert(tile@.components[c as int] == tile.components@[c as int]@);
        assert(main@.components[c as int] == main.components@[c as int]@);
        if tile.components[c].coding.transform != main.components[c].coding.transform {
            return Some(c);
        }
        c = c + 1;
    }
    None
}

/// The message for tile `index`, which changes the wavelet of component `c`.
fn wavelet_message(index: usize, c: usize, tile: &MainHeader, main: &MainHeader) -> (s: String)
    requires
        c < tile@.components.len(),
        c < main@.components.len(),
        c == first_differing(tile@, main@, 0),
    ensures
        s@ == wavelet_text(index as int, tile@, main@),
{
    assert(tile@.components[c as int] == tile.components@[c as int]@);
    assert(main@.components[c as int] == main.components@[c as int]@);
    "tile ".to_string().concat(decimal(index as u64).as_str()).concat(" codes component ").concat(
        decimal(c as u64).as_str(),
    ).concat(" with the ").concat(tile.components[c].coding.transform.name()).concat(
        " wavelet where the main header uses ",
    ).concat(main.components[c].coding.transform.name()).concat(
        "; tiles that disagree on a component's wavelet are not decoded",
    )
}

/// Parse a raw codestream, which starts with SOC and ends with EOC.
///
/// Every tile's parameters are resolved once here, so that a malformed tile-part
/// header is a parse error.
pub fn parse(bytes: &[u8]) -> (r: Result<Codestream<'_>>)
    ensures
        match r {
            Ok(c) => parse_spec(bytes@) == Ok::<CodestreamView, ErrorKind>(c@) && c@.wf(),
            Err(e) => {
                &&& parse_spec(bytes@) == Err::<CodestreamView, ErrorKind>(e.kind())
                &&& e.message() == parse_text(bytes@)
            },
        },
{
    if starts_with_jp2(bytes) {
        return Err(
            Error::Unsupported(
                "JP2 file format wrapper; pass the contained codestream (the `jp2c` box contents)".to_string(),
            ),
        );
    }
    let (header, sot_offset, chunks): (MainHeader, usize, Vec<Vec<u8>>) = parse_main_header(bytes)?;
    let tiles: Vec<Tile<'_>> = walk_tiles(bytes, sot_offset, &header, &chunks)?;
    let codestream: Codestream<'_> = Codestream { header, tiles };
    proof {
        tile_parts::lemma_tiles_in_range(
            bytes@,
            sot_offset as int,
            codestream@.header,
            chunk_views(chunks@),
        );
    }
    let mut index: usize = 0;
    while index < codestream.tiles.len()
        invariant
            codestream@.wf(),
            index <= codestream@.tiles.len(),
            parse_spec(bytes@) == match tiles_fault(
                codestream@.header,
                codestream@.tiles,
                index as int,
            ) {
                Some(e) => Err(e),
                None => Ok(codestream@),
            },
            parse_text(bytes@) == tiles_fault_text(
                codestream@.header,
                codestream@.tiles,
                index as int,
            ),
        decreases codestream@.tiles.len() - index,
    {
        let tile: MainHeader = codestream.tile_header(index)?;
        match differing_component(&tile, &codestream.header) {
            Some(c) => {
                return Err(
                    Error::Unsupported(wavelet_message(index, c, &tile, &codestream.header)),
                );
            },
            None => {},
        }
        index = index + 1;
    }
    Ok(codestream)
}

} // verus!
